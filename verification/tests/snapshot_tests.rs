use gap_core::snapshot::{advance_tick, build_snapshot, hp_percent, ItemInfo, MonsterInfo};
use gap_core::schema::UiState;

#[test]
fn hp_percent_rounds_down() {
    assert_eq!(hp_percent(60, 100), 60);
    assert_eq!(hp_percent(1, 3), 33);
    assert_eq!(hp_percent(0, 7), 0);
    assert_eq!(hp_percent(7, 7), 100);
    assert_eq!(hp_percent(i32::MAX, i32::MAX), 100);
}

#[test]
fn advance_tick_counts_and_wraps() {
    assert_eq!(advance_tick(0), 1);
    assert_eq!(advance_tick(41), 42);
    assert_eq!(advance_tick(u64::MAX), 0);
}

#[test]
fn build_snapshot_maps_world_reads() {
    let monsters = vec![MonsterInfo {
        id: 1,
        hp: 60,
        hp_max: 100,
        kind: String::from("SK"),
        x: 51,
        y: 54,
    }];
    let items = vec![ItemInfo { id: 101, x: 45, y: 50 }];
    let (tick, rate, state) = build_snapshot(7, 30, Some([48, 52]), monsters, items, true);
    assert_eq!(tick, 7);
    assert_eq!(rate, 30);
    assert_eq!(state.player.hp, 72);
    assert_eq!(state.player.hp_max, 100);
    assert_eq!(state.player.mana, 40);
    assert_eq!(state.player.mana_max, 90);
    assert_eq!(state.player.pos, [48, 52]);
    assert_eq!(state.player.level, 1);
    assert!(state.player.in_town);
    assert_eq!(state.nearby.monsters.len(), 1);
    assert_eq!(state.nearby.monsters[0].id, 1);
    assert_eq!(state.nearby.monsters[0].kind, "SK");
    assert_eq!(state.nearby.monsters[0].pos, [51, 54]);
    assert_eq!(state.nearby.monsters[0].hp_percent, 60);
    assert_eq!(state.nearby.items.len(), 1);
    assert_eq!(state.nearby.items[0].id, 101);
    assert_eq!(state.nearby.items[0].pos, [45, 50]);
    assert!(state.nearby.other_players.is_empty());
    assert_eq!(state.ui_state, UiState { in_menu: false, in_store: false, can_act: true });
}

#[test]
fn build_snapshot_without_player_uses_fallback_position() {
    let (_, _, state) = build_snapshot(0, 30, None, Vec::new(), Vec::new(), false);
    assert_eq!(state.player.pos, [48, 52]);
    assert!(state.nearby.monsters.is_empty());
    assert!(!state.ui_state.can_act);
}
