//! Snapshot assembly: turns the plain values the simulation owner reads
//! under its lock (entity lists, interface flags, the tick counter) into
//! the `State` payload of one broadcast. The read itself stays with the
//! simulation; this module only assembles, and pins every field.

use vstd::prelude::*;
use crate::schema::Item;
use crate::schema::Mon;
use crate::schema::Nearby;
use crate::schema::Player;
use crate::schema::State;
use crate::schema::UiState;

verus! {

/// A monster as the simulation reads it: combat fields and position.
pub struct MonsterInfo {
    pub id: i32,
    pub hp: i32,
    pub hp_max: i32,
    pub kind: String,
    pub x: i32,
    pub y: i32,
}

/// A ground item as the simulation reads it.
pub struct ItemInfo {
    pub id: i32,
    pub x: i32,
    pub y: i32,
}

/// Remaining health as a whole percentage, rounded down.
pub fn hp_percent(hp: i32, hp_max: i32) -> (r: u8)
    requires
        0 < hp_max,
        0 <= hp <= hp_max,
    ensures
        r as int == (hp as int) * 100 / (hp_max as int),
{
    proof {
        assert(0 <= (hp as int) * 100 / (hp_max as int) <= 100) by (nonlinear_arith)
            requires
                0 < hp_max,
                0 <= hp <= hp_max,
        ;
    }
    ((hp as i64) * 100 / (hp_max as i64)) as u8
}

/// The simulation tick counter advances by one each cycle and wraps at the
/// numeric limit.
pub fn advance_tick(n: u64) -> (r: u64)
    ensures
        n < u64::MAX ==> r == n + 1,
        n == u64::MAX ==> r == 0,
{
    if n == u64::MAX {
        0
    } else {
        n + 1
    }
}

/// Assemble one broadcast snapshot from the values read under the
/// simulation's lock: the tick and rate, the player's position if one
/// exists (a fixed fallback position otherwise), the nearby entities, and
/// the interface flag. Every field of the result is pinned: fixed player
/// vitals, monsters and items mapped in order with health as a percentage,
/// no other players, and the menu and store flags off.
pub fn build_snapshot(
    tick: u64,
    tick_rate: u32,
    player_pos: Option<[i32; 2]>,
    monsters: Vec<MonsterInfo>,
    items: Vec<ItemInfo>,
    can_act: bool,
) -> (r: (u64, u32, State))
    requires
        forall|j: int|
            0 <= j < monsters@.len() ==> 0 < (#[trigger] monsters@[j]).hp_max && 0
                <= monsters@[j].hp <= monsters@[j].hp_max,
    ensures
        r.0 == tick,
        r.1 == tick_rate,
        r.2.player.hp == 72 && r.2.player.hp_max == 100 && r.2.player.mana == 40
            && r.2.player.mana_max == 90 && r.2.player.level == 1 && r.2.player.in_town,
        (match player_pos {
            Some(p) => r.2.player.pos@ == p@,
            None => r.2.player.pos@ == seq![48i32, 52i32],
        }),
        r.2.nearby.monsters@.len() == monsters@.len(),
        forall|j: int|
            0 <= j < monsters@.len() ==> {
                let m = #[trigger] r.2.nearby.monsters@[j];
                m.id == monsters@[j].id && m.kind@ == monsters@[j].kind@ && m.pos@ == seq![
                    monsters@[j].x,
                    monsters@[j].y,
                ] && m.hp_percent as int == (monsters@[j].hp as int) * 100 / (monsters@[j].hp_max as int)
            },
        r.2.nearby.items@.len() == items@.len(),
        forall|j: int|
            0 <= j < items@.len() ==> {
                let it = #[trigger] r.2.nearby.items@[j];
                it.id == items@[j].id && it.pos@ == seq![items@[j].x, items@[j].y]
            },
        r.2.nearby.other_players@.len() == 0,
        r.2.ui_state == (UiState { in_menu: false, in_store: false, can_act: can_act }),
{
    let pos: [i32; 2] = match player_pos {
        Some(p) => p,
        None => [48, 52],
    };
    let player = Player {
        hp: 72,
        hp_max: 100,
        mana: 40,
        mana_max: 90,
        pos,
        level: 1,
        in_town: true,
    };
    let ghost morig = monsters@;
    let mut monsters = monsters;
    let mut mons: Vec<Mon> = Vec::new();
    while monsters.len() > 0
        invariant
            monsters@ == morig.skip(mons@.len() as int),
            mons@.len() <= morig.len(),
            forall|j: int|
                0 <= j < morig.len() ==> 0 < (#[trigger] morig[j]).hp_max && 0 <= morig[j].hp
                    <= morig[j].hp_max,
            forall|j: int|
                0 <= j < mons@.len() ==> {
                    let m = #[trigger] mons@[j];
                    m.id == morig[j].id && m.kind@ == morig[j].kind@ && m.pos@ == seq![
                        morig[j].x,
                        morig[j].y,
                    ] && m.hp_percent as int == (morig[j].hp as int) * 100 / (morig[j].hp_max as int)
                },
        decreases monsters@.len(),
    {
        let ghost k = mons@.len() as int;
        let m = monsters.remove(0);
        proof {
            assert(m == morig[k]);
            assert(monsters@ =~= morig.skip(k + 1));
        }
        let pct = hp_percent(m.hp, m.hp_max);
        mons.push(Mon { id: m.id, kind: m.kind, pos: [m.x, m.y], hp_percent: pct });
    }
    let ghost iorig = items@;
    let mut items = items;
    let mut its: Vec<Item> = Vec::new();
    while items.len() > 0
        invariant
            items@ == iorig.skip(its@.len() as int),
            its@.len() <= iorig.len(),
            forall|j: int|
                0 <= j < its@.len() ==> {
                    let it = #[trigger] its@[j];
                    it.id == iorig[j].id && it.pos@ == seq![iorig[j].x, iorig[j].y]
                },
        decreases items@.len(),
    {
        let ghost k = its@.len() as int;
        let it = items.remove(0);
        proof {
            assert(it == iorig[k]);
            assert(items@ =~= iorig.skip(k + 1));
        }
        its.push(Item { id: it.id, pos: [it.x, it.y] });
    }
    let nearby = Nearby { monsters: mons, items: its, other_players: Vec::new() };
    let ui_state = UiState { in_menu: false, in_store: false, can_act };
    (tick, tick_rate, State { player, nearby, ui_state })
}

} // verus!
