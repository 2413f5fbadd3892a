//! Wire data model: the tagged message union exchanged with clients and the
//! intent commands they issue. Plain value types; the codec module defines
//! their canonical JSON text.

use vstd::prelude::*;

verus! {

/// A client command. Value type: identity is tag plus payload.
#[derive(Clone, Debug, PartialEq)]
pub enum Intent {
    MoveTo { x: i32, y: i32, target_tick: Option<u64> },
    UsePotion { slot: Option<u8> },
    Say { text: String },
    Stop {},
}

/// Player fields of a snapshot.
#[derive(Clone, Debug, PartialEq)]
pub struct Player {
    pub hp: i32,
    pub hp_max: i32,
    pub mana: i32,
    pub mana_max: i32,
    pub pos: [i32; 2],
    pub level: i32,
    pub in_town: bool,
}

/// A monster as seen in a snapshot.
#[derive(Clone, Debug, PartialEq)]
pub struct Mon {
    pub id: i32,
    pub kind: String,
    pub pos: [i32; 2],
    pub hp_percent: u8,
}

/// A ground item as seen in a snapshot.
#[derive(Clone, Debug, PartialEq)]
pub struct Item {
    pub id: i32,
    pub pos: [i32; 2],
}

/// Entities near the player in a snapshot.
#[derive(Clone, Debug, PartialEq)]
pub struct Nearby {
    pub monsters: Vec<Mon>,
    pub items: Vec<Item>,
    pub other_players: Vec<()>,
}

/// Interface flags of a snapshot.
#[derive(Clone, Debug, PartialEq)]
pub struct UiState {
    pub in_menu: bool,
    pub in_store: bool,
    pub can_act: bool,
}

/// One consistent view of the simulation, broadcast to clients.
#[derive(Clone, Debug, PartialEq)]
pub struct State {
    pub player: Player,
    pub nearby: Nearby,
    pub ui_state: UiState,
}

/// A wire message, discriminated on the wire by a string tag.
#[derive(Clone, Debug, PartialEq)]
pub enum Msg {
    Hello { version: String, agent: Option<String> },
    State { tick: u64, tick_rate: u32, data: State },
    Intent { seq: u64, data: Intent },
    Ack { seq: u64, tick: u64 },
    Error { seq: Option<u64>, reason: String },
    Ping,
    Pong,
}

/// Content equality for optional text: equal presence and equal characters.
pub open spec fn opt_str_eqv(a: Option<String>, b: Option<String>) -> bool {
    match (a, b) {
        (Option::None, Option::None) => true,
        (Option::Some(x), Option::Some(y)) => x@ == y@,
        _ => false,
    }
}

/// Content equality of intents: same variant, equal payloads; text is
/// compared by its characters.
pub open spec fn intent_eqv(a: Intent, b: Intent) -> bool {
    match (a, b) {
        (
            Intent::MoveTo { x: x1, y: y1, target_tick: t1 },
            Intent::MoveTo { x: x2, y: y2, target_tick: t2 },
        ) => x1 == x2 && y1 == y2 && t1 == t2,
        (Intent::UsePotion { slot: s1 }, Intent::UsePotion { slot: s2 }) => s1 == s2,
        (Intent::Say { text: a1 }, Intent::Say { text: a2 }) => a1@ == a2@,
        (Intent::Stop {  }, Intent::Stop {  }) => true,
        _ => false,
    }
}

pub open spec fn mon_eqv(a: Mon, b: Mon) -> bool {
    a.id == b.id && a.kind@ == b.kind@ && a.pos@ == b.pos@ && a.hp_percent == b.hp_percent
}

pub open spec fn mons_eqv(a: Seq<Mon>, b: Seq<Mon>) -> bool {
    a.len() == b.len() && forall|j: int| 0 <= j < a.len() ==> mon_eqv(#[trigger] a[j], b[j])
}

pub open spec fn item_eqv(a: Item, b: Item) -> bool {
    a.id == b.id && a.pos@ == b.pos@
}

pub open spec fn items_eqv(a: Seq<Item>, b: Seq<Item>) -> bool {
    a.len() == b.len() && forall|j: int| 0 <= j < a.len() ==> item_eqv(#[trigger] a[j], b[j])
}

pub open spec fn player_eqv(a: Player, b: Player) -> bool {
    a.hp == b.hp && a.hp_max == b.hp_max && a.mana == b.mana && a.mana_max == b.mana_max
        && a.pos@ == b.pos@ && a.level == b.level && a.in_town == b.in_town
}

pub open spec fn nearby_eqv(a: Nearby, b: Nearby) -> bool {
    mons_eqv(a.monsters@, b.monsters@) && items_eqv(a.items@, b.items@)
        && a.other_players@.len() == b.other_players@.len()
}

pub open spec fn state_eqv(a: State, b: State) -> bool {
    player_eqv(a.player, b.player) && nearby_eqv(a.nearby, b.nearby) && a.ui_state == b.ui_state
}

/// Content equality of messages: same variant, equal fields; text fields
/// are compared by their characters.
pub open spec fn msg_eqv(a: Msg, b: Msg) -> bool {
    match (a, b) {
        (
            Msg::Hello { version: v1, agent: a1 },
            Msg::Hello { version: v2, agent: a2 },
        ) => v1@ == v2@ && opt_str_eqv(a1, a2),
        (
            Msg::State { tick: t1, tick_rate: r1, data: d1 },
            Msg::State { tick: t2, tick_rate: r2, data: d2 },
        ) => t1 == t2 && r1 == r2 && state_eqv(d1, d2),
        (
            Msg::Intent { seq: s1, data: d1 },
            Msg::Intent { seq: s2, data: d2 },
        ) => s1 == s2 && intent_eqv(d1, d2),
        (Msg::Ack { seq: s1, tick: t1 }, Msg::Ack { seq: s2, tick: t2 }) => s1 == s2 && t1 == t2,
        (
            Msg::Error { seq: s1, reason: r1 },
            Msg::Error { seq: s2, reason: r2 },
        ) => s1 == s2 && r1@ == r2@,
        (Msg::Ping, Msg::Ping) => true,
        (Msg::Pong, Msg::Pong) => true,
        _ => false,
    }
}

/// Why a frame failed to decode: it is not the canonical encoding of any
/// message (malformed JSON, an unrecognized tag, or a non-canonical form).
#[derive(Clone, Copy, Debug, PartialEq, Eq)]
pub enum DecodeError {
    Malformed,
}

} // verus!
