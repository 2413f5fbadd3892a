//! Wire codec: canonical JSON text for the message schema. `spec_enc_msg`
//! pins the one canonical encoding of every message; `encode` produces it
//! and `decode` accepts exactly the canonical encodings and rejects all
//! other text, so the two are mutual inverses by contract.

use vstd::prelude::*;
use vstd::string::StrSliceExecFns;
use vstd::string::StringExecFns;
use crate::schema::DecodeError;
use crate::schema::Intent;
use crate::schema::Item;
use crate::schema::Mon;
use crate::schema::Msg;
use crate::schema::Nearby;
use crate::schema::Player;
use crate::schema::State;
use crate::schema::UiState;

verus! {

// ---------------------------------------------------------------- digits

pub open spec fn spec_digit(d: int) -> char {
    if d == 0 {
        '0'
    } else if d == 1 {
        '1'
    } else if d == 2 {
        '2'
    } else if d == 3 {
        '3'
    } else if d == 4 {
        '4'
    } else if d == 5 {
        '5'
    } else if d == 6 {
        '6'
    } else if d == 7 {
        '7'
    } else if d == 8 {
        '8'
    } else {
        '9'
    }
}

/// Decimal digits of `n`, most significant first, no leading zeros.
pub open spec fn dec_digits(n: nat) -> Seq<char>
    decreases n,
{
    if n < 10 {
        seq![spec_digit(n as int)]
    } else {
        dec_digits(n / 10) + seq![spec_digit((n % 10) as int)]
    }
}

pub open spec fn spec_enc_u64(v: u64) -> Seq<char> {
    dec_digits(v as nat)
}

pub open spec fn spec_enc_i32(x: i32) -> Seq<char> {
    if x >= 0 {
        dec_digits(x as nat)
    } else {
        seq!['-'] + dec_digits((-(x as int)) as nat)
    }
}

// ---------------------------------------------------------------- strings

/// How one character appears inside a JSON string literal.
pub open spec fn esc_char(c: char) -> Seq<char> {
    if c == '"' {
        seq!['\\', '"']
    } else if c == '\\' {
        seq!['\\', '\\']
    } else if c == '\n' {
        seq!['\\', 'n']
    } else if c == '\r' {
        seq!['\\', 'r']
    } else if c == '\t' {
        seq!['\\', 't']
    } else {
        seq![c]
    }
}

pub open spec fn spec_escape(t: Seq<char>) -> Seq<char>
    decreases t.len(),
{
    if t.len() == 0 {
        Seq::empty()
    } else {
        esc_char(t[0]) + spec_escape(t.skip(1))
    }
}

pub open spec fn spec_enc_str(t: Seq<char>) -> Seq<char> {
    seq!['"'] + spec_escape(t) + seq!['"']
}

// ---------------------------------------------------------------- scalars

pub open spec fn spec_enc_bool(b: bool) -> Seq<char> {
    if b {
        "true"@
    } else {
        "false"@
    }
}

pub open spec fn spec_enc_opt_u64(o: Option<u64>) -> Seq<char> {
    match o {
        None => "null"@,
        Some(v) => spec_enc_u64(v),
    }
}

pub open spec fn spec_enc_opt_u8(o: Option<u8>) -> Seq<char> {
    match o {
        None => "null"@,
        Some(v) => dec_digits(v as nat),
    }
}

pub open spec fn spec_enc_opt_str(o: Option<String>) -> Seq<char> {
    match o {
        None => "null"@,
        Some(t) => spec_enc_str(t@),
    }
}

pub open spec fn spec_enc_pos(p: [i32; 2]) -> Seq<char> {
    seq!['['] + spec_enc_i32(p@[0]) + seq![','] + spec_enc_i32(p@[1]) + seq![']']
}

// ---------------------------------------------------------------- records

pub open spec fn spec_enc_mon(m: Mon) -> Seq<char> {
    "{\"id\":"@ + spec_enc_i32(m.id) + ",\"kind\":"@ + spec_enc_str(m.kind@) + ",\"pos\":"@
        + spec_enc_pos(m.pos) + ",\"hp_percent\":"@ + dec_digits(m.hp_percent as nat) + "}"@
}

pub open spec fn spec_enc_item(it: Item) -> Seq<char> {
    "{\"id\":"@ + spec_enc_i32(it.id) + ",\"pos\":"@ + spec_enc_pos(it.pos) + "}"@
}

pub open spec fn spec_enc_player(p: Player) -> Seq<char> {
    "{\"hp\":"@ + spec_enc_i32(p.hp) + ",\"hp_max\":"@ + spec_enc_i32(p.hp_max) + ",\"mana\":"@
        + spec_enc_i32(p.mana) + ",\"mana_max\":"@ + spec_enc_i32(p.mana_max) + ",\"pos\":"@
        + spec_enc_pos(p.pos) + ",\"level\":"@ + spec_enc_i32(p.level) + ",\"in_town\":"@
        + spec_enc_bool(p.in_town) + "}"@
}

pub open spec fn spec_enc_ui(u: UiState) -> Seq<char> {
    "{\"in_menu\":"@ + spec_enc_bool(u.in_menu) + ",\"in_store\":"@ + spec_enc_bool(u.in_store)
        + ",\"can_act\":"@ + spec_enc_bool(u.can_act) + "}"@
}

// ------------------------------------------------------------------ lists

pub open spec fn spec_enc_mons_rest(w: Seq<Mon>) -> Seq<char>
    decreases w.len(),
{
    if w.len() == 0 {
        "]"@
    } else {
        ","@ + spec_enc_mon(w[0]) + spec_enc_mons_rest(w.skip(1))
    }
}

pub open spec fn spec_enc_mons(w: Seq<Mon>) -> Seq<char> {
    if w.len() == 0 {
        "[]"@
    } else {
        "["@ + spec_enc_mon(w[0]) + spec_enc_mons_rest(w.skip(1))
    }
}

pub open spec fn spec_enc_items_rest(w: Seq<Item>) -> Seq<char>
    decreases w.len(),
{
    if w.len() == 0 {
        "]"@
    } else {
        ","@ + spec_enc_item(w[0]) + spec_enc_items_rest(w.skip(1))
    }
}

pub open spec fn spec_enc_items(w: Seq<Item>) -> Seq<char> {
    if w.len() == 0 {
        "[]"@
    } else {
        "["@ + spec_enc_item(w[0]) + spec_enc_items_rest(w.skip(1))
    }
}

pub open spec fn spec_enc_units_rest(w: Seq<()>) -> Seq<char>
    decreases w.len(),
{
    if w.len() == 0 {
        "]"@
    } else {
        ",null"@ + spec_enc_units_rest(w.skip(1))
    }
}

pub open spec fn spec_enc_units(w: Seq<()>) -> Seq<char> {
    if w.len() == 0 {
        "[]"@
    } else {
        "[null"@ + spec_enc_units_rest(w.skip(1))
    }
}

pub open spec fn spec_enc_nearby(nb: Nearby) -> Seq<char> {
    "{\"monsters\":"@ + spec_enc_mons(nb.monsters@) + ",\"items\":"@ + spec_enc_items(nb.items@)
        + ",\"other_players\":"@ + spec_enc_units(nb.other_players@) + "}"@
}

pub open spec fn spec_enc_state(st: State) -> Seq<char> {
    "{\"player\":"@ + spec_enc_player(st.player) + ",\"nearby\":"@ + spec_enc_nearby(st.nearby)
        + ",\"ui_state\":"@ + spec_enc_ui(st.ui_state) + "}"@
}

// --------------------------------------------------------------- messages

pub open spec fn spec_enc_intent(i: Intent) -> Seq<char> {
    match i {
        Intent::MoveTo { x, y, target_tick } => "{\"cmd\":\"move_to\",\"x\":"@ + spec_enc_i32(x)
            + ",\"y\":"@ + spec_enc_i32(y) + ",\"targetTick\":"@ + spec_enc_opt_u64(target_tick)
            + "}"@,
        Intent::UsePotion { slot } => "{\"cmd\":\"use_potion\",\"slot\":"@ + spec_enc_opt_u8(slot)
            + "}"@,
        Intent::Say { text } => "{\"cmd\":\"say\",\"text\":"@ + spec_enc_str(text@) + "}"@,
        Intent::Stop {  } => "{\"cmd\":\"stop\"}"@,
    }
}

/// The canonical wire text of a message: the one form `encode` emits and
/// the one form `decode` accepts.
pub open spec fn spec_enc_msg(m: Msg) -> Seq<char> {
    match m {
        Msg::Hello { version, agent } => "{\"type\":\"hello\",\"version\":"@ + spec_enc_str(
            version@,
        ) + ",\"agent\":"@ + spec_enc_opt_str(agent) + "}"@,
        Msg::State { tick, tick_rate, data } => "{\"type\":\"state\",\"tick\":"@ + spec_enc_u64(
            tick,
        ) + ",\"tick_rate\":"@ + dec_digits(tick_rate as nat) + ",\"data\":"@ + spec_enc_state(
            data,
        ) + "}"@,
        Msg::Intent { seq, data } => "{\"type\":\"intent\",\"seq\":"@ + spec_enc_u64(seq)
            + ",\"data\":"@ + spec_enc_intent(data) + "}"@,
        Msg::Ack { seq, tick } => "{\"type\":\"ack\",\"seq\":"@ + spec_enc_u64(seq) + ",\"tick\":"@
            + spec_enc_u64(tick) + "}"@,
        Msg::Error { seq, reason } => "{\"type\":\"error\",\"seq\":"@ + spec_enc_opt_u64(seq)
            + ",\"reason\":"@ + spec_enc_str(reason@) + "}"@,
        Msg::Ping => "{\"type\":\"ping\"}"@,
        Msg::Pong => "{\"type\":\"pong\"}"@,
    }
}

// ----------------------------------------------------------- exec encode

/// Relies on String::push: appends exactly one character at the end.
#[verifier::external_body]
fn push_char(out: &mut String, c: char)
    ensures
        final(out)@ == old(out)@.push(c),
{
    out.push(c);
}

fn digit_char(d: u8) -> (c: char)
    requires
        d < 10,
    ensures
        c == spec_digit(d as int),
{
    match d {
        0 => '0',
        1 => '1',
        2 => '2',
        3 => '3',
        4 => '4',
        5 => '5',
        6 => '6',
        7 => '7',
        8 => '8',
        _ => '9',
    }
}

fn append_u64(out: &mut String, v: u64)
    ensures
        final(out)@ == old(out)@ + spec_enc_u64(v),
    decreases v,
{
    if v >= 10 {
        append_u64(out, v / 10);
    }
    let d: u8 = (v % 10) as u8;
    push_char(out, digit_char(d));
    proof {
        assert(out@ =~= old(out)@ + spec_enc_u64(v));
    }
}

fn append_i32(out: &mut String, x: i32)
    ensures
        final(out)@ == old(out)@ + spec_enc_i32(x),
{
    if x >= 0 {
        append_u64(out, x as u64);
    } else {
        push_char(out, '-');
        let mag: u64 = (-(x as i64)) as u64;
        append_u64(out, mag);
        proof {
            assert(mag as nat == (-(x as int)) as nat);
            assert(out@ =~= old(out)@ + spec_enc_i32(x));
        }
    }
}

fn append_escaped(out: &mut String, s: &str, from: usize, n: usize)
    requires
        n == s@.len(),
        from <= n,
    ensures
        final(out)@ == old(out)@ + spec_escape(s@.skip(from as int)),
    decreases n - from,
{
    if from == n {
        proof {
            assert(s@.skip(from as int) =~= Seq::<char>::empty());
            assert(out@ =~= old(out)@ + spec_escape(s@.skip(from as int)));
        }
        return ;
    }
    let c = s.get_char(from);
    if c == '"' {
        push_char(out, '\\');
        push_char(out, '"');
    } else if c == '\\' {
        push_char(out, '\\');
        push_char(out, '\\');
    } else if c == '\n' {
        push_char(out, '\\');
        push_char(out, 'n');
    } else if c == '\r' {
        push_char(out, '\\');
        push_char(out, 'r');
    } else if c == '\t' {
        push_char(out, '\\');
        push_char(out, 't');
    } else {
        push_char(out, c);
    }
    proof {
        assert(out@ =~= old(out)@ + esc_char(s@[from as int]));
    }
    append_escaped(out, s, from + 1, n);
    proof {
        assert(s@.skip(from as int)[0] == s@[from as int]);
        assert(s@.skip(from as int).skip(1) =~= s@.skip(from + 1));
        assert(out@ =~= old(out)@ + spec_escape(s@.skip(from as int)));
    }
}

fn append_string(out: &mut String, s: &str)
    ensures
        final(out)@ == old(out)@ + spec_enc_str(s@),
{
    push_char(out, '"');
    let n = s.unicode_len();
    append_escaped(out, s, 0, n);
    push_char(out, '"');
    proof {
        assert(s@.skip(0) =~= s@);
        assert(out@ =~= old(out)@ + spec_enc_str(s@));
    }
}

fn append_bool(out: &mut String, b: bool)
    ensures
        final(out)@ == old(out)@ + spec_enc_bool(b),
{
    if b {
        out.append("true");
    } else {
        out.append("false");
    }
}

fn append_opt_u64(out: &mut String, o: &Option<u64>)
    ensures
        final(out)@ == old(out)@ + spec_enc_opt_u64(*o),
{
    match o {
        None => out.append("null"),
        Some(v) => append_u64(out, *v),
    }
}

fn append_opt_u8(out: &mut String, o: &Option<u8>)
    ensures
        final(out)@ == old(out)@ + spec_enc_opt_u8(*o),
{
    match o {
        None => out.append("null"),
        Some(v) => append_u64(out, *v as u64),
    }
}

fn append_opt_string(out: &mut String, o: &Option<String>)
    ensures
        final(out)@ == old(out)@ + spec_enc_opt_str(*o),
{
    match o {
        None => out.append("null"),
        Some(t) => append_string(out, t.as_str()),
    }
}

fn append_pos(out: &mut String, p: &[i32; 2])
    ensures
        final(out)@ == old(out)@ + spec_enc_pos(*p),
{
    push_char(out, '[');
    append_i32(out, p[0]);
    push_char(out, ',');
    append_i32(out, p[1]);
    push_char(out, ']');
    proof {
        assert(out@ =~= old(out)@ + spec_enc_pos(*p));
    }
}

fn append_mon(out: &mut String, m: &Mon)
    ensures
        final(out)@ == old(out)@ + spec_enc_mon(*m),
{
    out.append("{\"id\":");
    append_i32(out, m.id);
    out.append(",\"kind\":");
    append_string(out, m.kind.as_str());
    out.append(",\"pos\":");
    append_pos(out, &m.pos);
    out.append(",\"hp_percent\":");
    append_u64(out, m.hp_percent as u64);
    out.append("}");
    proof {
        assert(out@ =~= old(out)@ + spec_enc_mon(*m));
    }
}

fn append_item(out: &mut String, it: &Item)
    ensures
        final(out)@ == old(out)@ + spec_enc_item(*it),
{
    out.append("{\"id\":");
    append_i32(out, it.id);
    out.append(",\"pos\":");
    append_pos(out, &it.pos);
    out.append("}");
    proof {
        assert(out@ =~= old(out)@ + spec_enc_item(*it));
    }
}

fn append_mons_rest(out: &mut String, v: &Vec<Mon>, k: usize)
    requires
        1 <= k <= v@.len(),
    ensures
        final(out)@ == old(out)@ + spec_enc_mons_rest(v@.skip(k as int)),
    decreases v@.len() - k,
{
    if k == v.len() {
        out.append("]");
        proof {
            assert(v@.skip(k as int) =~= Seq::<Mon>::empty());
            assert(out@ =~= old(out)@ + spec_enc_mons_rest(v@.skip(k as int)));
        }
    } else {
        out.append(",");
        append_mon(out, &v[k]);
        append_mons_rest(out, v, k + 1);
        proof {
            assert(v@.skip(k as int)[0] == v@[k as int]);
            assert(v@.skip(k as int).skip(1) =~= v@.skip(k + 1));
            assert(out@ =~= old(out)@ + spec_enc_mons_rest(v@.skip(k as int)));
        }
    }
}

fn append_mons(out: &mut String, v: &Vec<Mon>)
    ensures
        final(out)@ == old(out)@ + spec_enc_mons(v@),
{
    if v.len() == 0 {
        out.append("[]");
    } else {
        out.append("[");
        append_mon(out, &v[0]);
        append_mons_rest(out, v, 1);
        proof {
            assert(out@ =~= old(out)@ + spec_enc_mons(v@));
        }
    }
}

fn append_items_rest(out: &mut String, v: &Vec<Item>, k: usize)
    requires
        1 <= k <= v@.len(),
    ensures
        final(out)@ == old(out)@ + spec_enc_items_rest(v@.skip(k as int)),
    decreases v@.len() - k,
{
    if k == v.len() {
        out.append("]");
        proof {
            assert(v@.skip(k as int) =~= Seq::<Item>::empty());
            assert(out@ =~= old(out)@ + spec_enc_items_rest(v@.skip(k as int)));
        }
    } else {
        out.append(",");
        append_item(out, &v[k]);
        append_items_rest(out, v, k + 1);
        proof {
            assert(v@.skip(k as int)[0] == v@[k as int]);
            assert(v@.skip(k as int).skip(1) =~= v@.skip(k + 1));
            assert(out@ =~= old(out)@ + spec_enc_items_rest(v@.skip(k as int)));
        }
    }
}

fn append_items(out: &mut String, v: &Vec<Item>)
    ensures
        final(out)@ == old(out)@ + spec_enc_items(v@),
{
    if v.len() == 0 {
        out.append("[]");
    } else {
        out.append("[");
        append_item(out, &v[0]);
        append_items_rest(out, v, 1);
        proof {
            assert(out@ =~= old(out)@ + spec_enc_items(v@));
        }
    }
}

fn append_units_rest(out: &mut String, v: &Vec<()>, k: usize)
    requires
        1 <= k <= v@.len(),
    ensures
        final(out)@ == old(out)@ + spec_enc_units_rest(v@.skip(k as int)),
    decreases v@.len() - k,
{
    if k == v.len() {
        out.append("]");
        proof {
            assert(v@.skip(k as int) =~= Seq::<()>::empty());
            assert(out@ =~= old(out)@ + spec_enc_units_rest(v@.skip(k as int)));
        }
    } else {
        out.append(",null");
        append_units_rest(out, v, k + 1);
        proof {
            assert(v@.skip(k as int).skip(1) =~= v@.skip(k + 1));
            assert(out@ =~= old(out)@ + spec_enc_units_rest(v@.skip(k as int)));
        }
    }
}

fn append_units(out: &mut String, v: &Vec<()>)
    ensures
        final(out)@ == old(out)@ + spec_enc_units(v@),
{
    if v.len() == 0 {
        out.append("[]");
    } else {
        out.append("[null");
        append_units_rest(out, v, 1);
        proof {
            assert(v@.skip(1).skip(0) =~= v@.skip(1));
            assert(out@ =~= old(out)@ + spec_enc_units(v@));
        }
    }
}

fn append_player(out: &mut String, p: &Player)
    ensures
        final(out)@ == old(out)@ + spec_enc_player(*p),
{
    out.append("{\"hp\":");
    append_i32(out, p.hp);
    out.append(",\"hp_max\":");
    append_i32(out, p.hp_max);
    out.append(",\"mana\":");
    append_i32(out, p.mana);
    out.append(",\"mana_max\":");
    append_i32(out, p.mana_max);
    out.append(",\"pos\":");
    append_pos(out, &p.pos);
    out.append(",\"level\":");
    append_i32(out, p.level);
    out.append(",\"in_town\":");
    append_bool(out, p.in_town);
    out.append("}");
    proof {
        assert(out@ =~= old(out)@ + spec_enc_player(*p));
    }
}

fn append_ui(out: &mut String, u: &UiState)
    ensures
        final(out)@ == old(out)@ + spec_enc_ui(*u),
{
    out.append("{\"in_menu\":");
    append_bool(out, u.in_menu);
    out.append(",\"in_store\":");
    append_bool(out, u.in_store);
    out.append(",\"can_act\":");
    append_bool(out, u.can_act);
    out.append("}");
    proof {
        assert(out@ =~= old(out)@ + spec_enc_ui(*u));
    }
}

fn append_nearby(out: &mut String, nb: &Nearby)
    ensures
        final(out)@ == old(out)@ + spec_enc_nearby(*nb),
{
    out.append("{\"monsters\":");
    append_mons(out, &nb.monsters);
    out.append(",\"items\":");
    append_items(out, &nb.items);
    out.append(",\"other_players\":");
    append_units(out, &nb.other_players);
    out.append("}");
    proof {
        assert(out@ =~= old(out)@ + spec_enc_nearby(*nb));
    }
}

fn append_state(out: &mut String, st: &State)
    ensures
        final(out)@ == old(out)@ + spec_enc_state(*st),
{
    out.append("{\"player\":");
    append_player(out, &st.player);
    out.append(",\"nearby\":");
    append_nearby(out, &st.nearby);
    out.append(",\"ui_state\":");
    append_ui(out, &st.ui_state);
    out.append("}");
    proof {
        assert(out@ =~= old(out)@ + spec_enc_state(*st));
    }
}

fn append_intent(out: &mut String, i: &Intent)
    ensures
        final(out)@ == old(out)@ + spec_enc_intent(*i),
{
    match i {
        Intent::MoveTo { x, y, target_tick } => {
            out.append("{\"cmd\":\"move_to\",\"x\":");
            append_i32(out, *x);
            out.append(",\"y\":");
            append_i32(out, *y);
            out.append(",\"targetTick\":");
            append_opt_u64(out, target_tick);
            out.append("}");
            proof {
                assert(out@ =~= old(out)@ + spec_enc_intent(*i));
            }
        },
        Intent::UsePotion { slot } => {
            out.append("{\"cmd\":\"use_potion\",\"slot\":");
            append_opt_u8(out, slot);
            out.append("}");
            proof {
                assert(out@ =~= old(out)@ + spec_enc_intent(*i));
            }
        },
        Intent::Say { text } => {
            out.append("{\"cmd\":\"say\",\"text\":");
            append_string(out, text.as_str());
            out.append("}");
            proof {
                assert(out@ =~= old(out)@ + spec_enc_intent(*i));
            }
        },
        Intent::Stop {  } => {
            out.append("{\"cmd\":\"stop\"}");
            proof {
                assert(out@ =~= old(out)@ + spec_enc_intent(*i));
            }
        },
    }
}

/// Encode a message as its canonical wire text. Total: succeeds on every
/// well-formed message value.
pub fn encode(m: &Msg) -> (r: String)
    ensures
        r@ == spec_enc_msg(*m),
{
    let mut out = String::new();
    match m {
        Msg::Hello { version, agent } => {
            out.append("{\"type\":\"hello\",\"version\":");
            append_string(&mut out, version.as_str());
            out.append(",\"agent\":");
            append_opt_string(&mut out, agent);
            out.append("}");
            proof {
                assert(out@ =~= spec_enc_msg(*m));
            }
        },
        Msg::State { tick, tick_rate, data } => {
            out.append("{\"type\":\"state\",\"tick\":");
            append_u64(&mut out, *tick);
            out.append(",\"tick_rate\":");
            append_u64(&mut out, *tick_rate as u64);
            out.append(",\"data\":");
            append_state(&mut out, data);
            out.append("}");
            proof {
                assert(out@ =~= spec_enc_msg(*m));
            }
        },
        Msg::Intent { seq, data } => {
            out.append("{\"type\":\"intent\",\"seq\":");
            append_u64(&mut out, *seq);
            out.append(",\"data\":");
            append_intent(&mut out, data);
            out.append("}");
            proof {
                assert(out@ =~= spec_enc_msg(*m));
            }
        },
        Msg::Ack { seq, tick } => {
            out.append("{\"type\":\"ack\",\"seq\":");
            append_u64(&mut out, *seq);
            out.append(",\"tick\":");
            append_u64(&mut out, *tick);
            out.append("}");
            proof {
                assert(out@ =~= spec_enc_msg(*m));
            }
        },
        Msg::Error { seq, reason } => {
            out.append("{\"type\":\"error\",\"seq\":");
            append_opt_u64(&mut out, seq);
            out.append(",\"reason\":");
            append_string(&mut out, reason.as_str());
            out.append("}");
            proof {
                assert(out@ =~= spec_enc_msg(*m));
            }
        },
        Msg::Ping => {
            out.append("{\"type\":\"ping\"}");
            proof {
                assert(out@ =~= spec_enc_msg(*m));
            }
        },
        Msg::Pong => {
            out.append("{\"type\":\"pong\"}");
            proof {
                assert(out@ =~= spec_enc_msg(*m));
            }
        },
    }
    out
}

// ------------------------------------------------------------ parse: specs

/// `t` occurs in `s` starting at position `i`.
pub open spec fn follows(s: Seq<char>, i: int, t: Seq<char>) -> bool {
    0 <= i && i + t.len() <= s.len() && s.subrange(i, i + t.len()) == t
}

pub open spec fn is_digit_char(c: char) -> bool {
    48 <= c as u32 <= 57
}

pub open spec fn dval(c: char) -> int {
    c as u32 - 48
}

/// Position `p` does not continue a decimal number in `s`.
pub open spec fn non_digit_at(s: Seq<char>, p: int) -> bool {
    p == s.len() || !is_digit_char(s[p])
}

pub open spec fn val_digits(ds: Seq<char>) -> int
    decreases ds.len(),
{
    if ds.len() == 0 {
        0
    } else {
        val_digits(ds.drop_last()) * 10 + dval(ds.last())
    }
}

proof fn lemma_dec_digits_props(n: nat)
    ensures
        dec_digits(n).len() >= 1,
        forall|j: int| 0 <= j < dec_digits(n).len() ==> is_digit_char(#[trigger] dec_digits(n)[j]),
        val_digits(dec_digits(n)) == n,
        dec_digits(n)[0] == '0' ==> n == 0,
    decreases n,
{
    assert('0' as u32 == 48 && '1' as u32 == 49 && '2' as u32 == 50 && '3' as u32 == 51 && '4'
        as u32 == 52 && '5' as u32 == 53 && '6' as u32 == 54 && '7' as u32 == 55 && '8' as u32
        == 56 && '9' as u32 == 57);
    if n < 10 {
        assert(dec_digits(n).drop_last() =~= Seq::<char>::empty());
        assert(val_digits(Seq::<char>::empty()) == 0);
        assert(dec_digits(n).last() == spec_digit(n as int));
        assert(val_digits(dec_digits(n)) == val_digits(dec_digits(n).drop_last()) * 10 + dval(
            dec_digits(n).last(),
        ));
        assert(val_digits(dec_digits(n)) == dval(spec_digit(n as int)));
        assert(dval(spec_digit(n as int)) == n);
    } else {
        lemma_dec_digits_props(n / 10);
        vstd::arithmetic::div_mod::lemma_fundamental_div_mod(n as int, 10);
        let a = dec_digits(n / 10);
        let ds = dec_digits(n);
        assert(ds.drop_last() =~= a);
        assert(ds.last() == spec_digit((n % 10) as int));
        assert(val_digits(ds) == val_digits(a) * 10 + (n % 10));
        assert forall|j: int| 0 <= j < ds.len() implies is_digit_char(#[trigger] ds[j]) by {
            if j < a.len() {
                assert(ds[j] == a[j]);
            }
        }
        assert(ds[0] == a[0]);
    }
}

proof fn lemma_val_digits_bounds(ds: Seq<char>, k: int)
    requires
        0 <= k <= ds.len(),
        forall|j: int| 0 <= j < ds.len() ==> is_digit_char(#[trigger] ds[j]),
    ensures
        0 <= val_digits(ds.take(k)) <= val_digits(ds),
    decreases ds.len(),
{
    if ds.len() == 0 {
        assert(ds.take(k) =~= ds);
    } else if k == ds.len() {
        assert(ds.take(k) =~= ds);
        lemma_val_digits_bounds(ds.drop_last(), ds.len() - 1);
        assert(ds.drop_last().take(ds.len() - 1) =~= ds.drop_last());
    } else {
        assert(ds.take(k) =~= ds.drop_last().take(k));
        lemma_val_digits_bounds(ds.drop_last(), k);
        assert(val_digits(ds) == val_digits(ds.drop_last()) * 10 + dval(ds.last()));
    }
}

// ------------------------------------------------------- parse: primitives

fn is_digit(c: char) -> (r: bool)
    ensures
        r == is_digit_char(c),
{
    let u = c as u32;
    48 <= u && u <= 57
}

fn digit_value(c: char) -> (d: u64)
    requires
        is_digit_char(c),
    ensures
        d as int == dval(c),
        d < 10,
{
    (c as u32 - 48) as u64
}

/// Checks that the exact text of `lit` stands in `s` at position `i`.
fn expect_lit(s: &str, n: usize, i: usize, lit: &str) -> (r: Option<usize>)
    requires
        n == s@.len(),
        i <= n,
    ensures
        r matches Some(j) ==> i <= j <= n && j == i + lit@.len() && follows(s@, i as int, lit@),
        follows(s@, i as int, lit@) ==> r == Some((i + lit@.len()) as usize),
{
    let ll = lit.unicode_len();
    if n - i < ll {
        return None;
    }
    let mut k: usize = 0;
    while k < ll
        invariant
            n == s@.len(),
            ll == lit@.len(),
            i + ll <= n,
            k <= ll,
            forall|q: int| 0 <= q < k ==> s@[i + q] == lit@[q],
        decreases ll - k,
    {
        let a = s.get_char(i + k);
        let b = lit.get_char(k);
        if a != b {
            proof {
                if follows(s@, i as int, lit@) {
                    assert(s@[i + k] == s@.subrange(i as int, i + lit@.len())[k as int]);
                }
            }
            return None;
        }
        k = k + 1;
    }
    proof {
        assert(s@.subrange(i as int, i + ll) =~= lit@);
    }
    Some(i + ll)
}

/// Reads a canonical decimal u64 (no sign, no leading zeros) at position `i`.
fn parse_u64(s: &str, n: usize, i: usize) -> (r: Option<(u64, usize)>)
    requires
        n == s@.len(),
        i <= n,
    ensures
        r matches Some(p) ==> i < p.1 <= n,
        forall|v: u64|
            #[trigger] follows(s@, i as int, spec_enc_u64(v)) && non_digit_at(
                s@,
                i + spec_enc_u64(v).len(),
            ) ==> r == Some((v, (i + spec_enc_u64(v).len()) as usize)),
{
    if i == n {
        proof {
            assert forall|v: u64|
                follows(s@, i as int, spec_enc_u64(v)) && non_digit_at(
                    s@,
                    i + spec_enc_u64(v).len(),
                ) implies false by {
                lemma_dec_digits_props(v as nat);
            }
        }
        return None;
    }
    let c0 = s.get_char(i);
    if !is_digit(c0) {
        proof {
            assert forall|v: u64|
                follows(s@, i as int, spec_enc_u64(v)) && non_digit_at(
                    s@,
                    i + spec_enc_u64(v).len(),
                ) implies false by {
                lemma_dec_digits_props(v as nat);
                assert(s@[i as int] == spec_enc_u64(v)[0]);
            }
        }
        return None;
    }
    if c0 == '0' {
        proof {
            assert forall|v: u64|
                follows(s@, i as int, spec_enc_u64(v)) && non_digit_at(
                    s@,
                    i + spec_enc_u64(v).len(),
                ) implies Some((0u64, (i + 1) as usize)) == Some::<(u64, usize)>(
                (v, (i + spec_enc_u64(v).len()) as usize),
            ) by {
                lemma_dec_digits_props(v as nat);
                assert(s@[i as int] == spec_enc_u64(v)[0]);
                assert(v == 0);
            }
        }
        return Some((0, i + 1));
    }
    let mut j: usize = i;
    let mut acc: u64 = 0;
    while j < n
        invariant
            n == s@.len(),
            i <= j <= n,
            is_digit_char(s@[i as int]),
            s@[i as int] != '0',
            forall|q: int| i <= q < j ==> is_digit_char(#[trigger] s@[q]),
            acc as int == val_digits(s@.subrange(i as int, j as int)),
        decreases n - j,
    {
        let c = s.get_char(j);
        if !is_digit(c) {
            proof {
                assert forall|v: u64|
                    follows(s@, i as int, spec_enc_u64(v)) && non_digit_at(
                        s@,
                        i + spec_enc_u64(v).len(),
                    ) implies Some((acc, j)) == Some::<(u64, usize)>(
                    (v, (i + spec_enc_u64(v).len()) as usize),
                ) by {
                    lemma_dec_digits_props(v as nat);
                    let ll = spec_enc_u64(v).len() as int;
                    assert forall|q: int| i <= q < i + ll implies is_digit_char(
                        #[trigger] s@[q],
                    ) by {
                        assert(s@[q] == spec_enc_u64(v)[q - i]);
                    }
                    assert(j == i + ll);
                    assert(s@.subrange(i as int, j as int) == spec_enc_u64(v));
                    assert(acc as int == v as int);
                }
            }
            return Some((acc, j));
        }
        let d = digit_value(c);
        if acc > (u64::MAX - d) / 10 {
            proof {
                vstd::arithmetic::div_mod::lemma_fundamental_div_mod(
                    (u64::MAX - d) as int,
                    10,
                );
                assert forall|v: u64|
                    follows(s@, i as int, spec_enc_u64(v)) && non_digit_at(
                        s@,
                        i + spec_enc_u64(v).len(),
                    ) implies false by {
                    lemma_dec_digits_props(v as nat);
                    let ll = spec_enc_u64(v).len() as int;
                    assert forall|q: int| i <= q < i + ll implies is_digit_char(
                        #[trigger] s@[q],
                    ) by {
                        assert(s@[q] == spec_enc_u64(v)[q - i]);
                    }
                    // the scan is still inside the digit run of v
                    assert(j + 1 <= i + ll);
                    let pre = s@.subrange(i as int, j + 1);
                    assert(pre =~= spec_enc_u64(v).take(j + 1 - i));
                    lemma_val_digits_bounds(spec_enc_u64(v), j + 1 - i);
                    assert(pre.drop_last() =~= s@.subrange(i as int, j as int));
                    assert(val_digits(pre) == acc as int * 10 + dval(s@[j as int]));
                    assert(val_digits(pre) > u64::MAX);
                }
            }
            return None;
        }
        acc = acc * 10 + d;
        j = j + 1;
        proof {
            assert(s@.subrange(i as int, j as int).drop_last() =~= s@.subrange(
                i as int,
                j - 1,
            ));
            assert(s@.subrange(i as int, j as int).last() == s@[j - 1]);
        }
    }
    proof {
        assert forall|v: u64|
            follows(s@, i as int, spec_enc_u64(v)) && non_digit_at(
                s@,
                i + spec_enc_u64(v).len(),
            ) implies Some((acc, j)) == Some::<(u64, usize)>(
            (v, (i + spec_enc_u64(v).len()) as usize),
        ) by {
            lemma_dec_digits_props(v as nat);
            let ll = spec_enc_u64(v).len() as int;
            assert forall|q: int| i <= q < i + ll implies is_digit_char(#[trigger] s@[q]) by {
                assert(s@[q] == spec_enc_u64(v)[q - i]);
            }
            assert(j == i + ll);
            assert(s@.subrange(i as int, j as int) == spec_enc_u64(v));
            assert(acc as int == v as int);
        }
    }
    Some((acc, j))
}

/// Reads a canonical decimal i32 (optional minus sign) at position `i`.
fn parse_i32(s: &str, n: usize, i: usize) -> (r: Option<(i32, usize)>)
    requires
        n == s@.len(),
        i <= n,
    ensures
        r matches Some(p) ==> i < p.1 <= n,
        forall|x: i32|
            #[trigger] follows(s@, i as int, spec_enc_i32(x)) && non_digit_at(
                s@,
                i + spec_enc_i32(x).len(),
            ) ==> r == Some((x, (i + spec_enc_i32(x).len()) as usize)),
{
    if i == n {
        proof {
            assert forall|x: i32|
                follows(s@, i as int, spec_enc_i32(x)) && non_digit_at(
                    s@,
                    i + spec_enc_i32(x).len(),
                ) implies false by {
                if x >= 0 {
                    lemma_dec_digits_props(x as nat);
                } else {
                    lemma_dec_digits_props((-(x as int)) as nat);
                }
            }
        }
        return None;
    }
    let c0 = s.get_char(i);
    if c0 == '-' {
        match parse_u64(s, n, i + 1) {
            Some((u, j)) => {
                if u == 0 || u > 2147483648 {
                    proof {
                        assert forall|x: i32|
                            follows(s@, i as int, spec_enc_i32(x)) && non_digit_at(
                                s@,
                                i + spec_enc_i32(x).len(),
                            ) implies false by {
                            lemma_neg_premise(s@, i as int, x, u, j as int);
                        }
                    }
                    return None;
                }
                let xr: i32 = (-(u as i64)) as i32;
                proof {
                    assert forall|x: i32|
                        follows(s@, i as int, spec_enc_i32(x)) && non_digit_at(
                            s@,
                            i + spec_enc_i32(x).len(),
                        ) implies Some((xr, j)) == Some::<(i32, usize)>(
                        (x, (i + spec_enc_i32(x).len()) as usize),
                    ) by {
                        lemma_neg_premise(s@, i as int, x, u, j as int);
                    }
                }
                Some((xr, j))
            },
            None => {
                proof {
                    assert forall|x: i32|
                        follows(s@, i as int, spec_enc_i32(x)) && non_digit_at(
                            s@,
                            i + spec_enc_i32(x).len(),
                        ) implies false by {
                        lemma_enc_i32_neg_shape(s@, i as int, x);
                        if x < 0 {
                            let v = (-(x as int)) as u64;
                            assert(follows(s@, i + 1, spec_enc_u64(v)));
                        }
                    }
                }
                None
            },
        }
    } else {
        match parse_u64(s, n, i) {
            Some((u, j)) => {
                if u > 2147483647 {
                    proof {
                        assert forall|x: i32|
                            follows(s@, i as int, spec_enc_i32(x)) && non_digit_at(
                                s@,
                                i + spec_enc_i32(x).len(),
                            ) implies false by {
                            lemma_pos_premise(s@, i as int, x, u, j as int, c0);
                        }
                    }
                    return None;
                }
                let xr: i32 = u as i32;
                proof {
                    assert forall|x: i32|
                        follows(s@, i as int, spec_enc_i32(x)) && non_digit_at(
                            s@,
                            i + spec_enc_i32(x).len(),
                        ) implies Some((xr, j)) == Some::<(i32, usize)>(
                        (x, (i + spec_enc_i32(x).len()) as usize),
                    ) by {
                        lemma_pos_premise(s@, i as int, x, u, j as int, c0);
                    }
                }
                Some((xr, j))
            },
            None => {
                proof {
                    assert forall|x: i32|
                        follows(s@, i as int, spec_enc_i32(x)) && non_digit_at(
                            s@,
                            i + spec_enc_i32(x).len(),
                        ) implies false by {
                        lemma_enc_i32_neg_shape(s@, i as int, x);
                        if x >= 0 {
                            assert(follows(s@, i as int, spec_enc_u64(x as u64)));
                        } else {
                            assert(s@[i as int] == '-');
                        }
                    }
                }
                None
            },
        }
    }
}

/// Shape facts of a signed encoding found at position `i`.
proof fn lemma_enc_i32_neg_shape(s: Seq<char>, i: int, x: i32)
    requires
        follows(s, i, spec_enc_i32(x)),
    ensures
        x < 0 ==> s[i] == '-' && follows(s, i + 1, dec_digits((-(x as int)) as nat))
            && spec_enc_i32(x).len() == 1 + dec_digits((-(x as int)) as nat).len(),
        x >= 0 ==> follows(s, i, spec_enc_u64(x as u64)) && !(s[i] == '-'),
{
    if x < 0 {
        let d = dec_digits((-(x as int)) as nat);
        assert(spec_enc_i32(x) == seq!['-'] + d);
        assert(s[i] == (seq!['-'] + d)[0]);
        assert(s.subrange(i + 1, i + 1 + d.len()) =~= d) by {
            assert forall|q: int| 0 <= q < d.len() implies s.subrange(
                i + 1,
                i + 1 + d.len(),
            )[q] == d[q] by {
                assert(s[i + 1 + q] == (seq!['-'] + d)[1 + q]);
            }
        }
    } else {
        lemma_dec_digits_props(x as nat);
        assert(spec_enc_i32(x) == spec_enc_u64(x as u64));
        assert(s[i] == spec_enc_u64(x as u64)[0]);
        assert(is_digit_char(s[i]));
    }
}

proof fn lemma_neg_premise(s: Seq<char>, i: int, x: i32, u: u64, j: int)
    requires
        follows(s, i, spec_enc_i32(x)),
        non_digit_at(s, i + spec_enc_i32(x).len()),
        s[i] == '-',
        forall|v: u64|
            #[trigger] follows(s, i + 1, spec_enc_u64(v)) && non_digit_at(
                s,
                i + 1 + spec_enc_u64(v).len(),
            ) ==> (u == v && j == i + 1 + spec_enc_u64(v).len()),
    ensures
        x < 0,
        1 <= u <= 2147483648,
        x as int == -(u as int),
        j == i + spec_enc_i32(x).len(),
{
    lemma_enc_i32_neg_shape(s, i, x);
    if x >= 0 {
        assert(is_digit_char('-')) by {
            assert(s[i] == '-');
        }
        assert(false);
    }
    let v = (-(x as int)) as u64;
    lemma_dec_digits_props(v as nat);
    assert(follows(s, i + 1, spec_enc_u64(v)));
    assert(u == v);
}

proof fn lemma_pos_premise(s: Seq<char>, i: int, x: i32, u: u64, j: int, c0: char)
    requires
        follows(s, i, spec_enc_i32(x)),
        non_digit_at(s, i + spec_enc_i32(x).len()),
        c0 == s[i],
        !(c0 == '-'),
        forall|v: u64|
            #[trigger] follows(s, i, spec_enc_u64(v)) && non_digit_at(
                s,
                i + spec_enc_u64(v).len(),
            ) ==> (u == v && j == i + spec_enc_u64(v).len()),
    ensures
        x >= 0,
        u <= 2147483647,
        x as int == u as int,
        j == i + spec_enc_i32(x).len(),
{
    lemma_enc_i32_neg_shape(s, i, x);
    if x < 0 {
        assert(false);
    }
    assert(follows(s, i, spec_enc_u64(x as u64)));
    assert(u == x as u64);
}

// --------------------------------------------------------- parse: strings

/// Characters that never stand raw inside an encoded string literal.
pub open spec fn is_special(c: char) -> bool {
    c == '"' || c == '\\' || c == '\n' || c == '\r' || c == '\t'
}

proof fn lemma_follows_split(s: Seq<char>, i: int, a: Seq<char>, b: Seq<char>)
    requires
        follows(s, i, a + b),
    ensures
        follows(s, i, a),
        follows(s, i + a.len(), b),
{
    let w = a + b;
    assert(s.subrange(i, i + a.len()) =~= a) by {
        assert forall|q: int| 0 <= q < a.len() implies s.subrange(i, i + a.len())[q] == a[q] by {
            assert(s[i + q] == s.subrange(i, i + w.len())[q]);
        }
    }
    assert(s.subrange(i + a.len(), i + a.len() + b.len()) =~= b) by {
        assert forall|q: int| 0 <= q < b.len() implies s.subrange(
            i + a.len(),
            i + a.len() + b.len(),
        )[q] == b[q] by {
            assert(s[i + a.len() + q] == s.subrange(i, i + w.len())[a.len() + q]);
        }
    }
}

proof fn lemma_escape_append(a: Seq<char>, b: Seq<char>)
    ensures
        spec_escape(a + b) == spec_escape(a) + spec_escape(b),
    decreases a.len(),
{
    if a.len() == 0 {
        assert(a + b =~= b);
        assert(spec_escape(a) + spec_escape(b) =~= spec_escape(b));
    } else {
        assert((a + b)[0] == a[0]);
        assert((a + b).skip(1) =~= a.skip(1) + b);
        lemma_escape_append(a.skip(1), b);
        assert(spec_escape(a + b) =~= spec_escape(a) + spec_escape(b));
    }
}

/// Aligns a partial unescape against the encoding of `t`: either the whole
/// string has been read, or the next characters are the escape of `t`'s
/// next character.
proof fn lemma_escape_align(a: Seq<char>, t: Seq<char>, s: Seq<char>, base: int, j: int)
    requires
        0 <= base <= j <= s.len(),
        s.subrange(base, j) == spec_escape(a),
        follows(s, base, spec_escape(t) + seq!['"']),
    ensures
        (a == t && j == base + spec_escape(t).len()) || (a.len() < t.len() && a == t.take(
            a.len() as int,
        ) && follows(s, j, esc_char(t[a.len() as int]))),
    decreases a.len(),
{
    if a.len() == 0 {
        assert(j == base);
        if t.len() == 0 {
            assert(a =~= t);
        } else {
            assert(spec_escape(t) + seq!['"'] =~= esc_char(t[0]) + (spec_escape(t.skip(1))
                + seq!['"']));
            lemma_follows_split(s, base, esc_char(t[0]), spec_escape(t.skip(1)) + seq!['"']);
            assert(a =~= t.take(0));
        }
    } else {
        let e0 = esc_char(a[0]);
        assert(spec_escape(a) == e0 + spec_escape(a.skip(1)));
        assert(j - base == spec_escape(a).len());
        assert(s[base] == spec_escape(a)[0]);
        assert(spec_escape(a)[0] == e0[0]);
        if t.len() == 0 {
            assert(s[base] == (spec_escape(t) + seq!['"'])[0]);
            assert(s[base] == '"');
            assert(false);
        }
        assert(spec_escape(t) + seq!['"'] =~= esc_char(t[0]) + (spec_escape(t.skip(1))
            + seq!['"']));
        lemma_follows_split(s, base, esc_char(t[0]), spec_escape(t.skip(1)) + seq!['"']);
        assert(s[base] == esc_char(t[0])[0]);
        if is_special(a[0]) {
            assert(s[base] == '\\');
            assert(is_special(t[0]));
            assert(s[base + 1] == spec_escape(a)[1]);
            assert(spec_escape(a)[1] == e0[1]);
            assert(s[base + 1] == esc_char(t[0])[1]);
            assert(a[0] == t[0]);
        } else {
            assert(e0[0] == a[0]);
            if is_special(t[0]) {
                assert(s[base] == '\\');
                assert(a[0] == '\\');
                assert(false);
            }
            assert(a[0] == t[0]);
        }
        let step = e0.len();
        assert(s.subrange(base + step, j) =~= spec_escape(a.skip(1))) by {
            assert forall|q: int| 0 <= q < j - base - step implies s.subrange(
                base + step,
                j,
            )[q] == spec_escape(a.skip(1))[q] by {
                assert(s[base + step + q] == s.subrange(base, j)[step + q]);
                assert(spec_escape(a)[step + q] == spec_escape(a.skip(1))[q]);
            }
        }
        lemma_escape_align(a.skip(1), t.skip(1), s, base + step, j);
        if a.skip(1) == t.skip(1) && j == base + step + spec_escape(t.skip(1)).len() {
            assert(a.len() == t.len());
            assert(a =~= t) by {
                assert forall|q: int| 0 <= q < a.len() implies a[q] == t[q] by {
                    if q > 0 {
                        assert(a[q] == a.skip(1)[q - 1]);
                        assert(t[q] == t.skip(1)[q - 1]);
                    }
                }
            }
            assert(spec_escape(t).len() == esc_char(t[0]).len() + spec_escape(t.skip(1)).len());
        } else {
            assert(a.skip(1) == t.skip(1).take(a.len() - 1));
            assert(a =~= t.take(a.len() as int)) by {
                assert forall|q: int| 0 <= q < a.len() implies a[q] == t.take(
                    a.len() as int,
                )[q] by {
                    if q > 0 {
                        assert(a[q] == a.skip(1)[q - 1]);
                        assert(t.skip(1).take(a.len() - 1)[q - 1] == t[q]);
                    }
                }
            }
            assert(t.skip(1)[a.len() - 1] == t[a.len() as int]);
        }
    }
}

/// Reads a canonical JSON string literal at position `i`, unescaping it.
fn parse_string(s: &str, n: usize, i: usize) -> (r: Option<(String, usize)>)
    requires
        n == s@.len(),
        i <= n,
    ensures
        r matches Some(p) ==> i < p.1 <= n,
        forall|t: Seq<char>|
            #[trigger] follows(s@, i as int, spec_enc_str(t)) ==> (r matches Some(p) && p.0@ == t
                && p.1 == i + spec_enc_str(t).len()),
{
    if i == n {
        proof {
            assert forall|t: Seq<char>| follows(s@, i as int, spec_enc_str(t)) implies false by {
                assert(spec_enc_str(t).len() >= 2);
            }
        }
        return None;
    }
    let c0 = s.get_char(i);
    if c0 != '"' {
        proof {
            assert forall|t: Seq<char>| follows(s@, i as int, spec_enc_str(t)) implies false by {
                assert(s@[i as int] == spec_enc_str(t)[0]);
            }
        }
        return None;
    }
    let mut out = String::new();
    let mut j: usize = i + 1;
    while j < n
        invariant
            n == s@.len(),
            i + 1 <= j <= n,
            s@.subrange(i + 1, j as int) == spec_escape(out@),
        decreases n - j,
    {
        let c = s.get_char(j);
        if c == '"' {
            proof {
                assert forall|t: Seq<char>| follows(s@, i as int, spec_enc_str(t)) implies (out@
                    == t && j + 1 == i + spec_enc_str(t).len()) by {
                    assert(spec_enc_str(t) =~= seq!['"'] + (spec_escape(t) + seq!['"']));
                    lemma_follows_split(s@, i as int, seq!['"'], spec_escape(t) + seq!['"']);
                    lemma_escape_align(out@, t, s@, i + 1, j as int);
                    if out@.len() < t.len() {
                        assert(s@[j as int] == esc_char(t[out@.len() as int])[0]);
                        assert(!is_special(t[out@.len() as int]));
                        assert(false);
                    }
                }
            }
            return Some((out, j + 1));
        } else if c == '\\' {
            if j + 1 == n {
                proof {
                    assert forall|t: Seq<char>|
                        follows(s@, i as int, spec_enc_str(t)) implies false by {
                        assert(spec_enc_str(t) =~= seq!['"'] + (spec_escape(t) + seq!['"']));
                        lemma_follows_split(s@, i as int, seq!['"'], spec_escape(t) + seq!['"']);
                        lemma_escape_align(out@, t, s@, i + 1, j as int);
                        if out@.len() < t.len() {
                            assert(s@[j as int] == esc_char(t[out@.len() as int])[0]);
                            assert(is_special(t[out@.len() as int]));
                            assert(esc_char(t[out@.len() as int]).len() == 2);
                            assert(j + 2 <= s@.len());
                        } else {
                            assert(s@[j as int] == (spec_escape(t) + seq!['"'])[spec_escape(
                                t,
                            ).len() as int]);
                        }
                    }
                }
                return None;
            }
            let c2 = s.get_char(j + 1);
            let mc: char;
            if c2 == '"' {
                mc = '"';
            } else if c2 == '\\' {
                mc = '\\';
            } else if c2 == 'n' {
                mc = '\n';
            } else if c2 == 'r' {
                mc = '\r';
            } else if c2 == 't' {
                mc = '\t';
            } else {
                proof {
                    assert forall|t: Seq<char>|
                        follows(s@, i as int, spec_enc_str(t)) implies false by {
                        assert(spec_enc_str(t) =~= seq!['"'] + (spec_escape(t) + seq!['"']));
                        lemma_follows_split(s@, i as int, seq!['"'], spec_escape(t) + seq!['"']);
                        lemma_escape_align(out@, t, s@, i + 1, j as int);
                        if out@.len() < t.len() {
                            let e = esc_char(t[out@.len() as int]);
                            assert(s@[j as int] == e[0]);
                            assert(is_special(t[out@.len() as int]));
                            assert(e.len() == 2);
                            assert(s@[j + 1] == s@.subrange(j as int, j + e.len())[1]);
                            assert(s@[j + 1] == e[1]);
                        } else {
                            assert(s@[j as int] == (spec_escape(t) + seq!['"'])[spec_escape(
                                t,
                            ).len() as int]);
                        }
                    }
                }
                return None;
            }
            let ghost old_out = out@;
            push_char(&mut out, mc);
            j = j + 2;
            proof {
                lemma_escape_append(old_out, seq![mc]);
                assert(seq![mc].skip(1) =~= Seq::<char>::empty());
                assert(seq![mc][0] == mc);
                assert(spec_escape(seq![mc]) == esc_char(seq![mc][0]) + spec_escape(
                    seq![mc].skip(1),
                ));
                assert(spec_escape(Seq::<char>::empty()) == Seq::<char>::empty());
                assert(spec_escape(seq![mc]) =~= esc_char(mc));
                assert(esc_char(mc) =~= seq!['\\', c2]);
                assert(s@.subrange(i + 1, j as int) =~= spec_escape(old_out) + seq![
                    '\\',
                    c2,
                ]) by {
                    assert(s@[j - 2] == '\\');
                    assert(s@[j - 1] == c2);
                    assert forall|q: int| 0 <= q < j - i - 1 implies s@.subrange(
                        i + 1,
                        j as int,
                    )[q] == (spec_escape(old_out) + seq!['\\', c2])[q] by {
                        if q < j - i - 3 {
                            assert(s@.subrange(i + 1, j - 2)[q] == spec_escape(old_out)[q]);
                        }
                    }
                }
                assert(out@ =~= old_out + seq![mc]);
            }
        } else if c == '\n' || c == '\r' || c == '\t' {
            proof {
                assert forall|t: Seq<char>|
                    follows(s@, i as int, spec_enc_str(t)) implies false by {
                    assert(spec_enc_str(t) =~= seq!['"'] + (spec_escape(t) + seq!['"']));
                    lemma_follows_split(s@, i as int, seq!['"'], spec_escape(t) + seq!['"']);
                    lemma_escape_align(out@, t, s@, i + 1, j as int);
                    if out@.len() < t.len() {
                        assert(s@[j as int] == esc_char(t[out@.len() as int])[0]);
                    } else {
                        assert(s@[j as int] == (spec_escape(t) + seq!['"'])[spec_escape(
                            t,
                        ).len() as int]);
                    }
                }
            }
            return None;
        } else {
            let ghost old_out = out@;
            push_char(&mut out, c);
            j = j + 1;
            proof {
                lemma_escape_append(old_out, seq![c]);
                assert(seq![c].skip(1) =~= Seq::<char>::empty());
                assert(seq![c][0] == c);
                assert(spec_escape(seq![c]) == esc_char(seq![c][0]) + spec_escape(
                    seq![c].skip(1),
                ));
                assert(spec_escape(Seq::<char>::empty()) == Seq::<char>::empty());
                assert(spec_escape(seq![c]) =~= esc_char(c));
                assert(esc_char(c) =~= seq![c]);
                assert(s@.subrange(i + 1, j as int) =~= spec_escape(old_out) + seq![c]) by {
                    assert(s@[j - 1] == c);
                    assert forall|q: int| 0 <= q < j - i - 1 implies s@.subrange(
                        i + 1,
                        j as int,
                    )[q] == (spec_escape(old_out) + seq![c])[q] by {
                        if q < j - i - 2 {
                            assert(s@.subrange(i + 1, j - 1)[q] == spec_escape(old_out)[q]);
                        }
                    }
                }
                assert(out@ =~= old_out + seq![c]);
            }
        }
    }
    proof {
        assert forall|t: Seq<char>| follows(s@, i as int, spec_enc_str(t)) implies false by {
            assert(spec_enc_str(t) =~= seq!['"'] + (spec_escape(t) + seq!['"']));
            lemma_follows_split(s@, i as int, seq!['"'], spec_escape(t) + seq!['"']);
            lemma_escape_align(out@, t, s@, i + 1, j as int);
            assert(spec_enc_str(t).len() == 2 + spec_escape(t).len());
            if out@.len() < t.len() {
                assert(follows(s@, j as int, esc_char(t[out@.len() as int])));
                assert(esc_char(t[out@.len() as int]).len() >= 1);
            } else {
                assert(j == i + 1 + spec_escape(t).len());
                assert(i + spec_enc_str(t).len() <= s@.len());
            }
        }
    }
    None
}

// ------------------------------------------------------ parse: composites

proof fn lemma_follows_char(s: Seq<char>, i: int, t: Seq<char>, q: int)
    requires
        follows(s, i, t),
        0 <= q < t.len(),
    ensures
        s[i + q] == t[q],
{
    assert(s[i + q] == s.subrange(i, i + t.len())[q]);
}

/// Reads `null` or a canonical u64 at position `i`.
fn parse_opt_u64(s: &str, n: usize, i: usize) -> (r: Option<(Option<u64>, usize)>)
    requires
        n == s@.len(),
        i <= n,
    ensures
        r matches Some(p) ==> i < p.1 <= n,
        forall|o: Option<u64>|
            #[trigger] follows(s@, i as int, spec_enc_opt_u64(o)) && non_digit_at(
                s@,
                i + spec_enc_opt_u64(o).len(),
            ) ==> (r matches Some(p) && p.0 == o && p.1 == i + spec_enc_opt_u64(o).len()),
{
    match expect_lit(s, n, i, "null") {
        Some(j) => {
            proof {
                reveal_strlit("null");
                assert forall|o: Option<u64>|
                    #[trigger] follows(s@, i as int, spec_enc_opt_u64(o)) && non_digit_at(
                        s@,
                        i + spec_enc_opt_u64(o).len(),
                    ) implies (p_opt_u64(Some((None, j)), o, i as int)) by {
                    match o {
                        Some(v) => {
                            lemma_dec_digits_props(v as nat);
                            lemma_follows_char(s@, i as int, spec_enc_opt_u64(o), 0);
                            lemma_follows_char(s@, i as int, "null"@, 0);
                            assert(is_digit_char('n'));
                        },
                        None => {},
                    }
                }
            }
            Some((None, j))
        },
        None => {
            match parse_u64(s, n, i) {
                Some((v, j)) => {
                    proof {
                        reveal_strlit("null");
                        assert forall|o: Option<u64>|
                            #[trigger] follows(s@, i as int, spec_enc_opt_u64(o)) && non_digit_at(
                                s@,
                                i + spec_enc_opt_u64(o).len(),
                            ) implies (p_opt_u64(Some((Some(v), j)), o, i as int)) by {
                            match o {
                                None => {
                                    assert(follows(s@, i as int, "null"@));
                                },
                                Some(w) => {
                                    assert(follows(s@, i as int, spec_enc_u64(w)));
                                    assert(non_digit_at(s@, i + spec_enc_u64(w).len()));
                                },
                            }
                        }
                    }
                    Some((Some(v), j))
                },
                None => {
                    proof {
                        reveal_strlit("null");
                        assert forall|o: Option<u64>|
                            #[trigger] follows(s@, i as int, spec_enc_opt_u64(o)) && non_digit_at(
                                s@,
                                i + spec_enc_opt_u64(o).len(),
                            ) implies false by {
                            match o {
                                None => {
                                    assert(follows(s@, i as int, "null"@));
                                },
                                Some(w) => {
                                    assert(follows(s@, i as int, spec_enc_u64(w)));
                                    assert(non_digit_at(s@, i + spec_enc_u64(w).len()));
                                },
                            }
                        }
                    }
                    None
                },
            }
        },
    }
}

/// Conclusion shape shared by the optional-u64 proofs.
spec fn p_opt_u64(r: Option<(Option<u64>, usize)>, o: Option<u64>, i: int) -> bool {
    r matches Some(p) && p.0 == o && p.1 == i + spec_enc_opt_u64(o).len()
}

/// Reads `null` or a canonical u8 at position `i`.
fn parse_opt_u8(s: &str, n: usize, i: usize) -> (r: Option<(Option<u8>, usize)>)
    requires
        n == s@.len(),
        i <= n,
    ensures
        r matches Some(p) ==> i < p.1 <= n,
        forall|o: Option<u8>|
            #[trigger] follows(s@, i as int, spec_enc_opt_u8(o)) && non_digit_at(
                s@,
                i + spec_enc_opt_u8(o).len(),
            ) ==> (r matches Some(p) && p.0 == o && p.1 == i + spec_enc_opt_u8(o).len()),
{
    match parse_opt_u64(s, n, i) {
        Some((None, j)) => {
            proof {
                assert forall|o: Option<u8>|
                    #[trigger] follows(s@, i as int, spec_enc_opt_u8(o)) && non_digit_at(
                        s@,
                        i + spec_enc_opt_u8(o).len(),
                    ) implies (o matches None && j == i + spec_enc_opt_u8(o).len()) by {
                    lemma_opt_u8_as_u64(s@, i as int, o);
                }
            }
            Some((None, j))
        },
        Some((Some(v), j)) => {
            if v > 255 {
                proof {
                    assert forall|o: Option<u8>|
                        #[trigger] follows(s@, i as int, spec_enc_opt_u8(o)) && non_digit_at(
                            s@,
                            i + spec_enc_opt_u8(o).len(),
                        ) implies false by {
                        lemma_opt_u8_as_u64(s@, i as int, o);
                    }
                }
                return None;
            }
            let b: u8 = v as u8;
            proof {
                assert forall|o: Option<u8>|
                    #[trigger] follows(s@, i as int, spec_enc_opt_u8(o)) && non_digit_at(
                        s@,
                        i + spec_enc_opt_u8(o).len(),
                    ) implies (o == Some(b) && j == i + spec_enc_opt_u8(o).len()) by {
                    lemma_opt_u8_as_u64(s@, i as int, o);
                }
            }
            Some((Some(b), j))
        },
        None => {
            proof {
                assert forall|o: Option<u8>|
                    #[trigger] follows(s@, i as int, spec_enc_opt_u8(o)) && non_digit_at(
                        s@,
                        i + spec_enc_opt_u8(o).len(),
                    ) implies false by {
                    lemma_opt_u8_as_u64(s@, i as int, o);
                }
            }
            None
        },
    }
}

/// An optional u8 encodes exactly as the same optional value widened to u64.
proof fn lemma_opt_u8_as_u64(s: Seq<char>, i: int, o: Option<u8>)
    ensures
        spec_enc_opt_u8(o) == spec_enc_opt_u64(match o {
            None => None,
            Some(v) => Some(v as u64),
        }),
{
    match o {
        Some(v) => {
            assert(v as nat == (v as u64) as nat);
        },
        None => {},
    }
}

/// Reads `null` or a canonical string literal at position `i`.
fn parse_opt_str(s: &str, n: usize, i: usize) -> (r: Option<(Option<String>, usize)>)
    requires
        n == s@.len(),
        i <= n,
    ensures
        r matches Some(p) ==> i < p.1 <= n,
        forall|o: Option<String>|
            #[trigger] follows(s@, i as int, spec_enc_opt_str(o)) ==> (r matches Some(p)
                && crate::schema::opt_str_eqv(p.0, o) && p.1 == i + spec_enc_opt_str(o).len()),
{
    match expect_lit(s, n, i, "null") {
        Some(j) => {
            proof {
                reveal_strlit("null");
                assert forall|o: Option<String>|
                    #[trigger] follows(s@, i as int, spec_enc_opt_str(o)) implies (crate::schema::opt_str_eqv(
                    None,
                    o,
                ) && j == i + spec_enc_opt_str(o).len()) by {
                    match o {
                        Some(t) => {
                            lemma_follows_char(s@, i as int, spec_enc_str(t@), 0);
                            lemma_follows_char(s@, i as int, "null"@, 0);
                        },
                        None => {},
                    }
                }
            }
            Some((None, j))
        },
        None => {
            match parse_string(s, n, i) {
                Some((t, j)) => {
                    proof {
                        reveal_strlit("null");
                        assert forall|o: Option<String>|
                            #[trigger] follows(s@, i as int, spec_enc_opt_str(o)) implies (
                        crate::schema::opt_str_eqv(Some(t), o) && j == i + spec_enc_opt_str(
                            o,
                        ).len()) by {
                            match o {
                                None => {
                                    assert(follows(s@, i as int, "null"@));
                                },
                                Some(w) => {
                                    assert(follows(s@, i as int, spec_enc_str(w@)));
                                },
                            }
                        }
                    }
                    Some((Some(t), j))
                },
                None => {
                    proof {
                        reveal_strlit("null");
                        assert forall|o: Option<String>|
                            #[trigger] follows(s@, i as int, spec_enc_opt_str(o)) implies false by {
                            match o {
                                None => {
                                    assert(follows(s@, i as int, "null"@));
                                },
                                Some(w) => {
                                    assert(follows(s@, i as int, spec_enc_str(w@)));
                                },
                            }
                        }
                    }
                    None
                },
            }
        },
    }
}

/// Reads a two-element coordinate array at position `i`.
fn parse_pos(s: &str, n: usize, i: usize) -> (r: Option<([i32; 2], usize)>)
    requires
        n == s@.len(),
        i <= n,
    ensures
        r matches Some(p) ==> i < p.1 <= n,
        forall|p2: [i32; 2]|
            #[trigger] follows(s@, i as int, spec_enc_pos(p2)) ==> (r matches Some(p) && p.0@
                == p2@ && p.1 == i + spec_enc_pos(p2).len()),
{
    let j0 = match expect_lit(s, n, i, "[") {
        Some(j) => j,
        None => {
            proof {
                assert forall|p2: [i32; 2]| #[trigger] follows(s@, i as int, spec_enc_pos(p2)) implies false by {
                    lemma_pos_pieces(s@, i as int, p2);
                    reveal_strlit("[");
                    assert("["@ =~= seq!['[']);
                }
            }
            return None;
        },
    };
    let (x, j1) = match parse_i32(s, n, j0) {
        Some(p) => p,
        None => {
            proof {
                assert forall|p2: [i32; 2]| #[trigger] follows(s@, i as int, spec_enc_pos(p2)) implies false by {
                    lemma_pos_pieces(s@, i as int, p2);
                    reveal_strlit("[");
                }
            }
            return None;
        },
    };
    let j2 = match expect_lit(s, n, j1, ",") {
        Some(j) => j,
        None => {
            proof {
                assert forall|p2: [i32; 2]| #[trigger] follows(s@, i as int, spec_enc_pos(p2)) implies false by {
                    lemma_pos_pieces(s@, i as int, p2);
                    reveal_strlit("[");
                    reveal_strlit(",");
                    assert(","@ =~= seq![',']);
                }
            }
            return None;
        },
    };
    let (y, j3) = match parse_i32(s, n, j2) {
        Some(p) => p,
        None => {
            proof {
                assert forall|p2: [i32; 2]| #[trigger] follows(s@, i as int, spec_enc_pos(p2)) implies false by {
                    lemma_pos_pieces(s@, i as int, p2);
                    reveal_strlit("[");
                    reveal_strlit(",");
                    assert(","@ =~= seq![',']);
                }
            }
            return None;
        },
    };
    let j4 = match expect_lit(s, n, j3, "]") {
        Some(j) => j,
        None => {
            proof {
                assert forall|p2: [i32; 2]| #[trigger] follows(s@, i as int, spec_enc_pos(p2)) implies false by {
                    lemma_pos_pieces(s@, i as int, p2);
                    reveal_strlit("[");
                    reveal_strlit(",");
                    assert(","@ =~= seq![',']);
                    reveal_strlit("]");
                    assert("]"@ =~= seq![']']);
                }
            }
            return None;
        },
    };
    let out: [i32; 2] = [x, y];
    proof {
        assert forall|p2: [i32; 2]| #[trigger] follows(s@, i as int, spec_enc_pos(p2)) implies (out@ == p2@ && j4 == i + spec_enc_pos(
            p2,
        ).len()) by {
            lemma_pos_pieces(s@, i as int, p2);
            reveal_strlit("[");
            reveal_strlit(",");
            assert(","@ =~= seq![',']);
            reveal_strlit("]");
            assert("]"@ =~= seq![']']);
            assert(out@ =~= p2@);
        }
    }
    Some((out, j4))
}

/// Piece positions and digit boundaries of an encoded coordinate pair.
proof fn lemma_pos_pieces(s: Seq<char>, i: int, p: [i32; 2])
    requires
        follows(s, i, spec_enc_pos(p)),
    ensures
        follows(s, i, seq!['[']),
        follows(s, i + 1, spec_enc_i32(p@[0])),
        non_digit_at(s, i + 1 + spec_enc_i32(p@[0]).len()),
        follows(s, i + 1 + spec_enc_i32(p@[0]).len(), seq![',']),
        follows(s, i + 2 + spec_enc_i32(p@[0]).len(), spec_enc_i32(p@[1])),
        non_digit_at(s, i + 2 + spec_enc_i32(p@[0]).len() + spec_enc_i32(p@[1]).len()),
        follows(s, i + 2 + spec_enc_i32(p@[0]).len() + spec_enc_i32(p@[1]).len(), seq![']']),
        spec_enc_pos(p).len() == 3 + spec_enc_i32(p@[0]).len() + spec_enc_i32(p@[1]).len(),
{
    let a = seq!['['];
    let e1 = spec_enc_i32(p@[0]);
    let c = seq![','];
    let e2 = spec_enc_i32(p@[1]);
    let d = seq![']'];
    lemma_follows_split(s, i, a + e1 + c + e2, d);
    lemma_follows_split(s, i, a + e1 + c, e2);
    lemma_follows_split(s, i, a + e1, c);
    lemma_follows_split(s, i, a, e1);
    lemma_follows_char(s, i + 1 + e1.len(), c, 0);
    assert(!is_digit_char(','));
    lemma_follows_char(s, i + 2 + e1.len() + e2.len(), d, 0);
    assert(!is_digit_char(']'));
}

// ------------------------------------------------- parse: generic splits

proof fn lemma_three_pieces(s: Seq<char>, i: int, a: Seq<char>, b: Seq<char>, c: Seq<char>)
    requires
        follows(s, i, a + b + c),
    ensures
        follows(s, i, a),
        follows(s, i + a.len(), b),
        follows(s, i + a.len() + b.len(), c),
{
    lemma_follows_split(s, i, a + b, c);
    lemma_follows_split(s, i, a, b);
}

proof fn lemma_five_pieces(
    s: Seq<char>,
    i: int,
    a: Seq<char>,
    b: Seq<char>,
    c: Seq<char>,
    d: Seq<char>,
    e: Seq<char>,
)
    requires
        follows(s, i, a + b + c + d + e),
    ensures
        follows(s, i, a),
        follows(s, i + a.len(), b),
        follows(s, i + a.len() + b.len(), c),
        follows(s, i + a.len() + b.len() + c.len(), d),
        follows(s, i + a.len() + b.len() + c.len() + d.len(), e),
{
    lemma_follows_split(s, i, a + b + c + d, e);
    lemma_follows_split(s, i, a + b + c, d);
    lemma_follows_split(s, i, a + b, c);
    lemma_follows_split(s, i, a, b);
}

proof fn lemma_seven_pieces(
    s: Seq<char>,
    i: int,
    a: Seq<char>,
    b: Seq<char>,
    c: Seq<char>,
    d: Seq<char>,
    e: Seq<char>,
    f: Seq<char>,
    g: Seq<char>,
)
    requires
        follows(s, i, a + b + c + d + e + f + g),
    ensures
        follows(s, i, a),
        follows(s, i + a.len(), b),
        follows(s, i + a.len() + b.len(), c),
        follows(s, i + a.len() + b.len() + c.len(), d),
        follows(s, i + a.len() + b.len() + c.len() + d.len(), e),
        follows(s, i + a.len() + b.len() + c.len() + d.len() + e.len(), f),
        follows(s, i + a.len() + b.len() + c.len() + d.len() + e.len() + f.len(), g),
{
    lemma_follows_split(s, i, a + b + c + d + e + f, g);
    lemma_follows_split(s, i, a + b + c + d + e, f);
    lemma_five_pieces(s, i, a, b, c, d, e);
}

// ---------------------------------------------------------- parse: intent

/// Tag character of an encoded intent: the command names start at offset 8.
proof fn lemma_intent_tag(s: Seq<char>, i: int, d: Intent)
    requires
        follows(s, i, spec_enc_intent(d)),
    ensures
        (d matches Intent::MoveTo { .. }) <==> s[i + 8] == 'm',
        (d matches Intent::UsePotion { .. }) <==> s[i + 8] == 'u',
        (d matches Intent::Say { .. }) <==> (s[i + 8] == 's' && s[i + 9] == 'a'),
        (d matches Intent::Stop { .. }) <==> (s[i + 8] == 's' && s[i + 9] == 't'),
{
    reveal_strlit("{\"cmd\":\"move_to\",\"x\":");
    reveal_strlit("{\"cmd\":\"use_potion\",\"slot\":");
    reveal_strlit("{\"cmd\":\"say\",\"text\":");
    reveal_strlit("{\"cmd\":\"stop\"}");
    match d {
        Intent::MoveTo { x, y, target_tick } => {
            lemma_seven_pieces(
                s,
                i,
                "{\"cmd\":\"move_to\",\"x\":"@,
                spec_enc_i32(x),
                ",\"y\":"@,
                spec_enc_i32(y),
                ",\"targetTick\":"@,
                spec_enc_opt_u64(target_tick),
                "}"@,
            );
            lemma_follows_char(s, i, "{\"cmd\":\"move_to\",\"x\":"@, 8);
            lemma_follows_char(s, i, "{\"cmd\":\"move_to\",\"x\":"@, 9);
        },
        Intent::UsePotion { slot } => {
            lemma_three_pieces(
                s,
                i,
                "{\"cmd\":\"use_potion\",\"slot\":"@,
                spec_enc_opt_u8(slot),
                "}"@,
            );
            lemma_follows_char(s, i, "{\"cmd\":\"use_potion\",\"slot\":"@, 8);
            lemma_follows_char(s, i, "{\"cmd\":\"use_potion\",\"slot\":"@, 9);
        },
        Intent::Say { text } => {
            lemma_three_pieces(s, i, "{\"cmd\":\"say\",\"text\":"@, spec_enc_str(text@), "}"@);
            lemma_follows_char(s, i, "{\"cmd\":\"say\",\"text\":"@, 8);
            lemma_follows_char(s, i, "{\"cmd\":\"say\",\"text\":"@, 9);
        },
        Intent::Stop {  } => {
            lemma_follows_char(s, i, "{\"cmd\":\"stop\"}"@, 8);
            lemma_follows_char(s, i, "{\"cmd\":\"stop\"}"@, 9);
        },
    }
}

/// Piece positions and digit boundaries of an encoded movement intent.
proof fn lemma_move_pieces(s: Seq<char>, i: int, x: i32, y: i32, tt: Option<u64>)
    requires
        follows(
            s,
            i,
            spec_enc_intent(Intent::MoveTo { x: x, y: y, target_tick: tt }),
        ),
    ensures
        follows(s, i, "{\"cmd\":\"move_to\",\"x\":"@),
        follows(s, i + "{\"cmd\":\"move_to\",\"x\":"@.len(), spec_enc_i32(x)),
        non_digit_at(s, i + "{\"cmd\":\"move_to\",\"x\":"@.len() as int + spec_enc_i32(x).len()),
        follows(
            s,
            i + "{\"cmd\":\"move_to\",\"x\":"@.len() as int + spec_enc_i32(x).len(),
            ",\"y\":"@,
        ),
        follows(
            s,
            i + "{\"cmd\":\"move_to\",\"x\":"@.len() as int + spec_enc_i32(x).len() + ",\"y\":"@.len(),
            spec_enc_i32(y),
        ),
        non_digit_at(
            s,
            i + "{\"cmd\":\"move_to\",\"x\":"@.len() as int + spec_enc_i32(x).len() + ",\"y\":"@.len() as int
                + spec_enc_i32(y).len(),
        ),
        follows(
            s,
            i + "{\"cmd\":\"move_to\",\"x\":"@.len() as int + spec_enc_i32(x).len() + ",\"y\":"@.len() as int
                + spec_enc_i32(y).len(),
            ",\"targetTick\":"@,
        ),
        follows(
            s,
            i + "{\"cmd\":\"move_to\",\"x\":"@.len() as int + spec_enc_i32(x).len() + ",\"y\":"@.len() as int
                + spec_enc_i32(y).len() + ",\"targetTick\":"@.len(),
            spec_enc_opt_u64(tt),
        ),
        non_digit_at(
            s,
            i + "{\"cmd\":\"move_to\",\"x\":"@.len() as int + spec_enc_i32(x).len() + ",\"y\":"@.len() as int
                + spec_enc_i32(y).len() + ",\"targetTick\":"@.len() as int + spec_enc_opt_u64(tt).len(),
        ),
        follows(
            s,
            i + "{\"cmd\":\"move_to\",\"x\":"@.len() as int + spec_enc_i32(x).len() + ",\"y\":"@.len() as int
                + spec_enc_i32(y).len() + ",\"targetTick\":"@.len() as int + spec_enc_opt_u64(tt).len(),
            "}"@,
        ),
        spec_enc_intent(Intent::MoveTo { x: x, y: y, target_tick: tt }).len()
            == "{\"cmd\":\"move_to\",\"x\":"@.len() as int + spec_enc_i32(x).len() + ",\"y\":"@.len() as int
            + spec_enc_i32(y).len() + ",\"targetTick\":"@.len() as int + spec_enc_opt_u64(tt).len() + 1,
{
    lemma_seven_pieces(
        s,
        i,
        "{\"cmd\":\"move_to\",\"x\":"@,
        spec_enc_i32(x),
        ",\"y\":"@,
        spec_enc_i32(y),
        ",\"targetTick\":"@,
        spec_enc_opt_u64(tt),
        "}"@,
    );
    reveal_strlit(",\"y\":");
    reveal_strlit(",\"targetTick\":");
    reveal_strlit("}");
    lemma_follows_char(
        s,
        i + "{\"cmd\":\"move_to\",\"x\":"@.len() as int + spec_enc_i32(x).len(),
        ",\"y\":"@,
        0,
    );
    lemma_follows_char(
        s,
        i + "{\"cmd\":\"move_to\",\"x\":"@.len() as int + spec_enc_i32(x).len() + ",\"y\":"@.len() as int
            + spec_enc_i32(y).len(),
        ",\"targetTick\":"@,
        0,
    );
    lemma_follows_char(
        s,
        i + "{\"cmd\":\"move_to\",\"x\":"@.len() as int + spec_enc_i32(x).len() + ",\"y\":"@.len() as int
            + spec_enc_i32(y).len() + ",\"targetTick\":"@.len() as int + spec_enc_opt_u64(tt).len(),
        "}"@,
        0,
    );
    assert(!is_digit_char(','));
    assert(!is_digit_char('}'));
}

/// Piece positions of the other intent encodings.
proof fn lemma_potion_pieces(s: Seq<char>, i: int, slot: Option<u8>)
    requires
        follows(s, i, spec_enc_intent(Intent::UsePotion { slot: slot })),
    ensures
        follows(s, i, "{\"cmd\":\"use_potion\",\"slot\":"@),
        follows(s, i + "{\"cmd\":\"use_potion\",\"slot\":"@.len(), spec_enc_opt_u8(slot)),
        non_digit_at(
            s,
            i + "{\"cmd\":\"use_potion\",\"slot\":"@.len() as int + spec_enc_opt_u8(slot).len(),
        ),
        follows(
            s,
            i + "{\"cmd\":\"use_potion\",\"slot\":"@.len() as int + spec_enc_opt_u8(slot).len(),
            "}"@,
        ),
        spec_enc_intent(Intent::UsePotion { slot: slot }).len()
            == "{\"cmd\":\"use_potion\",\"slot\":"@.len() as int + spec_enc_opt_u8(slot).len() + 1,
{
    lemma_three_pieces(
        s,
        i,
        "{\"cmd\":\"use_potion\",\"slot\":"@,
        spec_enc_opt_u8(slot),
        "}"@,
    );
    reveal_strlit("}");
    lemma_follows_char(
        s,
        i + "{\"cmd\":\"use_potion\",\"slot\":"@.len() as int + spec_enc_opt_u8(slot).len(),
        "}"@,
        0,
    );
    assert(!is_digit_char('}'));
}

proof fn lemma_say_pieces(s: Seq<char>, i: int, text: Seq<char>)
    requires
        follows(s, i, "{\"cmd\":\"say\",\"text\":"@ + spec_enc_str(text) + "}"@),
    ensures
        follows(s, i, "{\"cmd\":\"say\",\"text\":"@),
        follows(s, i + "{\"cmd\":\"say\",\"text\":"@.len(), spec_enc_str(text)),
        follows(s, i + "{\"cmd\":\"say\",\"text\":"@.len() as int + spec_enc_str(text).len(), "}"@),
        ("{\"cmd\":\"say\",\"text\":"@ + spec_enc_str(text) + "}"@).len()
            == "{\"cmd\":\"say\",\"text\":"@.len() as int + spec_enc_str(text).len() + 1,
{
    lemma_three_pieces(s, i, "{\"cmd\":\"say\",\"text\":"@, spec_enc_str(text), "}"@);
    reveal_strlit("}");
}

/// Reads the fields of a movement intent after its fixed head.
#[verifier::rlimit(50)]
fn parse_move_body(s: &str, n: usize, i: usize, j0: usize) -> (r: Option<(Intent, usize)>)
    requires
        n == s@.len(),
        i <= n,
        follows(s@, i as int, "{\"cmd\":\"move_to\",\"x\":"@),
        j0 == i + "{\"cmd\":\"move_to\",\"x\":"@.len(),
    ensures
        r matches Some(p) ==> i < p.1 <= n,
        forall|d: Intent|
            #[trigger] follows(s@, i as int, spec_enc_intent(d)) ==> (r matches Some(p)
                && crate::schema::intent_eqv(p.0, d) && p.1 == i + spec_enc_intent(d).len()),
{
    let (x, j1) = match parse_i32(s, n, j0) {
        Some(p) => p,
        None => {
            proof {
                assert forall|d: Intent|
                    #[trigger] follows(s@, i as int, spec_enc_intent(d)) implies false by {
                    reveal_strlit("{\"cmd\":\"move_to\",\"x\":");
                    lemma_follows_char(s@, i as int, "{\"cmd\":\"move_to\",\"x\":"@, 8);
                    lemma_intent_tag(s@, i as int, d);
                    match d {
                        Intent::MoveTo { x, y, target_tick } => {
                            lemma_move_pieces(s@, i as int, x, y, target_tick);
                        },
                        _ => {},
                    }
                }
            }
            return None;
        },
    };
    let j2 = match expect_lit(s, n, j1, ",\"y\":") {
        Some(j) => j,
        None => {
            proof {
                assert forall|d: Intent|
                    #[trigger] follows(s@, i as int, spec_enc_intent(d)) implies false by {
                    reveal_strlit("{\"cmd\":\"move_to\",\"x\":");
                    lemma_follows_char(s@, i as int, "{\"cmd\":\"move_to\",\"x\":"@, 8);
                    lemma_intent_tag(s@, i as int, d);
                    match d {
                        Intent::MoveTo { x, y, target_tick } => {
                            lemma_move_pieces(s@, i as int, x, y, target_tick);
                        },
                        _ => {},
                    }
                }
            }
            return None;
        },
    };
    let (y, j3) = match parse_i32(s, n, j2) {
        Some(p) => p,
        None => {
            proof {
                assert forall|d: Intent|
                    #[trigger] follows(s@, i as int, spec_enc_intent(d)) implies false by {
                    reveal_strlit("{\"cmd\":\"move_to\",\"x\":");
                    lemma_follows_char(s@, i as int, "{\"cmd\":\"move_to\",\"x\":"@, 8);
                    lemma_intent_tag(s@, i as int, d);
                    match d {
                        Intent::MoveTo { x, y, target_tick } => {
                            lemma_move_pieces(s@, i as int, x, y, target_tick);
                        },
                        _ => {},
                    }
                }
            }
            return None;
        },
    };
    let j4 = match expect_lit(s, n, j3, ",\"targetTick\":") {
        Some(j) => j,
        None => {
            proof {
                assert forall|d: Intent|
                    #[trigger] follows(s@, i as int, spec_enc_intent(d)) implies false by {
                    reveal_strlit("{\"cmd\":\"move_to\",\"x\":");
                    lemma_follows_char(s@, i as int, "{\"cmd\":\"move_to\",\"x\":"@, 8);
                    lemma_intent_tag(s@, i as int, d);
                    match d {
                        Intent::MoveTo { x, y, target_tick } => {
                            lemma_move_pieces(s@, i as int, x, y, target_tick);
                        },
                        _ => {},
                    }
                }
            }
            return None;
        },
    };
    let (tt, j5) = match parse_opt_u64(s, n, j4) {
        Some(p) => p,
        None => {
            proof {
                assert forall|d: Intent|
                    #[trigger] follows(s@, i as int, spec_enc_intent(d)) implies false by {
                    reveal_strlit("{\"cmd\":\"move_to\",\"x\":");
                    lemma_follows_char(s@, i as int, "{\"cmd\":\"move_to\",\"x\":"@, 8);
                    lemma_intent_tag(s@, i as int, d);
                    match d {
                        Intent::MoveTo { x, y, target_tick } => {
                            lemma_move_pieces(s@, i as int, x, y, target_tick);
                        },
                        _ => {},
                    }
                }
            }
            return None;
        },
    };
    let j6 = match expect_lit(s, n, j5, "}") {
        Some(j) => j,
        None => {
            proof {
                assert forall|d: Intent|
                    #[trigger] follows(s@, i as int, spec_enc_intent(d)) implies false by {
                    reveal_strlit("{\"cmd\":\"move_to\",\"x\":");
                    lemma_follows_char(s@, i as int, "{\"cmd\":\"move_to\",\"x\":"@, 8);
                    lemma_intent_tag(s@, i as int, d);
                    match d {
                        Intent::MoveTo { x, y, target_tick } => {
                            lemma_move_pieces(s@, i as int, x, y, target_tick);
                        },
                        _ => {},
                    }
                }
            }
            return None;
        },
    };
    proof {
        assert forall|d: Intent|
            #[trigger] follows(s@, i as int, spec_enc_intent(d)) implies (
        crate::schema::intent_eqv(Intent::MoveTo { x: x, y: y, target_tick: tt }, d) && j6 == i
            + spec_enc_intent(d).len()) by {
            reveal_strlit("{\"cmd\":\"move_to\",\"x\":");
            lemma_follows_char(s@, i as int, "{\"cmd\":\"move_to\",\"x\":"@, 8);
            lemma_intent_tag(s@, i as int, d);
            match d {
                Intent::MoveTo { x: x2, y: y2, target_tick: tt2 } => {
                    lemma_move_pieces(s@, i as int, x2, y2, tt2);
                },
                _ => {},
            }
        }
    }
    Some((Intent::MoveTo { x, y, target_tick: tt }, j6))
}

/// Reads the fields of a potion intent after its fixed head.
#[verifier::rlimit(50)]
fn parse_potion_body(s: &str, n: usize, i: usize, j0: usize) -> (r: Option<(Intent, usize)>)
    requires
        n == s@.len(),
        i <= n,
        follows(s@, i as int, "{\"cmd\":\"use_potion\",\"slot\":"@),
        j0 == i + "{\"cmd\":\"use_potion\",\"slot\":"@.len(),
    ensures
        r matches Some(p) ==> i < p.1 <= n,
        forall|d: Intent|
            #[trigger] follows(s@, i as int, spec_enc_intent(d)) ==> (r matches Some(p)
                && crate::schema::intent_eqv(p.0, d) && p.1 == i + spec_enc_intent(d).len()),
{
    let (slot, j1) = match parse_opt_u8(s, n, j0) {
        Some(p) => p,
        None => {
            proof {
                assert forall|d: Intent|
                    #[trigger] follows(s@, i as int, spec_enc_intent(d)) implies false by {
                    reveal_strlit("{\"cmd\":\"use_potion\",\"slot\":");
                    lemma_follows_char(s@, i as int, "{\"cmd\":\"use_potion\",\"slot\":"@, 8);
                    lemma_intent_tag(s@, i as int, d);
                    match d {
                        Intent::UsePotion { slot } => {
                            lemma_potion_pieces(s@, i as int, slot);
                        },
                        _ => {},
                    }
                }
            }
            return None;
        },
    };
    let j2 = match expect_lit(s, n, j1, "}") {
        Some(j) => j,
        None => {
            proof {
                assert forall|d: Intent|
                    #[trigger] follows(s@, i as int, spec_enc_intent(d)) implies false by {
                    reveal_strlit("{\"cmd\":\"use_potion\",\"slot\":");
                    lemma_follows_char(s@, i as int, "{\"cmd\":\"use_potion\",\"slot\":"@, 8);
                    lemma_intent_tag(s@, i as int, d);
                    match d {
                        Intent::UsePotion { slot } => {
                            lemma_potion_pieces(s@, i as int, slot);
                        },
                        _ => {},
                    }
                }
            }
            return None;
        },
    };
    proof {
        assert forall|d: Intent|
            #[trigger] follows(s@, i as int, spec_enc_intent(d)) implies (
        crate::schema::intent_eqv(Intent::UsePotion { slot: slot }, d) && j2 == i
            + spec_enc_intent(d).len()) by {
            reveal_strlit("{\"cmd\":\"use_potion\",\"slot\":");
            lemma_follows_char(s@, i as int, "{\"cmd\":\"use_potion\",\"slot\":"@, 8);
            lemma_intent_tag(s@, i as int, d);
            match d {
                Intent::UsePotion { slot: s2 } => {
                    lemma_potion_pieces(s@, i as int, s2);
                },
                _ => {},
            }
        }
    }
    Some((Intent::UsePotion { slot }, j2))
}

/// Reads the fields of a chat intent after its fixed head.
#[verifier::rlimit(50)]
fn parse_say_body(s: &str, n: usize, i: usize, j0: usize) -> (r: Option<(Intent, usize)>)
    requires
        n == s@.len(),
        i <= n,
        follows(s@, i as int, "{\"cmd\":\"say\",\"text\":"@),
        j0 == i + "{\"cmd\":\"say\",\"text\":"@.len(),
    ensures
        r matches Some(p) ==> i < p.1 <= n,
        forall|d: Intent|
            #[trigger] follows(s@, i as int, spec_enc_intent(d)) ==> (r matches Some(p)
                && crate::schema::intent_eqv(p.0, d) && p.1 == i + spec_enc_intent(d).len()),
{
    let (text, j1) = match parse_string(s, n, j0) {
        Some(p) => p,
        None => {
            proof {
                assert forall|d: Intent|
                    #[trigger] follows(s@, i as int, spec_enc_intent(d)) implies false by {
                    reveal_strlit("{\"cmd\":\"say\",\"text\":");
                    lemma_follows_char(s@, i as int, "{\"cmd\":\"say\",\"text\":"@, 8);
                    lemma_follows_char(s@, i as int, "{\"cmd\":\"say\",\"text\":"@, 9);
                    lemma_intent_tag(s@, i as int, d);
                    match d {
                        Intent::Say { text } => {
                            lemma_say_pieces(s@, i as int, text@);
                        },
                        _ => {},
                    }
                }
            }
            return None;
        },
    };
    let j2 = match expect_lit(s, n, j1, "}") {
        Some(j) => j,
        None => {
            proof {
                assert forall|d: Intent|
                    #[trigger] follows(s@, i as int, spec_enc_intent(d)) implies false by {
                    reveal_strlit("{\"cmd\":\"say\",\"text\":");
                    lemma_follows_char(s@, i as int, "{\"cmd\":\"say\",\"text\":"@, 8);
                    lemma_follows_char(s@, i as int, "{\"cmd\":\"say\",\"text\":"@, 9);
                    lemma_intent_tag(s@, i as int, d);
                    match d {
                        Intent::Say { text } => {
                            lemma_say_pieces(s@, i as int, text@);
                        },
                        _ => {},
                    }
                }
            }
            return None;
        },
    };
    proof {
        assert forall|d: Intent|
            #[trigger] follows(s@, i as int, spec_enc_intent(d)) implies (
        crate::schema::intent_eqv(Intent::Say { text: text }, d) && j2 == i + spec_enc_intent(
            d,
        ).len()) by {
            reveal_strlit("{\"cmd\":\"say\",\"text\":");
            lemma_follows_char(s@, i as int, "{\"cmd\":\"say\",\"text\":"@, 8);
            lemma_follows_char(s@, i as int, "{\"cmd\":\"say\",\"text\":"@, 9);
            lemma_intent_tag(s@, i as int, d);
            match d {
                Intent::Say { text: t2 } => {
                    lemma_say_pieces(s@, i as int, t2@);
                },
                _ => {},
            }
        }
    }
    Some((Intent::Say { text }, j2))
}

/// Reads an encoded intent at position `i`.
#[verifier::rlimit(50)]
fn parse_intent(s: &str, n: usize, i: usize) -> (r: Option<(Intent, usize)>)
    requires
        n == s@.len(),
        i <= n,
    ensures
        r matches Some(p) ==> i < p.1 <= n,
        forall|d: Intent|
            #[trigger] follows(s@, i as int, spec_enc_intent(d)) ==> (r matches Some(p)
                && crate::schema::intent_eqv(p.0, d) && p.1 == i + spec_enc_intent(d).len()),
{
    if let Some(j0) = expect_lit(s, n, i, "{\"cmd\":\"move_to\",\"x\":") {
        return parse_move_body(s, n, i, j0);
    }
    if let Some(j0) = expect_lit(s, n, i, "{\"cmd\":\"use_potion\",\"slot\":") {
        return parse_potion_body(s, n, i, j0);
    }
    if let Some(j0) = expect_lit(s, n, i, "{\"cmd\":\"say\",\"text\":") {
        return parse_say_body(s, n, i, j0);
    }
    if let Some(j) = expect_lit(s, n, i, "{\"cmd\":\"stop\"}") {
        proof {
            assert forall|d: Intent|
                #[trigger] follows(s@, i as int, spec_enc_intent(d)) implies (
            crate::schema::intent_eqv(Intent::Stop {  }, d) && j == i + spec_enc_intent(
                d,
            ).len()) by {
                reveal_strlit("{\"cmd\":\"stop\"}");
                lemma_follows_char(s@, i as int, "{\"cmd\":\"stop\"}"@, 8);
                lemma_follows_char(s@, i as int, "{\"cmd\":\"stop\"}"@, 9);
                lemma_intent_tag(s@, i as int, d);
            }
            reveal_strlit("{\"cmd\":\"stop\"}");
        }
        return Some((Intent::Stop {  }, j));
    }
    proof {
        assert forall|d: Intent|
            #[trigger] follows(s@, i as int, spec_enc_intent(d)) implies false by {
            match d {
                Intent::MoveTo { x, y, target_tick } => {
                    lemma_move_pieces(s@, i as int, x, y, target_tick);
                },
                Intent::UsePotion { slot } => {
                    lemma_potion_pieces(s@, i as int, slot);
                },
                Intent::Say { text } => {
                    lemma_say_pieces(s@, i as int, text@);
                },
                Intent::Stop {  } => {},
            }
        }
    }
    None
}

// ----------------------------------------------------- parse: state parts

/// Reads `true` or `false` at position `i`.
fn parse_bool(s: &str, n: usize, i: usize) -> (r: Option<(bool, usize)>)
    requires
        n == s@.len(),
        i <= n,
    ensures
        r matches Some(p) ==> i < p.1 <= n,
        forall|b: bool|
            #[trigger] follows(s@, i as int, spec_enc_bool(b)) ==> (r matches Some(p) && p.0 == b
                && p.1 == i + spec_enc_bool(b).len()),
{
    match expect_lit(s, n, i, "true") {
        Some(j) => {
            proof {
                reveal_strlit("true");
                reveal_strlit("false");
                assert forall|b: bool|
                    #[trigger] follows(s@, i as int, spec_enc_bool(b)) implies (b == true && j
                    == i + spec_enc_bool(b).len()) by {
                    if !b {
                        lemma_follows_char(s@, i as int, "true"@, 0);
                        lemma_follows_char(s@, i as int, "false"@, 0);
                    }
                }
            }
            Some((true, j))
        },
        None => {
            match expect_lit(s, n, i, "false") {
                Some(j) => {
                    proof {
                        reveal_strlit("true");
                        reveal_strlit("false");
                        assert forall|b: bool|
                            #[trigger] follows(s@, i as int, spec_enc_bool(b)) implies (b == false
                            && j == i + spec_enc_bool(b).len()) by {}
                    }
                    Some((false, j))
                },
                None => {
                    proof {
                        assert forall|b: bool|
                            #[trigger] follows(s@, i as int, spec_enc_bool(b)) implies false by {}
                    }
                    None
                },
            }
        },
    }
}

/// All piece positions of an encoded interface-flag record.
spec fn ui_pieces_at(s: Seq<char>, i: int, u: UiState) -> bool {
    follows(s, i, "{\"in_menu\":"@) && follows(
        s,
        i + "{\"in_menu\":"@.len(),
        spec_enc_bool(u.in_menu),
    ) && follows(
        s,
        i + "{\"in_menu\":"@.len() + spec_enc_bool(u.in_menu).len(),
        ",\"in_store\":"@,
    ) && follows(
        s,
        i + "{\"in_menu\":"@.len() + spec_enc_bool(u.in_menu).len() + ",\"in_store\":"@.len(),
        spec_enc_bool(u.in_store),
    ) && follows(
        s,
        i + "{\"in_menu\":"@.len() + spec_enc_bool(u.in_menu).len() + ",\"in_store\":"@.len()
            + spec_enc_bool(u.in_store).len(),
        ",\"can_act\":"@,
    ) && follows(
        s,
        i + "{\"in_menu\":"@.len() + spec_enc_bool(u.in_menu).len() + ",\"in_store\":"@.len()
            + spec_enc_bool(u.in_store).len() + ",\"can_act\":"@.len(),
        spec_enc_bool(u.can_act),
    ) && follows(
        s,
        i + "{\"in_menu\":"@.len() + spec_enc_bool(u.in_menu).len() + ",\"in_store\":"@.len()
            + spec_enc_bool(u.in_store).len() + ",\"can_act\":"@.len() + spec_enc_bool(
            u.can_act,
        ).len(),
        "}"@,
    ) && spec_enc_ui(u).len() == "{\"in_menu\":"@.len() + spec_enc_bool(u.in_menu).len()
        + ",\"in_store\":"@.len() + spec_enc_bool(u.in_store).len() + ",\"can_act\":"@.len()
        + spec_enc_bool(u.can_act).len() + 1
}

proof fn lemma_ui_pieces(s: Seq<char>, i: int, u: UiState)
    requires
        follows(s, i, spec_enc_ui(u)),
    ensures
        ui_pieces_at(s, i, u),
{
    lemma_seven_pieces(
        s,
        i,
        "{\"in_menu\":"@,
        spec_enc_bool(u.in_menu),
        ",\"in_store\":"@,
        spec_enc_bool(u.in_store),
        ",\"can_act\":"@,
        spec_enc_bool(u.can_act),
        "}"@,
    );
    reveal_strlit("}");
}

/// Reads an interface-flag record at position `i`.
#[verifier::rlimit(100)]
fn parse_ui(s: &str, n: usize, i: usize) -> (r: Option<(UiState, usize)>)
    requires
        n == s@.len(),
        i <= n,
    ensures
        r matches Some(p) ==> i < p.1 <= n,
        forall|u: UiState|
            #[trigger] follows(s@, i as int, spec_enc_ui(u)) ==> (r matches Some(p) && p.0 == u
                && p.1 == i + spec_enc_ui(u).len()),
{
    let r0 = expect_lit(s, n, i, "{\"in_menu\":");
    let r1 = match r0 {
        Some(j) => parse_bool(s, n, j),
        None => None,
    };
    let r2 = match r1 {
        Some((_, j)) => expect_lit(s, n, j, ",\"in_store\":"),
        None => None,
    };
    let r3 = match r2 {
        Some(j) => parse_bool(s, n, j),
        None => None,
    };
    let r4 = match r3 {
        Some((_, j)) => expect_lit(s, n, j, ",\"can_act\":"),
        None => None,
    };
    let r5 = match r4 {
        Some(j) => parse_bool(s, n, j),
        None => None,
    };
    let r6 = match r5 {
        Some((_, j)) => expect_lit(s, n, j, "}"),
        None => None,
    };
    match (r1, r3, r5, r6) {
        (Some((in_menu, _)), Some((in_store, _)), Some((can_act, _)), Some(j6)) => {
            let out = UiState { in_menu, in_store, can_act };
            proof {
                assert forall|u: UiState|
                    #[trigger] follows(s@, i as int, spec_enc_ui(u)) implies (out == u && j6 == i
                    + spec_enc_ui(u).len()) by {
                    lemma_ui_pieces(s@, i as int, u);
                }
            }
            Some((out, j6))
        },
        _ => {
            proof {
                assert forall|u: UiState|
                    #[trigger] follows(s@, i as int, spec_enc_ui(u)) implies false by {
                    lemma_ui_pieces(s@, i as int, u);
                }
            }
            None
        },
    }
}

/// All piece positions and digit boundaries of an encoded player record.
spec fn player_pieces_at(s: Seq<char>, i: int, p: Player) -> bool {
    let p1 = i + "{\"hp\":"@.len();
    let p2 = p1 + spec_enc_i32(p.hp).len();
    let p3 = p2 + ",\"hp_max\":"@.len();
    let p4 = p3 + spec_enc_i32(p.hp_max).len();
    let p5 = p4 + ",\"mana\":"@.len();
    let p6 = p5 + spec_enc_i32(p.mana).len();
    let p7 = p6 + ",\"mana_max\":"@.len();
    let p8 = p7 + spec_enc_i32(p.mana_max).len();
    let p9 = p8 + ",\"pos\":"@.len();
    let p10 = p9 + spec_enc_pos(p.pos).len();
    let p11 = p10 + ",\"level\":"@.len();
    let p12 = p11 + spec_enc_i32(p.level).len();
    let p13 = p12 + ",\"in_town\":"@.len();
    let p14 = p13 + spec_enc_bool(p.in_town).len();
    follows(s, i, "{\"hp\":"@) && follows(s, p1, spec_enc_i32(p.hp)) && non_digit_at(s, p2)
        && follows(s, p2, ",\"hp_max\":"@) && follows(s, p3, spec_enc_i32(p.hp_max))
        && non_digit_at(s, p4) && follows(s, p4, ",\"mana\":"@) && follows(
        s,
        p5,
        spec_enc_i32(p.mana),
    ) && non_digit_at(s, p6) && follows(s, p6, ",\"mana_max\":"@) && follows(
        s,
        p7,
        spec_enc_i32(p.mana_max),
    ) && non_digit_at(s, p8) && follows(s, p8, ",\"pos\":"@) && follows(
        s,
        p9,
        spec_enc_pos(p.pos),
    ) && follows(s, p10, ",\"level\":"@) && follows(s, p11, spec_enc_i32(p.level))
        && non_digit_at(s, p12) && follows(s, p12, ",\"in_town\":"@) && follows(
        s,
        p13,
        spec_enc_bool(p.in_town),
    ) && follows(s, p14, "}"@) && spec_enc_player(p).len() == p14 + 1 - i
}

proof fn lemma_player_pieces(s: Seq<char>, i: int, p: Player)
    requires
        follows(s, i, spec_enc_player(p)),
    ensures
        player_pieces_at(s, i, p),
{
    let l1 = "{\"hp\":"@;
    let e1 = spec_enc_i32(p.hp);
    let l2 = ",\"hp_max\":"@;
    let e2 = spec_enc_i32(p.hp_max);
    let l3 = ",\"mana\":"@;
    let e3 = spec_enc_i32(p.mana);
    let l4 = ",\"mana_max\":"@;
    let e4 = spec_enc_i32(p.mana_max);
    let l5 = ",\"pos\":"@;
    let e5 = spec_enc_pos(p.pos);
    let l6 = ",\"level\":"@;
    let e6 = spec_enc_i32(p.level);
    let l7 = ",\"in_town\":"@;
    let e7 = spec_enc_bool(p.in_town);
    let l8 = "}"@;
    let a1 = l1;
    let a2 = a1 + e1;
    let a3 = a2 + l2;
    let a4 = a3 + e2;
    let a5 = a4 + l3;
    let a6 = a5 + e3;
    let a7 = a6 + l4;
    let a8 = a7 + e4;
    let a9 = a8 + l5;
    let a10 = a9 + e5;
    let a11 = a10 + l6;
    let a12 = a11 + e6;
    let a13 = a12 + l7;
    let a14 = a13 + e7;
    lemma_follows_split(s, i, a14, l8);
    lemma_follows_split(s, i, a13, e7);
    lemma_follows_split(s, i, a12, l7);
    lemma_follows_split(s, i, a11, e6);
    lemma_follows_split(s, i, a10, l6);
    lemma_follows_split(s, i, a9, e5);
    lemma_follows_split(s, i, a8, l5);
    lemma_follows_split(s, i, a7, e4);
    lemma_follows_split(s, i, a6, l4);
    lemma_follows_split(s, i, a5, e3);
    lemma_follows_split(s, i, a4, l3);
    lemma_follows_split(s, i, a3, e2);
    lemma_follows_split(s, i, a2, l2);
    lemma_follows_split(s, i, a1, e1);
    reveal_strlit(",\"hp_max\":");
    reveal_strlit(",\"mana\":");
    reveal_strlit(",\"mana_max\":");
    reveal_strlit(",\"pos\":");
    reveal_strlit(",\"level\":");
    reveal_strlit(",\"in_town\":");
    reveal_strlit("}");
    assert(!is_digit_char(','));
    assert(!is_digit_char('}'));
    lemma_follows_char(s, i + a2.len(), l2, 0);
    lemma_follows_char(s, i + a4.len(), l3, 0);
    lemma_follows_char(s, i + a6.len(), l4, 0);
    lemma_follows_char(s, i + a8.len(), l5, 0);
    lemma_follows_char(s, i + a12.len(), l7, 0);
    lemma_follows_char(s, i + a14.len(), l8, 0);
}

/// Reads a player record at position `i`.
#[verifier::rlimit(100)]
fn parse_player(s: &str, n: usize, i: usize) -> (r: Option<(Player, usize)>)
    requires
        n == s@.len(),
        i <= n,
    ensures
        r matches Some(p) ==> i < p.1 <= n,
        forall|pl: Player|
            #[trigger] follows(s@, i as int, spec_enc_player(pl)) ==> (r matches Some(p)
                && crate::schema::player_eqv(p.0, pl) && p.1 == i + spec_enc_player(pl).len()),
{
    let r0 = expect_lit(s, n, i, "{\"hp\":");
    let r1 = match r0 {
        Some(j) => parse_i32(s, n, j),
        None => None,
    };
    let r2 = match r1 {
        Some((_, j)) => expect_lit(s, n, j, ",\"hp_max\":"),
        None => None,
    };
    let r3 = match r2 {
        Some(j) => parse_i32(s, n, j),
        None => None,
    };
    let r4 = match r3 {
        Some((_, j)) => expect_lit(s, n, j, ",\"mana\":"),
        None => None,
    };
    let r5 = match r4 {
        Some(j) => parse_i32(s, n, j),
        None => None,
    };
    let r6 = match r5 {
        Some((_, j)) => expect_lit(s, n, j, ",\"mana_max\":"),
        None => None,
    };
    let r7 = match r6 {
        Some(j) => parse_i32(s, n, j),
        None => None,
    };
    let r8 = match r7 {
        Some((_, j)) => expect_lit(s, n, j, ",\"pos\":"),
        None => None,
    };
    let r9 = match r8 {
        Some(j) => parse_pos(s, n, j),
        None => None,
    };
    let r10 = match r9 {
        Some((_, j)) => expect_lit(s, n, j, ",\"level\":"),
        None => None,
    };
    let r11 = match r10 {
        Some(j) => parse_i32(s, n, j),
        None => None,
    };
    let r12 = match r11 {
        Some((_, j)) => expect_lit(s, n, j, ",\"in_town\":"),
        None => None,
    };
    let r13 = match r12 {
        Some(j) => parse_bool(s, n, j),
        None => None,
    };
    let r14 = match r13 {
        Some((_, j)) => expect_lit(s, n, j, "}"),
        None => None,
    };
    match (r1, r3, r5, r7, r9, r11, r13, r14) {
        (
            Some((hp, _)),
            Some((hp_max, _)),
            Some((mana, _)),
            Some((mana_max, _)),
            Some((pos, _)),
            Some((level, _)),
            Some((in_town, _)),
            Some(j14),
        ) => {
            let out = Player { hp, hp_max, mana, mana_max, pos, level, in_town };
            proof {
                assert forall|pl: Player|
                    #[trigger] follows(s@, i as int, spec_enc_player(pl)) implies (
                crate::schema::player_eqv(out, pl) && j14 == i + spec_enc_player(pl).len()) by {
                    lemma_player_pieces(s@, i as int, pl);
                }
            }
            Some((out, j14))
        },
        _ => {
            proof {
                assert forall|pl: Player|
                    #[trigger] follows(s@, i as int, spec_enc_player(pl)) implies false by {
                    lemma_player_pieces(s@, i as int, pl);
                }
            }
            None
        },
    }
}

/// All piece positions and digit boundaries of an encoded monster record.
spec fn mon_pieces_at(s: Seq<char>, i: int, m: Mon) -> bool {
    let p1 = i + "{\"id\":"@.len();
    let p2 = p1 + spec_enc_i32(m.id).len();
    let p3 = p2 + ",\"kind\":"@.len();
    let p4 = p3 + spec_enc_str(m.kind@).len();
    let p5 = p4 + ",\"pos\":"@.len();
    let p6 = p5 + spec_enc_pos(m.pos).len();
    let p7 = p6 + ",\"hp_percent\":"@.len();
    let p8 = p7 + dec_digits(m.hp_percent as nat).len();
    follows(s, i, "{\"id\":"@) && follows(s, p1, spec_enc_i32(m.id)) && non_digit_at(s, p2)
        && follows(s, p2, ",\"kind\":"@) && follows(s, p3, spec_enc_str(m.kind@)) && follows(
        s,
        p4,
        ",\"pos\":"@,
    ) && follows(s, p5, spec_enc_pos(m.pos)) && follows(s, p6, ",\"hp_percent\":"@) && follows(
        s,
        p7,
        dec_digits(m.hp_percent as nat),
    ) && non_digit_at(s, p8) && follows(s, p8, "}"@) && spec_enc_mon(m).len() == p8 + 1 - i
}

proof fn lemma_mon_pieces(s: Seq<char>, i: int, m: Mon)
    requires
        follows(s, i, spec_enc_mon(m)),
    ensures
        mon_pieces_at(s, i, m),
{
    let l1 = "{\"id\":"@;
    let e1 = spec_enc_i32(m.id);
    let l2 = ",\"kind\":"@;
    let e2 = spec_enc_str(m.kind@);
    let l3 = ",\"pos\":"@;
    let e3 = spec_enc_pos(m.pos);
    let l4 = ",\"hp_percent\":"@;
    let e4 = dec_digits(m.hp_percent as nat);
    let l5 = "}"@;
    let a1 = l1;
    let a2 = a1 + e1;
    let a3 = a2 + l2;
    let a4 = a3 + e2;
    let a5 = a4 + l3;
    let a6 = a5 + e3;
    let a7 = a6 + l4;
    let a8 = a7 + e4;
    lemma_follows_split(s, i, a8, l5);
    lemma_follows_split(s, i, a7, e4);
    lemma_follows_split(s, i, a6, l4);
    lemma_follows_split(s, i, a5, e3);
    lemma_follows_split(s, i, a4, l3);
    lemma_follows_split(s, i, a3, e2);
    lemma_follows_split(s, i, a2, l2);
    lemma_follows_split(s, i, a1, e1);
    reveal_strlit(",\"kind\":");
    reveal_strlit("}");
    assert(!is_digit_char(','));
    assert(!is_digit_char('}'));
    lemma_follows_char(s, i + a2.len(), l2, 0);
    lemma_follows_char(s, i + a8.len(), l5, 0);
}

/// Reads a monster record at position `i`.
#[verifier::rlimit(100)]
fn parse_mon(s: &str, n: usize, i: usize) -> (r: Option<(Mon, usize)>)
    requires
        n == s@.len(),
        i <= n,
    ensures
        r matches Some(p) ==> i < p.1 <= n,
        forall|m: Mon|
            #[trigger] follows(s@, i as int, spec_enc_mon(m)) ==> (r matches Some(p)
                && crate::schema::mon_eqv(p.0, m) && p.1 == i + spec_enc_mon(m).len()),
{
    let r0 = expect_lit(s, n, i, "{\"id\":");
    let r1 = match r0 {
        Some(j) => parse_i32(s, n, j),
        None => None,
    };
    let r2 = match r1 {
        Some((_, j)) => expect_lit(s, n, j, ",\"kind\":"),
        None => None,
    };
    let r3 = match r2 {
        Some(j) => parse_string(s, n, j),
        None => None,
    };
    let r4 = match &r3 {
        Some((_, j)) => expect_lit(s, n, *j, ",\"pos\":"),
        None => None,
    };
    let r5 = match r4 {
        Some(j) => parse_pos(s, n, j),
        None => None,
    };
    let r6 = match r5 {
        Some((_, j)) => expect_lit(s, n, j, ",\"hp_percent\":"),
        None => None,
    };
    let r7 = match r6 {
        Some(j) => parse_u64(s, n, j),
        None => None,
    };
    let r8 = match r7 {
        Some((v, j)) => if v <= 255 {
            expect_lit(s, n, j, "}")
        } else {
            None
        },
        None => None,
    };
    match (r1, r3, r5, r7, r8) {
        (Some((id, _)), Some((kind, _)), Some((pos, _)), Some((v, _)), Some(j8)) => {
            let out = Mon { id, kind, pos, hp_percent: v as u8 };
            proof {
                assert forall|m: Mon|
                    #[trigger] follows(s@, i as int, spec_enc_mon(m)) implies (
                crate::schema::mon_eqv(out, m) && j8 == i + spec_enc_mon(m).len()) by {
                    lemma_mon_pieces(s@, i as int, m);
                    assert(m.hp_percent as nat == (m.hp_percent as u64) as nat);
                    assert(follows(
                        s@,
                        i + "{\"id\":"@.len() as int + spec_enc_i32(m.id).len()
                            + ",\"kind\":"@.len() + spec_enc_str(m.kind@).len()
                            + ",\"pos\":"@.len() + spec_enc_pos(m.pos).len()
                            + ",\"hp_percent\":"@.len(),
                        spec_enc_u64(m.hp_percent as u64),
                    ));
                }
            }
            Some((out, j8))
        },
        _ => {
            proof {
                assert forall|m: Mon|
                    #[trigger] follows(s@, i as int, spec_enc_mon(m)) implies false by {
                    lemma_mon_pieces(s@, i as int, m);
                    assert(m.hp_percent as nat == (m.hp_percent as u64) as nat);
                    assert(follows(
                        s@,
                        i + "{\"id\":"@.len() as int + spec_enc_i32(m.id).len()
                            + ",\"kind\":"@.len() + spec_enc_str(m.kind@).len()
                            + ",\"pos\":"@.len() + spec_enc_pos(m.pos).len()
                            + ",\"hp_percent\":"@.len(),
                        spec_enc_u64(m.hp_percent as u64),
                    ));
                }
            }
            None
        },
    }
}

/// All piece positions and digit boundaries of an encoded item record.
spec fn item_pieces_at(s: Seq<char>, i: int, it: Item) -> bool {
    let p1 = i + "{\"id\":"@.len();
    let p2 = p1 + spec_enc_i32(it.id).len();
    let p3 = p2 + ",\"pos\":"@.len();
    let p4 = p3 + spec_enc_pos(it.pos).len();
    follows(s, i, "{\"id\":"@) && follows(s, p1, spec_enc_i32(it.id)) && non_digit_at(s, p2)
        && follows(s, p2, ",\"pos\":"@) && follows(s, p3, spec_enc_pos(it.pos)) && follows(
        s,
        p4,
        "}"@,
    ) && spec_enc_item(it).len() == p4 + 1 - i
}

proof fn lemma_item_pieces(s: Seq<char>, i: int, it: Item)
    requires
        follows(s, i, spec_enc_item(it)),
    ensures
        item_pieces_at(s, i, it),
{
    lemma_five_pieces(
        s,
        i,
        "{\"id\":"@,
        spec_enc_i32(it.id),
        ",\"pos\":"@,
        spec_enc_pos(it.pos),
        "}"@,
    );
    reveal_strlit(",\"pos\":");
    reveal_strlit("}");
    assert(!is_digit_char(','));
    lemma_follows_char(s, i + "{\"id\":"@.len() as int + spec_enc_i32(it.id).len(), ",\"pos\":"@, 0);
}

/// Reads an item record at position `i`.
#[verifier::rlimit(100)]
fn parse_item(s: &str, n: usize, i: usize) -> (r: Option<(Item, usize)>)
    requires
        n == s@.len(),
        i <= n,
    ensures
        r matches Some(p) ==> i < p.1 <= n,
        forall|it: Item|
            #[trigger] follows(s@, i as int, spec_enc_item(it)) ==> (r matches Some(p)
                && crate::schema::item_eqv(p.0, it) && p.1 == i + spec_enc_item(it).len()),
{
    let r0 = expect_lit(s, n, i, "{\"id\":");
    let r1 = match r0 {
        Some(j) => parse_i32(s, n, j),
        None => None,
    };
    let r2 = match r1 {
        Some((_, j)) => expect_lit(s, n, j, ",\"pos\":"),
        None => None,
    };
    let r3 = match r2 {
        Some(j) => parse_pos(s, n, j),
        None => None,
    };
    let r4 = match r3 {
        Some((_, j)) => expect_lit(s, n, j, "}"),
        None => None,
    };
    match (r1, r3, r4) {
        (Some((id, _)), Some((pos, _)), Some(j4)) => {
            let out = Item { id, pos };
            proof {
                assert forall|it: Item|
                    #[trigger] follows(s@, i as int, spec_enc_item(it)) implies (
                crate::schema::item_eqv(out, it) && j4 == i + spec_enc_item(it).len()) by {
                    lemma_item_pieces(s@, i as int, it);
                }
            }
            Some((out, j4))
        },
        _ => {
            proof {
                assert forall|it: Item|
                    #[trigger] follows(s@, i as int, spec_enc_item(it)) implies false by {
                    lemma_item_pieces(s@, i as int, it);
                }
            }
            None
        },
    }
}

/// Reads the continuation of a monster list: `]` or `,` and another record.
#[verifier::rlimit(100)]
fn parse_mons_rest(s: &str, n: usize, i: usize) -> (r: Option<(Vec<Mon>, usize)>)
    requires
        n == s@.len(),
        i <= n,
    ensures
        r matches Some(p) ==> i < p.1 <= n,
        forall|w: Seq<Mon>|
            #[trigger] follows(s@, i as int, spec_enc_mons_rest(w)) ==> (r matches Some(p)
                && crate::schema::mons_eqv(p.0@, w) && p.1 == i + spec_enc_mons_rest(w).len()),
    decreases n - i,
{
    if let Some(j) = expect_lit(s, n, i, "]") {
        proof {
            assert forall|w: Seq<Mon>|
                #[trigger] follows(s@, i as int, spec_enc_mons_rest(w)) implies (
            crate::schema::mons_eqv(Seq::<Mon>::empty(), w) && j == i + spec_enc_mons_rest(
                w,
            ).len()) by {
                reveal_strlit("]");
                reveal_strlit(",");
                if w.len() > 0 {
                    lemma_three_pieces(
                        s@,
                        i as int,
                        ","@,
                        spec_enc_mon(w[0]),
                        spec_enc_mons_rest(w.skip(1)),
                    );
                    lemma_follows_char(s@, i as int, ","@, 0);
                    lemma_follows_char(s@, i as int, "]"@, 0);
                }
            }
            reveal_strlit("]");
        }
        return Some((Vec::new(), j));
    }
    if let Some(j1) = expect_lit(s, n, i, ",") {
        if let Some((m0, j2)) = parse_mon(s, n, j1) {
            if let Some((rest, j3)) = parse_mons_rest(s, n, j2) {
                let ghost restv = rest@;
                let mut out = rest;
                out.insert(0, m0);
                proof {
                    assert forall|w: Seq<Mon>|
                        #[trigger] follows(s@, i as int, spec_enc_mons_rest(w)) implies (
                    crate::schema::mons_eqv(out@, w) && j3 == i + spec_enc_mons_rest(
                        w,
                    ).len()) by {
                        reveal_strlit("]");
                        reveal_strlit(",");
                        if w.len() == 0 {
                            assert(follows(s@, i as int, "]"@));
                        } else {
                            lemma_three_pieces(
                                s@,
                                i as int,
                                ","@,
                                spec_enc_mon(w[0]),
                                spec_enc_mons_rest(w.skip(1)),
                            );
                            assert(out@ =~= seq![m0] + restv);
                            assert forall|k: int|
                                0 <= k < out@.len() implies crate::schema::mon_eqv(
                                #[trigger] out@[k],
                                w[k],
                            ) by {
                                if k > 0 {
                                    assert(out@[k] == restv[k - 1]);
                                    assert(w.skip(1)[k - 1] == w[k]);
                                    assert(crate::schema::mon_eqv(restv[k - 1], w.skip(1)[k - 1]));
                                }
                            }
                        }
                    }
                }
                return Some((out, j3));
            }
            proof {
                assert forall|w: Seq<Mon>|
                    #[trigger] follows(s@, i as int, spec_enc_mons_rest(w)) implies false by {
                    reveal_strlit("]");
                    reveal_strlit(",");
                    if w.len() == 0 {
                        assert(follows(s@, i as int, "]"@));
                    } else {
                        lemma_three_pieces(
                            s@,
                            i as int,
                            ","@,
                            spec_enc_mon(w[0]),
                            spec_enc_mons_rest(w.skip(1)),
                        );
                    }
                }
            }
            return None;
        }
        proof {
            assert forall|w: Seq<Mon>|
                #[trigger] follows(s@, i as int, spec_enc_mons_rest(w)) implies false by {
                reveal_strlit("]");
                reveal_strlit(",");
                if w.len() == 0 {
                    assert(follows(s@, i as int, "]"@));
                } else {
                    lemma_three_pieces(
                        s@,
                        i as int,
                        ","@,
                        spec_enc_mon(w[0]),
                        spec_enc_mons_rest(w.skip(1)),
                    );
                }
            }
        }
        return None;
    }
    proof {
        assert forall|w: Seq<Mon>|
            #[trigger] follows(s@, i as int, spec_enc_mons_rest(w)) implies false by {
            reveal_strlit("]");
            reveal_strlit(",");
            if w.len() == 0 {
                assert(follows(s@, i as int, "]"@));
            } else {
                lemma_three_pieces(
                    s@,
                    i as int,
                    ","@,
                    spec_enc_mon(w[0]),
                    spec_enc_mons_rest(w.skip(1)),
                );
            }
        }
    }
    None
}

/// Reads a whole monster list at position `i`.
#[verifier::rlimit(100)]
fn parse_mons(s: &str, n: usize, i: usize) -> (r: Option<(Vec<Mon>, usize)>)
    requires
        n == s@.len(),
        i <= n,
    ensures
        r matches Some(p) ==> i < p.1 <= n,
        forall|w: Seq<Mon>|
            #[trigger] follows(s@, i as int, spec_enc_mons(w)) ==> (r matches Some(p)
                && crate::schema::mons_eqv(p.0@, w) && p.1 == i + spec_enc_mons(w).len()),
{
    if let Some(j) = expect_lit(s, n, i, "[]") {
        proof {
            assert forall|w: Seq<Mon>|
                #[trigger] follows(s@, i as int, spec_enc_mons(w)) implies (
            crate::schema::mons_eqv(Seq::<Mon>::empty(), w) && j == i + spec_enc_mons(
                w,
            ).len()) by {
                reveal_strlit("[]");
                reveal_strlit("[");
                reveal_strlit("{\"id\":");
                if w.len() > 0 {
                    lemma_three_pieces(
                        s@,
                        i as int,
                        "["@,
                        spec_enc_mon(w[0]),
                        spec_enc_mons_rest(w.skip(1)),
                    );
                    assert(spec_enc_mon(w[0])[0] == "{\"id\":"@[0]);
                    lemma_follows_char(s@, i + 1, spec_enc_mon(w[0]), 0);
                    lemma_follows_char(s@, i as int, "[]"@, 1);
                }
            }
            reveal_strlit("[]");
        }
        return Some((Vec::new(), j));
    }
    if let Some(j1) = expect_lit(s, n, i, "[") {
        if let Some((m0, j2)) = parse_mon(s, n, j1) {
            if let Some((rest, j3)) = parse_mons_rest(s, n, j2) {
                let ghost restv = rest@;
                let mut out = rest;
                out.insert(0, m0);
                proof {
                    assert forall|w: Seq<Mon>|
                        #[trigger] follows(s@, i as int, spec_enc_mons(w)) implies (
                    crate::schema::mons_eqv(out@, w) && j3 == i + spec_enc_mons(w).len()) by {
                        reveal_strlit("[]");
                        reveal_strlit("[");
                        if w.len() == 0 {
                            assert(follows(s@, i as int, "[]"@));
                        } else {
                            lemma_three_pieces(
                                s@,
                                i as int,
                                "["@,
                                spec_enc_mon(w[0]),
                                spec_enc_mons_rest(w.skip(1)),
                            );
                            assert(out@ =~= seq![m0] + restv);
                            assert forall|k: int|
                                0 <= k < out@.len() implies crate::schema::mon_eqv(
                                #[trigger] out@[k],
                                w[k],
                            ) by {
                                if k > 0 {
                                    assert(out@[k] == restv[k - 1]);
                                    assert(w.skip(1)[k - 1] == w[k]);
                                    assert(crate::schema::mon_eqv(restv[k - 1], w.skip(1)[k - 1]));
                                }
                            }
                        }
                    }
                }
                return Some((out, j3));
            }
            proof {
                assert forall|w: Seq<Mon>|
                    #[trigger] follows(s@, i as int, spec_enc_mons(w)) implies false by {
                    reveal_strlit("[]");
                    reveal_strlit("[");
                    if w.len() == 0 {
                        assert(follows(s@, i as int, "[]"@));
                    } else {
                        lemma_three_pieces(
                            s@,
                            i as int,
                            "["@,
                            spec_enc_mon(w[0]),
                            spec_enc_mons_rest(w.skip(1)),
                        );
                    }
                }
            }
            return None;
        }
        proof {
            assert forall|w: Seq<Mon>|
                #[trigger] follows(s@, i as int, spec_enc_mons(w)) implies false by {
                reveal_strlit("[]");
                reveal_strlit("[");
                if w.len() == 0 {
                    assert(follows(s@, i as int, "[]"@));
                } else {
                    lemma_three_pieces(
                        s@,
                        i as int,
                        "["@,
                        spec_enc_mon(w[0]),
                        spec_enc_mons_rest(w.skip(1)),
                    );
                }
        }
        }
        return None;
    }
    proof {
        assert forall|w: Seq<Mon>|
            #[trigger] follows(s@, i as int, spec_enc_mons(w)) implies false by {
            reveal_strlit("[]");
            reveal_strlit("[");
            if w.len() == 0 {
                assert(follows(s@, i as int, "[]"@));
    } else {
                lemma_three_pieces(
                    s@,
                    i as int,
                    "["@,
                    spec_enc_mon(w[0]),
                    spec_enc_mons_rest(w.skip(1)),
                );
    }
        }
    }
    None
}

/// Reads the continuation of a item list: `]` or `,` and another record.
#[verifier::rlimit(100)]
fn parse_items_rest(s: &str, n: usize, i: usize) -> (r: Option<(Vec<Item>, usize)>)
    requires
        n == s@.len(),
        i <= n,
    ensures
        r matches Some(p) ==> i < p.1 <= n,
        forall|w: Seq<Item>|
            #[trigger] follows(s@, i as int, spec_enc_items_rest(w)) ==> (r matches Some(p)
                && crate::schema::items_eqv(p.0@, w) && p.1 == i + spec_enc_items_rest(w).len()),
    decreases n - i,
{
    if let Some(j) = expect_lit(s, n, i, "]") {
        proof {
            assert forall|w: Seq<Item>|
                #[trigger] follows(s@, i as int, spec_enc_items_rest(w)) implies (
            crate::schema::items_eqv(Seq::<Item>::empty(), w) && j == i + spec_enc_items_rest(
                w,
            ).len()) by {
                reveal_strlit("]");
                reveal_strlit(",");
                if w.len() > 0 {
                    lemma_three_pieces(
                        s@,
                        i as int,
                        ","@,
                        spec_enc_item(w[0]),
                        spec_enc_items_rest(w.skip(1)),
                    );
                    lemma_follows_char(s@, i as int, ","@, 0);
                    lemma_follows_char(s@, i as int, "]"@, 0);
                }
            }
            reveal_strlit("]");
        }
        return Some((Vec::new(), j));
    }
    if let Some(j1) = expect_lit(s, n, i, ",") {
        if let Some((m0, j2)) = parse_item(s, n, j1) {
            if let Some((rest, j3)) = parse_items_rest(s, n, j2) {
                let ghost restv = rest@;
                let mut out = rest;
                out.insert(0, m0);
                proof {
                    assert forall|w: Seq<Item>|
                        #[trigger] follows(s@, i as int, spec_enc_items_rest(w)) implies (
                    crate::schema::items_eqv(out@, w) && j3 == i + spec_enc_items_rest(
                        w,
                    ).len()) by {
                        reveal_strlit("]");
                        reveal_strlit(",");
                        if w.len() == 0 {
                            assert(follows(s@, i as int, "]"@));
                        } else {
                            lemma_three_pieces(
                                s@,
                                i as int,
                                ","@,
                                spec_enc_item(w[0]),
                                spec_enc_items_rest(w.skip(1)),
                            );
                            assert(out@ =~= seq![m0] + restv);
                            assert forall|k: int|
                                0 <= k < out@.len() implies crate::schema::item_eqv(
                                #[trigger] out@[k],
                                w[k],
                            ) by {
                                if k > 0 {
                                    assert(out@[k] == restv[k - 1]);
                                    assert(w.skip(1)[k - 1] == w[k]);
                                    assert(crate::schema::item_eqv(restv[k - 1], w.skip(1)[k - 1]));
                                }
                            }
                        }
                    }
                }
                return Some((out, j3));
            }
            proof {
                assert forall|w: Seq<Item>|
                    #[trigger] follows(s@, i as int, spec_enc_items_rest(w)) implies false by {
                    reveal_strlit("]");
                    reveal_strlit(",");
                    if w.len() == 0 {
                        assert(follows(s@, i as int, "]"@));
                    } else {
                        lemma_three_pieces(
                            s@,
                            i as int,
                            ","@,
                            spec_enc_item(w[0]),
                            spec_enc_items_rest(w.skip(1)),
                        );
                    }
                }
            }
            return None;
        }
        proof {
            assert forall|w: Seq<Item>|
                #[trigger] follows(s@, i as int, spec_enc_items_rest(w)) implies false by {
                reveal_strlit("]");
                reveal_strlit(",");
                if w.len() == 0 {
                    assert(follows(s@, i as int, "]"@));
                } else {
                    lemma_three_pieces(
                        s@,
                        i as int,
                        ","@,
                        spec_enc_item(w[0]),
                        spec_enc_items_rest(w.skip(1)),
                    );
                }
            }
        }
        return None;
    }
    proof {
        assert forall|w: Seq<Item>|
            #[trigger] follows(s@, i as int, spec_enc_items_rest(w)) implies false by {
            reveal_strlit("]");
            reveal_strlit(",");
            if w.len() == 0 {
                assert(follows(s@, i as int, "]"@));
            } else {
                lemma_three_pieces(
                    s@,
                    i as int,
                    ","@,
                    spec_enc_item(w[0]),
                    spec_enc_items_rest(w.skip(1)),
                );
            }
        }
    }
    None
}

/// Reads a whole item list at position `i`.
#[verifier::rlimit(100)]
fn parse_items(s: &str, n: usize, i: usize) -> (r: Option<(Vec<Item>, usize)>)
    requires
        n == s@.len(),
        i <= n,
    ensures
        r matches Some(p) ==> i < p.1 <= n,
        forall|w: Seq<Item>|
            #[trigger] follows(s@, i as int, spec_enc_items(w)) ==> (r matches Some(p)
                && crate::schema::items_eqv(p.0@, w) && p.1 == i + spec_enc_items(w).len()),
{
    if let Some(j) = expect_lit(s, n, i, "[]") {
        proof {
            assert forall|w: Seq<Item>|
                #[trigger] follows(s@, i as int, spec_enc_items(w)) implies (
            crate::schema::items_eqv(Seq::<Item>::empty(), w) && j == i + spec_enc_items(
                w,
            ).len()) by {
                reveal_strlit("[]");
                reveal_strlit("[");
                reveal_strlit("{\"id\":");
                if w.len() > 0 {
                    lemma_three_pieces(
                        s@,
                        i as int,
                        "["@,
                        spec_enc_item(w[0]),
                        spec_enc_items_rest(w.skip(1)),
                    );
                    assert(spec_enc_item(w[0])[0] == "{\"id\":"@[0]);
                    lemma_follows_char(s@, i + 1, spec_enc_item(w[0]), 0);
                    lemma_follows_char(s@, i as int, "[]"@, 1);
                }
            }
            reveal_strlit("[]");
        }
        return Some((Vec::new(), j));
    }
    if let Some(j1) = expect_lit(s, n, i, "[") {
        if let Some((m0, j2)) = parse_item(s, n, j1) {
            if let Some((rest, j3)) = parse_items_rest(s, n, j2) {
                let ghost restv = rest@;
                let mut out = rest;
                out.insert(0, m0);
                proof {
                    assert forall|w: Seq<Item>|
                        #[trigger] follows(s@, i as int, spec_enc_items(w)) implies (
                    crate::schema::items_eqv(out@, w) && j3 == i + spec_enc_items(w).len()) by {
                        reveal_strlit("[]");
                        reveal_strlit("[");
                        if w.len() == 0 {
                            assert(follows(s@, i as int, "[]"@));
                        } else {
                            lemma_three_pieces(
                                s@,
                                i as int,
                                "["@,
                                spec_enc_item(w[0]),
                                spec_enc_items_rest(w.skip(1)),
                            );
                            assert(out@ =~= seq![m0] + restv);
                            assert forall|k: int|
                                0 <= k < out@.len() implies crate::schema::item_eqv(
                                #[trigger] out@[k],
                                w[k],
                            ) by {
                                if k > 0 {
                                    assert(out@[k] == restv[k - 1]);
                                    assert(w.skip(1)[k - 1] == w[k]);
                                    assert(crate::schema::item_eqv(restv[k - 1], w.skip(1)[k - 1]));
                                }
                            }
                        }
                    }
                }
                return Some((out, j3));
            }
            proof {
                assert forall|w: Seq<Item>|
                    #[trigger] follows(s@, i as int, spec_enc_items(w)) implies false by {
                    reveal_strlit("[]");
                    reveal_strlit("[");
                    if w.len() == 0 {
                        assert(follows(s@, i as int, "[]"@));
                    } else {
                        lemma_three_pieces(
                            s@,
                            i as int,
                            "["@,
                            spec_enc_item(w[0]),
                            spec_enc_items_rest(w.skip(1)),
                        );
                    }
                }
            }
            return None;
        }
        proof {
            assert forall|w: Seq<Item>|
                #[trigger] follows(s@, i as int, spec_enc_items(w)) implies false by {
                reveal_strlit("[]");
                reveal_strlit("[");
                if w.len() == 0 {
                    assert(follows(s@, i as int, "[]"@));
                } else {
                    lemma_three_pieces(
                        s@,
                        i as int,
                        "["@,
                        spec_enc_item(w[0]),
                        spec_enc_items_rest(w.skip(1)),
                    );
                }
        }
        }
        return None;
    }
    proof {
        assert forall|w: Seq<Item>|
            #[trigger] follows(s@, i as int, spec_enc_items(w)) implies false by {
            reveal_strlit("[]");
            reveal_strlit("[");
            if w.len() == 0 {
                assert(follows(s@, i as int, "[]"@));
    } else {
                lemma_three_pieces(
                    s@,
                    i as int,
                    "["@,
                    spec_enc_item(w[0]),
                    spec_enc_items_rest(w.skip(1)),
                );
    }
        }
    }
    None
}

/// Reads the continuation of an other-player list: `]` or another `null`.
#[verifier::rlimit(100)]
fn parse_units_rest(s: &str, n: usize, i: usize) -> (r: Option<(Vec<()>, usize)>)
    requires
        n == s@.len(),
        i <= n,
    ensures
        r matches Some(p) ==> i < p.1 <= n,
        forall|w: Seq<()>|
            #[trigger] follows(s@, i as int, spec_enc_units_rest(w)) ==> (r matches Some(p)
                && p.0@.len() == w.len() && p.1 == i + spec_enc_units_rest(w).len()),
    decreases n - i,
{
    if let Some(j) = expect_lit(s, n, i, "]") {
        proof {
            reveal_strlit("]");
            assert forall|w: Seq<()>|
                #[trigger] follows(s@, i as int, spec_enc_units_rest(w)) implies (w.len() == 0
                && j == i + spec_enc_units_rest(w).len()) by {
                reveal_strlit(",null");
                if w.len() > 0 {
                    lemma_follows_split(s@, i as int, ",null"@, spec_enc_units_rest(w.skip(1)));
                    lemma_follows_char(s@, i as int, ",null"@, 0);
                    lemma_follows_char(s@, i as int, "]"@, 0);
                }
            }
        }
        return Some((Vec::new(), j));
    }
    if let Some(j1) = expect_lit(s, n, i, ",null") {
        proof {
            reveal_strlit(",null");
        }
        if let Some((rest, j2)) = parse_units_rest(s, n, j1) {
            let mut out = rest;
            out.push(());
            proof {
                assert forall|w: Seq<()>|
                    #[trigger] follows(s@, i as int, spec_enc_units_rest(w)) implies (out@.len()
                    == w.len() && j2 == i + spec_enc_units_rest(w).len()) by {
                    reveal_strlit("]");
                    if w.len() == 0 {
                        assert(follows(s@, i as int, "]"@));
                    } else {
                        lemma_follows_split(
                            s@,
                            i as int,
                            ",null"@,
                            spec_enc_units_rest(w.skip(1)),
                        );
                    }
                }
            }
            return Some((out, j2));
        }
        proof {
            assert forall|w: Seq<()>|
                #[trigger] follows(s@, i as int, spec_enc_units_rest(w)) implies false by {
                reveal_strlit("]");
                reveal_strlit(",null");
                if w.len() == 0 {
                    assert(follows(s@, i as int, "]"@));
                } else {
                    lemma_follows_split(s@, i as int, ",null"@, spec_enc_units_rest(w.skip(1)));
                }
            }
        }
        return None;
    }
    proof {
        assert forall|w: Seq<()>|
            #[trigger] follows(s@, i as int, spec_enc_units_rest(w)) implies false by {
            reveal_strlit("]");
            reveal_strlit(",null");
            if w.len() == 0 {
                assert(follows(s@, i as int, "]"@));
            } else {
                lemma_follows_split(s@, i as int, ",null"@, spec_enc_units_rest(w.skip(1)));
            }
        }
    }
    None
}

/// Reads a whole other-player list at position `i`.
#[verifier::rlimit(100)]
fn parse_units(s: &str, n: usize, i: usize) -> (r: Option<(Vec<()>, usize)>)
    requires
        n == s@.len(),
        i <= n,
    ensures
        r matches Some(p) ==> i < p.1 <= n,
        forall|w: Seq<()>|
            #[trigger] follows(s@, i as int, spec_enc_units(w)) ==> (r matches Some(p)
                && p.0@.len() == w.len() && p.1 == i + spec_enc_units(w).len()),
{
    if let Some(j) = expect_lit(s, n, i, "[]") {
        proof {
            reveal_strlit("[]");
            assert forall|w: Seq<()>|
                #[trigger] follows(s@, i as int, spec_enc_units(w)) implies (w.len() == 0 && j
                == i + spec_enc_units(w).len()) by {
                reveal_strlit("[null");
                if w.len() > 0 {
                    lemma_follows_split(s@, i as int, "[null"@, spec_enc_units_rest(w.skip(1)));
                    lemma_follows_char(s@, i as int, "[null"@, 1);
                    lemma_follows_char(s@, i as int, "[]"@, 1);
                }
            }
        }
        return Some((Vec::new(), j));
    }
    if let Some(j1) = expect_lit(s, n, i, "[null") {
        if let Some((rest, j2)) = parse_units_rest(s, n, j1) {
            let mut out = rest;
            out.push(());
            proof {
                assert forall|w: Seq<()>|
                    #[trigger] follows(s@, i as int, spec_enc_units(w)) implies (out@.len()
                    == w.len() && j2 == i + spec_enc_units(w).len()) by {
                    reveal_strlit("[]");
                    if w.len() == 0 {
                        assert(follows(s@, i as int, "[]"@));
                    } else {
                        lemma_follows_split(
                            s@,
                            i as int,
                            "[null"@,
                            spec_enc_units_rest(w.skip(1)),
                        );
                    }
                }
            }
            return Some((out, j2));
        }
        proof {
            assert forall|w: Seq<()>|
                #[trigger] follows(s@, i as int, spec_enc_units(w)) implies false by {
                reveal_strlit("[]");
                if w.len() == 0 {
                    assert(follows(s@, i as int, "[]"@));
                } else {
                    lemma_follows_split(s@, i as int, "[null"@, spec_enc_units_rest(w.skip(1)));
                }
            }
        }
        return None;
    }
    proof {
        assert forall|w: Seq<()>|
            #[trigger] follows(s@, i as int, spec_enc_units(w)) implies false by {
            reveal_strlit("[]");
            if w.len() == 0 {
                assert(follows(s@, i as int, "[]"@));
            } else {
                lemma_follows_split(s@, i as int, "[null"@, spec_enc_units_rest(w.skip(1)));
            }
        }
    }
    None
}

/// All piece positions of an encoded nearby record.
spec fn nearby_pieces_at(s: Seq<char>, i: int, nb: Nearby) -> bool {
    let p1 = i + "{\"monsters\":"@.len();
    let p2 = p1 + spec_enc_mons(nb.monsters@).len();
    let p3 = p2 + ",\"items\":"@.len();
    let p4 = p3 + spec_enc_items(nb.items@).len();
    let p5 = p4 + ",\"other_players\":"@.len();
    let p6 = p5 + spec_enc_units(nb.other_players@).len();
    follows(s, i, "{\"monsters\":"@) && follows(s, p1, spec_enc_mons(nb.monsters@)) && follows(
        s,
        p2,
        ",\"items\":"@,
    ) && follows(s, p3, spec_enc_items(nb.items@)) && follows(s, p4, ",\"other_players\":"@)
        && follows(s, p5, spec_enc_units(nb.other_players@)) && follows(s, p6, "}"@)
        && spec_enc_nearby(nb).len() == p6 + 1 - i
}

proof fn lemma_nearby_pieces(s: Seq<char>, i: int, nb: Nearby)
    requires
        follows(s, i, spec_enc_nearby(nb)),
    ensures
        nearby_pieces_at(s, i, nb),
{
    lemma_seven_pieces(
        s,
        i,
        "{\"monsters\":"@,
        spec_enc_mons(nb.monsters@),
        ",\"items\":"@,
        spec_enc_items(nb.items@),
        ",\"other_players\":"@,
        spec_enc_units(nb.other_players@),
        "}"@,
    );
    reveal_strlit("}");
}

/// Reads a nearby record at position `i`.
#[verifier::rlimit(100)]
fn parse_nearby(s: &str, n: usize, i: usize) -> (r: Option<(Nearby, usize)>)
    requires
        n == s@.len(),
        i <= n,
    ensures
        r matches Some(p) ==> i < p.1 <= n,
        forall|nb: Nearby|
            #[trigger] follows(s@, i as int, spec_enc_nearby(nb)) ==> (r matches Some(p)
                && crate::schema::nearby_eqv(p.0, nb) && p.1 == i + spec_enc_nearby(nb).len()),
{
    let r0 = expect_lit(s, n, i, "{\"monsters\":");
    let r1 = match r0 {
        Some(j) => parse_mons(s, n, j),
        None => None,
    };
    let r2 = match &r1 {
        Some((_, j)) => expect_lit(s, n, *j, ",\"items\":"),
        None => None,
    };
    let r3 = match r2 {
        Some(j) => parse_items(s, n, j),
        None => None,
    };
    let r4 = match &r3 {
        Some((_, j)) => expect_lit(s, n, *j, ",\"other_players\":"),
        None => None,
    };
    let r5 = match r4 {
        Some(j) => parse_units(s, n, j),
        None => None,
    };
    let r6 = match &r5 {
        Some((_, j)) => expect_lit(s, n, *j, "}"),
        None => None,
    };
    match (r1, r3, r5, r6) {
        (Some((monsters, _)), Some((items, _)), Some((other_players, _)), Some(j6)) => {
            let out = Nearby { monsters, items, other_players };
            proof {
                assert forall|nb: Nearby|
                    #[trigger] follows(s@, i as int, spec_enc_nearby(nb)) implies (
                crate::schema::nearby_eqv(out, nb) && j6 == i + spec_enc_nearby(nb).len()) by {
                    lemma_nearby_pieces(s@, i as int, nb);
                }
            }
            Some((out, j6))
        },
        _ => {
            proof {
                assert forall|nb: Nearby|
                    #[trigger] follows(s@, i as int, spec_enc_nearby(nb)) implies false by {
                    lemma_nearby_pieces(s@, i as int, nb);
                }
            }
            None
        },
    }
}

/// All piece positions of an encoded state payload.
spec fn state_pieces_at(s: Seq<char>, i: int, st: State) -> bool {
    let p1 = i + "{\"player\":"@.len();
    let p2 = p1 + spec_enc_player(st.player).len();
    let p3 = p2 + ",\"nearby\":"@.len();
    let p4 = p3 + spec_enc_nearby(st.nearby).len();
    let p5 = p4 + ",\"ui_state\":"@.len();
    let p6 = p5 + spec_enc_ui(st.ui_state).len();
    follows(s, i, "{\"player\":"@) && follows(s, p1, spec_enc_player(st.player)) && follows(
        s,
        p2,
        ",\"nearby\":"@,
    ) && follows(s, p3, spec_enc_nearby(st.nearby)) && follows(s, p4, ",\"ui_state\":"@)
        && follows(s, p5, spec_enc_ui(st.ui_state)) && follows(s, p6, "}"@) && spec_enc_state(
        st,
    ).len() == p6 + 1 - i
}

proof fn lemma_state_pieces(s: Seq<char>, i: int, st: State)
    requires
        follows(s, i, spec_enc_state(st)),
    ensures
        state_pieces_at(s, i, st),
{
    lemma_seven_pieces(
        s,
        i,
        "{\"player\":"@,
        spec_enc_player(st.player),
        ",\"nearby\":"@,
        spec_enc_nearby(st.nearby),
        ",\"ui_state\":"@,
        spec_enc_ui(st.ui_state),
        "}"@,
    );
    reveal_strlit("}");
}

/// Reads a state payload at position `i`.
#[verifier::rlimit(100)]
fn parse_state(s: &str, n: usize, i: usize) -> (r: Option<(State, usize)>)
    requires
        n == s@.len(),
        i <= n,
    ensures
        r matches Some(p) ==> i < p.1 <= n,
        forall|st: State|
            #[trigger] follows(s@, i as int, spec_enc_state(st)) ==> (r matches Some(p)
                && crate::schema::state_eqv(p.0, st) && p.1 == i + spec_enc_state(st).len()),
{
    let r0 = expect_lit(s, n, i, "{\"player\":");
    let r1 = match r0 {
        Some(j) => parse_player(s, n, j),
        None => None,
    };
    let r2 = match &r1 {
        Some((_, j)) => expect_lit(s, n, *j, ",\"nearby\":"),
        None => None,
    };
    let r3 = match r2 {
        Some(j) => parse_nearby(s, n, j),
        None => None,
    };
    let r4 = match &r3 {
        Some((_, j)) => expect_lit(s, n, *j, ",\"ui_state\":"),
        None => None,
    };
    let r5 = match r4 {
        Some(j) => parse_ui(s, n, j),
        None => None,
    };
    let r6 = match &r5 {
        Some((_, j)) => expect_lit(s, n, *j, "}"),
        None => None,
    };
    match (r1, r3, r5, r6) {
        (Some((player, _)), Some((nearby, _)), Some((ui_state, _)), Some(j6)) => {
            let out = State { player, nearby, ui_state };
            proof {
                assert forall|st: State|
                    #[trigger] follows(s@, i as int, spec_enc_state(st)) implies (
                crate::schema::state_eqv(out, st) && j6 == i + spec_enc_state(st).len()) by {
                    lemma_state_pieces(s@, i as int, st);
                }
            }
            Some((out, j6))
        },
        _ => {
            proof {
                assert forall|st: State|
                    #[trigger] follows(s@, i as int, spec_enc_state(st)) implies false by {
                    lemma_state_pieces(s@, i as int, st);
                }
            }
            None
        },
    }
}

// --------------------------------------------------------- parse: message

/// Tag characters of an encoded message: the tag starts at offset 9.
proof fn lemma_msg_tag(s: Seq<char>, m: Msg)
    requires
        follows(s, 0, spec_enc_msg(m)),
    ensures
        (m matches Msg::Hello { .. }) <==> s[9] == 'h',
        (m matches Msg::State { .. }) <==> s[9] == 's',
        (m matches Msg::Intent { .. }) <==> s[9] == 'i',
        (m matches Msg::Ack { .. }) <==> s[9] == 'a',
        (m matches Msg::Error { .. }) <==> s[9] == 'e',
        (m matches Msg::Ping) <==> (s[9] == 'p' && s[10] == 'i'),
        (m matches Msg::Pong) <==> (s[9] == 'p' && s[10] == 'o'),
{
    reveal_strlit("{\"type\":\"hello\",\"version\":");
    reveal_strlit("{\"type\":\"state\",\"tick\":");
    reveal_strlit("{\"type\":\"intent\",\"seq\":");
    reveal_strlit("{\"type\":\"ack\",\"seq\":");
    reveal_strlit("{\"type\":\"error\",\"seq\":");
    reveal_strlit("{\"type\":\"ping\"}");
    reveal_strlit("{\"type\":\"pong\"}");
    match m {
        Msg::Hello { version, agent } => {
            lemma_five_pieces(
                s,
                0,
                "{\"type\":\"hello\",\"version\":"@,
                spec_enc_str(version@),
                ",\"agent\":"@,
                spec_enc_opt_str(agent),
                "}"@,
            );
            lemma_follows_char(s, 0, "{\"type\":\"hello\",\"version\":"@, 9);
            lemma_follows_char(s, 0, "{\"type\":\"hello\",\"version\":"@, 10);
        },
        Msg::State { tick, tick_rate, data } => {
            lemma_seven_pieces(
                s,
                0,
                "{\"type\":\"state\",\"tick\":"@,
                spec_enc_u64(tick),
                ",\"tick_rate\":"@,
                dec_digits(tick_rate as nat),
                ",\"data\":"@,
                spec_enc_state(data),
                "}"@,
            );
            lemma_follows_char(s, 0, "{\"type\":\"state\",\"tick\":"@, 9);
            lemma_follows_char(s, 0, "{\"type\":\"state\",\"tick\":"@, 10);
        },
        Msg::Intent { seq, data } => {
            lemma_five_pieces(
                s,
                0,
                "{\"type\":\"intent\",\"seq\":"@,
                spec_enc_u64(seq),
                ",\"data\":"@,
                spec_enc_intent(data),
                "}"@,
            );
            lemma_follows_char(s, 0, "{\"type\":\"intent\",\"seq\":"@, 9);
            lemma_follows_char(s, 0, "{\"type\":\"intent\",\"seq\":"@, 10);
        },
        Msg::Ack { seq, tick } => {
            lemma_five_pieces(
                s,
                0,
                "{\"type\":\"ack\",\"seq\":"@,
                spec_enc_u64(seq),
                ",\"tick\":"@,
                spec_enc_u64(tick),
                "}"@,
            );
            lemma_follows_char(s, 0, "{\"type\":\"ack\",\"seq\":"@, 9);
            lemma_follows_char(s, 0, "{\"type\":\"ack\",\"seq\":"@, 10);
        },
        Msg::Error { seq, reason } => {
            lemma_five_pieces(
                s,
                0,
                "{\"type\":\"error\",\"seq\":"@,
                spec_enc_opt_u64(seq),
                ",\"reason\":"@,
                spec_enc_str(reason@),
                "}"@,
            );
            lemma_follows_char(s, 0, "{\"type\":\"error\",\"seq\":"@, 9);
            lemma_follows_char(s, 0, "{\"type\":\"error\",\"seq\":"@, 10);
        },
        Msg::Ping => {
            lemma_follows_char(s, 0, "{\"type\":\"ping\"}"@, 9);
            lemma_follows_char(s, 0, "{\"type\":\"ping\"}"@, 10);
        },
        Msg::Pong => {
            lemma_follows_char(s, 0, "{\"type\":\"pong\"}"@, 9);
            lemma_follows_char(s, 0, "{\"type\":\"pong\"}"@, 10);
        },
    }
}

/// Piece positions and digit boundaries of an encoded greeting.
proof fn lemma_hello_pieces(s: Seq<char>, version: Seq<char>, agent: Option<String>)
    requires
        follows(
            s,
            0,
            "{\"type\":\"hello\",\"version\":"@ + spec_enc_str(version) + ",\"agent\":"@
                + spec_enc_opt_str(agent) + "}"@,
        ),
    ensures
        follows(s, 0, "{\"type\":\"hello\",\"version\":"@),
        follows(s, "{\"type\":\"hello\",\"version\":"@.len() as int, spec_enc_str(version)),
        follows(
            s,
            "{\"type\":\"hello\",\"version\":"@.len() as int + spec_enc_str(version).len(),
            ",\"agent\":"@,
        ),
        follows(
            s,
            "{\"type\":\"hello\",\"version\":"@.len() as int + spec_enc_str(version).len()
                + ",\"agent\":"@.len(),
            spec_enc_opt_str(agent),
        ),
        non_digit_at(
            s,
            "{\"type\":\"hello\",\"version\":"@.len() as int + spec_enc_str(version).len()
                + ",\"agent\":"@.len() as int + spec_enc_opt_str(agent).len(),
        ),
        follows(
            s,
            "{\"type\":\"hello\",\"version\":"@.len() as int + spec_enc_str(version).len()
                + ",\"agent\":"@.len() as int + spec_enc_opt_str(agent).len(),
            "}"@,
        ),
        ("{\"type\":\"hello\",\"version\":"@ + spec_enc_str(version) + ",\"agent\":"@
            + spec_enc_opt_str(agent) + "}"@).len() == "{\"type\":\"hello\",\"version\":"@.len() as int
            + spec_enc_str(version).len() + ",\"agent\":"@.len() as int + spec_enc_opt_str(agent).len()
            + 1,
{
    lemma_five_pieces(
        s,
        0,
        "{\"type\":\"hello\",\"version\":"@,
        spec_enc_str(version),
        ",\"agent\":"@,
        spec_enc_opt_str(agent),
        "}"@,
    );
    reveal_strlit("}");
    lemma_follows_char(
        s,
        "{\"type\":\"hello\",\"version\":"@.len() as int + spec_enc_str(version).len()
            + ",\"agent\":"@.len() as int + spec_enc_opt_str(agent).len(),
        "}"@,
        0,
    );
    assert(!is_digit_char('}'));
}

/// Piece positions and digit boundaries of an encoded acknowledgment.
proof fn lemma_ack_pieces(s: Seq<char>, sq: u64, tk: u64)
    requires
        follows(
            s,
            0,
            "{\"type\":\"ack\",\"seq\":"@ + spec_enc_u64(sq) + ",\"tick\":"@ + spec_enc_u64(tk)
                + "}"@,
        ),
    ensures
        follows(s, 0, "{\"type\":\"ack\",\"seq\":"@),
        follows(s, "{\"type\":\"ack\",\"seq\":"@.len() as int, spec_enc_u64(sq)),
        non_digit_at(s, "{\"type\":\"ack\",\"seq\":"@.len() as int + spec_enc_u64(sq).len()),
        follows(s, "{\"type\":\"ack\",\"seq\":"@.len() as int + spec_enc_u64(sq).len(), ",\"tick\":"@),
        follows(
            s,
            "{\"type\":\"ack\",\"seq\":"@.len() as int + spec_enc_u64(sq).len() + ",\"tick\":"@.len(),
            spec_enc_u64(tk),
        ),
        non_digit_at(
            s,
            "{\"type\":\"ack\",\"seq\":"@.len() as int + spec_enc_u64(sq).len() + ",\"tick\":"@.len() as int
                + spec_enc_u64(tk).len(),
        ),
        follows(
            s,
            "{\"type\":\"ack\",\"seq\":"@.len() as int + spec_enc_u64(sq).len() + ",\"tick\":"@.len() as int
                + spec_enc_u64(tk).len(),
            "}"@,
        ),
        ("{\"type\":\"ack\",\"seq\":"@ + spec_enc_u64(sq) + ",\"tick\":"@ + spec_enc_u64(tk)
            + "}"@).len() == "{\"type\":\"ack\",\"seq\":"@.len() as int + spec_enc_u64(sq).len()
            + ",\"tick\":"@.len() as int + spec_enc_u64(tk).len() + 1,
{
    lemma_five_pieces(
        s,
        0,
        "{\"type\":\"ack\",\"seq\":"@,
        spec_enc_u64(sq),
        ",\"tick\":"@,
        spec_enc_u64(tk),
        "}"@,
    );
    reveal_strlit(",\"tick\":");
    reveal_strlit("}");
    lemma_follows_char(
        s,
        "{\"type\":\"ack\",\"seq\":"@.len() as int + spec_enc_u64(sq).len(),
        ",\"tick\":"@,
        0,
    );
    lemma_follows_char(
        s,
        "{\"type\":\"ack\",\"seq\":"@.len() as int + spec_enc_u64(sq).len() + ",\"tick\":"@.len() as int
            + spec_enc_u64(tk).len(),
        "}"@,
        0,
    );
    assert(!is_digit_char(','));
    assert(!is_digit_char('}'));
}

/// Piece positions and digit boundaries of an encoded error report.
proof fn lemma_error_pieces(s: Seq<char>, sq: Option<u64>, reason: Seq<char>)
    requires
        follows(
            s,
            0,
            "{\"type\":\"error\",\"seq\":"@ + spec_enc_opt_u64(sq) + ",\"reason\":"@
                + spec_enc_str(reason) + "}"@,
        ),
    ensures
        follows(s, 0, "{\"type\":\"error\",\"seq\":"@),
        follows(s, "{\"type\":\"error\",\"seq\":"@.len() as int, spec_enc_opt_u64(sq)),
        non_digit_at(s, "{\"type\":\"error\",\"seq\":"@.len() as int + spec_enc_opt_u64(sq).len()),
        follows(
            s,
            "{\"type\":\"error\",\"seq\":"@.len() as int + spec_enc_opt_u64(sq).len(),
            ",\"reason\":"@,
        ),
        follows(
            s,
            "{\"type\":\"error\",\"seq\":"@.len() as int + spec_enc_opt_u64(sq).len()
                + ",\"reason\":"@.len(),
            spec_enc_str(reason),
        ),
        follows(
            s,
            "{\"type\":\"error\",\"seq\":"@.len() as int + spec_enc_opt_u64(sq).len()
                + ",\"reason\":"@.len() as int + spec_enc_str(reason).len(),
            "}"@,
        ),
        ("{\"type\":\"error\",\"seq\":"@ + spec_enc_opt_u64(sq) + ",\"reason\":"@ + spec_enc_str(
            reason,
        ) + "}"@).len() == "{\"type\":\"error\",\"seq\":"@.len() as int + spec_enc_opt_u64(sq).len()
            + ",\"reason\":"@.len() as int + spec_enc_str(reason).len() + 1,
{
    lemma_five_pieces(
        s,
        0,
        "{\"type\":\"error\",\"seq\":"@,
        spec_enc_opt_u64(sq),
        ",\"reason\":"@,
        spec_enc_str(reason),
        "}"@,
    );
    reveal_strlit(",\"reason\":");
    reveal_strlit("}");
    lemma_follows_char(
        s,
        "{\"type\":\"error\",\"seq\":"@.len() as int + spec_enc_opt_u64(sq).len(),
        ",\"reason\":"@,
        0,
    );
    assert(!is_digit_char(','));
}

/// Piece positions and digit boundaries of an encoded intent message.
proof fn lemma_intent_msg_pieces(s: Seq<char>, sq: u64, d: Intent)
    requires
        follows(
            s,
            0,
            "{\"type\":\"intent\",\"seq\":"@ + spec_enc_u64(sq) + ",\"data\":"@ + spec_enc_intent(
                d,
            ) + "}"@,
        ),
    ensures
        follows(s, 0, "{\"type\":\"intent\",\"seq\":"@),
        follows(s, "{\"type\":\"intent\",\"seq\":"@.len() as int, spec_enc_u64(sq)),
        non_digit_at(s, "{\"type\":\"intent\",\"seq\":"@.len() as int + spec_enc_u64(sq).len()),
        follows(
            s,
            "{\"type\":\"intent\",\"seq\":"@.len() as int + spec_enc_u64(sq).len(),
            ",\"data\":"@,
        ),
        follows(
            s,
            "{\"type\":\"intent\",\"seq\":"@.len() as int + spec_enc_u64(sq).len() + ",\"data\":"@.len(),
            spec_enc_intent(d),
        ),
        follows(
            s,
            "{\"type\":\"intent\",\"seq\":"@.len() as int + spec_enc_u64(sq).len() + ",\"data\":"@.len() as int
                + spec_enc_intent(d).len(),
            "}"@,
        ),
        ("{\"type\":\"intent\",\"seq\":"@ + spec_enc_u64(sq) + ",\"data\":"@ + spec_enc_intent(d)
            + "}"@).len() == "{\"type\":\"intent\",\"seq\":"@.len() as int + spec_enc_u64(sq).len()
            + ",\"data\":"@.len() as int + spec_enc_intent(d).len() + 1,
{
    lemma_five_pieces(
        s,
        0,
        "{\"type\":\"intent\",\"seq\":"@,
        spec_enc_u64(sq),
        ",\"data\":"@,
        spec_enc_intent(d),
        "}"@,
    );
    reveal_strlit(",\"data\":");
    reveal_strlit("}");
    lemma_follows_char(
        s,
        "{\"type\":\"intent\",\"seq\":"@.len() as int + spec_enc_u64(sq).len(),
        ",\"data\":"@,
        0,
    );
    assert(!is_digit_char(','));
}

/// A full message text: the whole of `s` is one canonical message.
pub open spec fn whole_msg(s: Seq<char>, m: Msg) -> bool {
    s == spec_enc_msg(m)
}

proof fn lemma_whole_follows(s: Seq<char>, m: Msg)
    requires
        s == spec_enc_msg(m),
    ensures
        follows(s, 0, spec_enc_msg(m)),
{
    assert(s.subrange(0, spec_enc_msg(m).len() as int) =~= spec_enc_msg(m));
}

/// Reads the fields of a greeting message after its fixed head.
#[verifier::rlimit(50)]
fn parse_hello_body(s: &str, n: usize, j0: usize) -> (r: Option<(Msg, usize)>)
    requires
        n == s@.len(),
        follows(s@, 0, "{\"type\":\"hello\",\"version\":"@),
        j0 == "{\"type\":\"hello\",\"version\":"@.len(),
    ensures
        r matches Some(p) ==> p.1 <= n,
        forall|m: Msg|
            #[trigger] whole_msg(s@, m) ==> (r matches Some(p) && crate::schema::msg_eqv(p.0, m)
                && p.1 == n),
{
    let (version, j1) = match parse_string(s, n, j0) {
        Some(p) => p,
        None => {
            proof {
                assert forall|m: Msg| #[trigger] whole_msg(s@, m) implies false by {
                    hello_case(s@, m);
                }
            }
            return None;
        },
    };
    let j2 = match expect_lit(s, n, j1, ",\"agent\":") {
        Some(j) => j,
        None => {
            proof {
                assert forall|m: Msg| #[trigger] whole_msg(s@, m) implies false by {
                    hello_case(s@, m);
                }
            }
            return None;
        },
    };
    let (agent, j3) = match parse_opt_str(s, n, j2) {
        Some(p) => p,
        None => {
            proof {
                assert forall|m: Msg| #[trigger] whole_msg(s@, m) implies false by {
                    hello_case(s@, m);
                }
            }
            return None;
        },
    };
    let j4 = match expect_lit(s, n, j3, "}") {
        Some(j) => j,
        None => {
            proof {
                assert forall|m: Msg| #[trigger] whole_msg(s@, m) implies false by {
                    hello_case(s@, m);
                }
            }
            return None;
        },
    };
    proof {
        assert forall|m: Msg| #[trigger] whole_msg(s@, m) implies (crate::schema::msg_eqv(
            Msg::Hello { version: version, agent: agent },
            m,
        ) && j4 == n) by {
            hello_case(s@, m);
        }
    }
    Some((Msg::Hello { version, agent }, j4))
}

/// Under a whole greeting text, exposes its pieces; other variants clash on
/// the tag character.
proof fn hello_case(s: Seq<char>, m: Msg)
    requires
        s == spec_enc_msg(m),
        follows(s, 0, "{\"type\":\"hello\",\"version\":"@),
    ensures
        m matches Msg::Hello { .. },
        (match m {
            Msg::Hello { version, agent } => follows(
                s,
                "{\"type\":\"hello\",\"version\":"@.len() as int,
                spec_enc_str(version@),
            ) && follows(
                s,
                "{\"type\":\"hello\",\"version\":"@.len() as int + spec_enc_str(version@).len(),
                ",\"agent\":"@,
            ) && follows(
                s,
                "{\"type\":\"hello\",\"version\":"@.len() as int + spec_enc_str(version@).len()
                    + ",\"agent\":"@.len(),
                spec_enc_opt_str(agent),
            ) && follows(
                s,
                "{\"type\":\"hello\",\"version\":"@.len() as int + spec_enc_str(version@).len()
                    + ",\"agent\":"@.len() as int + spec_enc_opt_str(agent).len(),
                "}"@,
            ) && s.len() == "{\"type\":\"hello\",\"version\":"@.len() as int + spec_enc_str(
                version@,
            ).len() + ",\"agent\":"@.len() as int + spec_enc_opt_str(agent).len() + 1,
            _ => false,
        }),
{
    lemma_whole_follows(s, m);
    lemma_msg_tag(s, m);
    reveal_strlit("{\"type\":\"hello\",\"version\":");
    lemma_follows_char(s, 0, "{\"type\":\"hello\",\"version\":"@, 9);
    match m {
        Msg::Hello { version, agent } => {
            lemma_hello_pieces(s, version@, agent);
        },
        _ => {},
    }
}

/// Reads the fields of an intent message after its fixed head.
#[verifier::rlimit(50)]
fn parse_intent_msg_body(s: &str, n: usize, j0: usize) -> (r: Option<(Msg, usize)>)
    requires
        n == s@.len(),
        follows(s@, 0, "{\"type\":\"intent\",\"seq\":"@),
        j0 == "{\"type\":\"intent\",\"seq\":"@.len(),
    ensures
        r matches Some(p) ==> p.1 <= n,
        forall|m: Msg|
            #[trigger] whole_msg(s@, m) ==> (r matches Some(p) && crate::schema::msg_eqv(p.0, m)
                && p.1 == n),
{
    let (sq, j1) = match parse_u64(s, n, j0) {
        Some(p) => p,
        None => {
            proof {
                assert forall|m: Msg| #[trigger] whole_msg(s@, m) implies false by {
                    intent_msg_case(s@, m);
                }
            }
            return None;
        },
    };
    let j2 = match expect_lit(s, n, j1, ",\"data\":") {
        Some(j) => j,
        None => {
            proof {
                assert forall|m: Msg| #[trigger] whole_msg(s@, m) implies false by {
                    intent_msg_case(s@, m);
                }
            }
            return None;
        },
    };
    let (data, j3) = match parse_intent(s, n, j2) {
        Some(p) => p,
        None => {
            proof {
                assert forall|m: Msg| #[trigger] whole_msg(s@, m) implies false by {
                    intent_msg_case(s@, m);
                }
            }
            return None;
        },
    };
    let j4 = match expect_lit(s, n, j3, "}") {
        Some(j) => j,
        None => {
            proof {
                assert forall|m: Msg| #[trigger] whole_msg(s@, m) implies false by {
                    intent_msg_case(s@, m);
                }
            }
            return None;
        },
    };
    proof {
        assert forall|m: Msg| #[trigger] whole_msg(s@, m) implies (crate::schema::msg_eqv(
            Msg::Intent { seq: sq, data: data },
            m,
        ) && j4 == n) by {
            intent_msg_case(s@, m);
        }
    }
    Some((Msg::Intent { seq: sq, data }, j4))
}

/// Under a whole intent-message text, exposes its pieces.
proof fn intent_msg_case(s: Seq<char>, m: Msg)
    requires
        s == spec_enc_msg(m),
        follows(s, 0, "{\"type\":\"intent\",\"seq\":"@),
    ensures
        m matches Msg::Intent { .. },
        (match m {
            Msg::Intent { seq, data } => follows(
                s,
                "{\"type\":\"intent\",\"seq\":"@.len() as int,
                spec_enc_u64(seq),
            ) && non_digit_at(s, "{\"type\":\"intent\",\"seq\":"@.len() as int + spec_enc_u64(seq).len())
                && follows(
                s,
                "{\"type\":\"intent\",\"seq\":"@.len() as int + spec_enc_u64(seq).len(),
                ",\"data\":"@,
            ) && follows(
                s,
                "{\"type\":\"intent\",\"seq\":"@.len() as int + spec_enc_u64(seq).len()
                    + ",\"data\":"@.len(),
                spec_enc_intent(data),
            ) && follows(
                s,
                "{\"type\":\"intent\",\"seq\":"@.len() as int + spec_enc_u64(seq).len()
                    + ",\"data\":"@.len() as int + spec_enc_intent(data).len(),
                "}"@,
            ) && s.len() == "{\"type\":\"intent\",\"seq\":"@.len() as int + spec_enc_u64(seq).len()
                + ",\"data\":"@.len() as int + spec_enc_intent(data).len() + 1,
            _ => false,
        }),
{
    lemma_whole_follows(s, m);
    lemma_msg_tag(s, m);
    reveal_strlit("{\"type\":\"intent\",\"seq\":");
    lemma_follows_char(s, 0, "{\"type\":\"intent\",\"seq\":"@, 9);
    match m {
        Msg::Intent { seq, data } => {
            lemma_intent_msg_pieces(s, seq, data);
        },
        _ => {},
    }
}

/// Reads the fields of an acknowledgment after its fixed head.
#[verifier::rlimit(50)]
fn parse_ack_body(s: &str, n: usize, j0: usize) -> (r: Option<(Msg, usize)>)
    requires
        n == s@.len(),
        follows(s@, 0, "{\"type\":\"ack\",\"seq\":"@),
        j0 == "{\"type\":\"ack\",\"seq\":"@.len(),
    ensures
        r matches Some(p) ==> p.1 <= n,
        forall|m: Msg|
            #[trigger] whole_msg(s@, m) ==> (r matches Some(p) && crate::schema::msg_eqv(p.0, m)
                && p.1 == n),
{
    let (sq, j1) = match parse_u64(s, n, j0) {
        Some(p) => p,
        None => {
            proof {
                assert forall|m: Msg| #[trigger] whole_msg(s@, m) implies false by {
                    ack_case(s@, m);
                }
            }
            return None;
        },
    };
    let j2 = match expect_lit(s, n, j1, ",\"tick\":") {
        Some(j) => j,
        None => {
            proof {
                assert forall|m: Msg| #[trigger] whole_msg(s@, m) implies false by {
                    ack_case(s@, m);
                }
            }
            return None;
        },
    };
    let (tk, j3) = match parse_u64(s, n, j2) {
        Some(p) => p,
        None => {
            proof {
                assert forall|m: Msg| #[trigger] whole_msg(s@, m) implies false by {
                    ack_case(s@, m);
                }
            }
            return None;
        },
    };
    let j4 = match expect_lit(s, n, j3, "}") {
        Some(j) => j,
        None => {
            proof {
                assert forall|m: Msg| #[trigger] whole_msg(s@, m) implies false by {
                    ack_case(s@, m);
                }
            }
            return None;
        },
    };
    proof {
        assert forall|m: Msg| #[trigger] whole_msg(s@, m) implies (crate::schema::msg_eqv(
            Msg::Ack { seq: sq, tick: tk },
            m,
        ) && j4 == n) by {
            ack_case(s@, m);
        }
    }
    Some((Msg::Ack { seq: sq, tick: tk }, j4))
}

/// Under a whole acknowledgment text, exposes its pieces.
proof fn ack_case(s: Seq<char>, m: Msg)
    requires
        s == spec_enc_msg(m),
        follows(s, 0, "{\"type\":\"ack\",\"seq\":"@),
    ensures
        m matches Msg::Ack { .. },
        (match m {
            Msg::Ack { seq, tick } => follows(
                s,
                "{\"type\":\"ack\",\"seq\":"@.len() as int,
                spec_enc_u64(seq),
            ) && non_digit_at(s, "{\"type\":\"ack\",\"seq\":"@.len() as int + spec_enc_u64(seq).len())
                && follows(
                s,
                "{\"type\":\"ack\",\"seq\":"@.len() as int + spec_enc_u64(seq).len(),
                ",\"tick\":"@,
            ) && follows(
                s,
                "{\"type\":\"ack\",\"seq\":"@.len() as int + spec_enc_u64(seq).len()
                    + ",\"tick\":"@.len(),
                spec_enc_u64(tick),
            ) && non_digit_at(
                s,
                "{\"type\":\"ack\",\"seq\":"@.len() as int + spec_enc_u64(seq).len()
                    + ",\"tick\":"@.len() as int + spec_enc_u64(tick).len(),
            ) && follows(
                s,
                "{\"type\":\"ack\",\"seq\":"@.len() as int + spec_enc_u64(seq).len()
                    + ",\"tick\":"@.len() as int + spec_enc_u64(tick).len(),
                "}"@,
            ) && s.len() == "{\"type\":\"ack\",\"seq\":"@.len() as int + spec_enc_u64(seq).len()
                + ",\"tick\":"@.len() as int + spec_enc_u64(tick).len() + 1,
            _ => false,
        }),
{
    lemma_whole_follows(s, m);
    lemma_msg_tag(s, m);
    reveal_strlit("{\"type\":\"ack\",\"seq\":");
    lemma_follows_char(s, 0, "{\"type\":\"ack\",\"seq\":"@, 9);
    match m {
        Msg::Ack { seq, tick } => {
            lemma_ack_pieces(s, seq, tick);
        },
        _ => {},
    }
}

/// Reads the fields of an error report after its fixed head.
#[verifier::rlimit(50)]
fn parse_error_body(s: &str, n: usize, j0: usize) -> (r: Option<(Msg, usize)>)
    requires
        n == s@.len(),
        follows(s@, 0, "{\"type\":\"error\",\"seq\":"@),
        j0 == "{\"type\":\"error\",\"seq\":"@.len(),
    ensures
        r matches Some(p) ==> p.1 <= n,
        forall|m: Msg|
            #[trigger] whole_msg(s@, m) ==> (r matches Some(p) && crate::schema::msg_eqv(p.0, m)
                && p.1 == n),
{
    let (sq, j1) = match parse_opt_u64(s, n, j0) {
        Some(p) => p,
        None => {
            proof {
                assert forall|m: Msg| #[trigger] whole_msg(s@, m) implies false by {
                    error_case(s@, m);
                }
            }
            return None;
        },
    };
    let j2 = match expect_lit(s, n, j1, ",\"reason\":") {
        Some(j) => j,
        None => {
            proof {
                assert forall|m: Msg| #[trigger] whole_msg(s@, m) implies false by {
                    error_case(s@, m);
                }
            }
            return None;
        },
    };
    let (reason, j3) = match parse_string(s, n, j2) {
        Some(p) => p,
        None => {
            proof {
                assert forall|m: Msg| #[trigger] whole_msg(s@, m) implies false by {
                    error_case(s@, m);
                }
            }
            return None;
        },
    };
    let j4 = match expect_lit(s, n, j3, "}") {
        Some(j) => j,
        None => {
            proof {
                assert forall|m: Msg| #[trigger] whole_msg(s@, m) implies false by {
                    error_case(s@, m);
                }
            }
            return None;
        },
    };
    proof {
        assert forall|m: Msg| #[trigger] whole_msg(s@, m) implies (crate::schema::msg_eqv(
            Msg::Error { seq: sq, reason: reason },
            m,
        ) && j4 == n) by {
            error_case(s@, m);
        }
    }
    Some((Msg::Error { seq: sq, reason }, j4))
}

/// Under a whole error text, exposes its pieces.
proof fn error_case(s: Seq<char>, m: Msg)
    requires
        s == spec_enc_msg(m),
        follows(s, 0, "{\"type\":\"error\",\"seq\":"@),
    ensures
        m matches Msg::Error { .. },
        (match m {
            Msg::Error { seq, reason } => follows(
                s,
                "{\"type\":\"error\",\"seq\":"@.len() as int,
                spec_enc_opt_u64(seq),
            ) && non_digit_at(
                s,
                "{\"type\":\"error\",\"seq\":"@.len() as int + spec_enc_opt_u64(seq).len(),
            ) && follows(
                s,
                "{\"type\":\"error\",\"seq\":"@.len() as int + spec_enc_opt_u64(seq).len(),
                ",\"reason\":"@,
            ) && follows(
                s,
                "{\"type\":\"error\",\"seq\":"@.len() as int + spec_enc_opt_u64(seq).len()
                    + ",\"reason\":"@.len(),
                spec_enc_str(reason@),
            ) && follows(
                s,
                "{\"type\":\"error\",\"seq\":"@.len() as int + spec_enc_opt_u64(seq).len()
                    + ",\"reason\":"@.len() as int + spec_enc_str(reason@).len(),
                "}"@,
            ) && s.len() == "{\"type\":\"error\",\"seq\":"@.len() as int + spec_enc_opt_u64(seq).len()
                + ",\"reason\":"@.len() as int + spec_enc_str(reason@).len() + 1,
            _ => false,
        }),
{
    lemma_whole_follows(s, m);
    lemma_msg_tag(s, m);
    reveal_strlit("{\"type\":\"error\",\"seq\":");
    lemma_follows_char(s, 0, "{\"type\":\"error\",\"seq\":"@, 9);
    match m {
        Msg::Error { seq, reason } => {
            lemma_error_pieces(s, seq, reason@);
        },
        _ => {},
    }
}

/// Under a whole state-broadcast text, exposes its pieces.
proof fn state_case(s: Seq<char>, m: Msg)
    requires
        s == spec_enc_msg(m),
        follows(s, 0, "{\"type\":\"state\",\"tick\":"@),
    ensures
        m matches Msg::State { .. },
        (match m {
            Msg::State { tick, tick_rate, data } => follows(
                s,
                "{\"type\":\"state\",\"tick\":"@.len() as int,
                spec_enc_u64(tick),
            ) && non_digit_at(
                s,
                "{\"type\":\"state\",\"tick\":"@.len() as int + spec_enc_u64(tick).len(),
            ) && follows(
                s,
                "{\"type\":\"state\",\"tick\":"@.len() as int + spec_enc_u64(tick).len(),
                ",\"tick_rate\":"@,
            ) && follows(
                s,
                "{\"type\":\"state\",\"tick\":"@.len() as int + spec_enc_u64(tick).len()
                    + ",\"tick_rate\":"@.len(),
                dec_digits(tick_rate as nat),
            ) && non_digit_at(
                s,
                "{\"type\":\"state\",\"tick\":"@.len() as int + spec_enc_u64(tick).len()
                    + ",\"tick_rate\":"@.len() + dec_digits(tick_rate as nat).len(),
            ) && follows(
                s,
                "{\"type\":\"state\",\"tick\":"@.len() as int + spec_enc_u64(tick).len()
                    + ",\"tick_rate\":"@.len() + dec_digits(tick_rate as nat).len(),
                ",\"data\":"@,
            ) && follows(
                s,
                "{\"type\":\"state\",\"tick\":"@.len() as int + spec_enc_u64(tick).len()
                    + ",\"tick_rate\":"@.len() + dec_digits(tick_rate as nat).len()
                    + ",\"data\":"@.len(),
                spec_enc_state(data),
            ) && follows(
                s,
                "{\"type\":\"state\",\"tick\":"@.len() as int + spec_enc_u64(tick).len()
                    + ",\"tick_rate\":"@.len() + dec_digits(tick_rate as nat).len()
                    + ",\"data\":"@.len() + spec_enc_state(data).len(),
                "}"@,
            ) && s.len() == "{\"type\":\"state\",\"tick\":"@.len() as int + spec_enc_u64(
                tick,
            ).len() + ",\"tick_rate\":"@.len() + dec_digits(tick_rate as nat).len()
                + ",\"data\":"@.len() + spec_enc_state(data).len() + 1,
            _ => false,
        }),
{
    lemma_whole_follows(s, m);
    lemma_msg_tag(s, m);
    reveal_strlit("{\"type\":\"state\",\"tick\":");
    lemma_follows_char(s, 0, "{\"type\":\"state\",\"tick\":"@, 9);
    match m {
        Msg::State { tick, tick_rate, data } => {
            lemma_seven_pieces(
                s,
                0,
                "{\"type\":\"state\",\"tick\":"@,
                spec_enc_u64(tick),
                ",\"tick_rate\":"@,
                dec_digits(tick_rate as nat),
                ",\"data\":"@,
                spec_enc_state(data),
                "}"@,
            );
            reveal_strlit(",\"tick_rate\":");
            reveal_strlit(",\"data\":");
            reveal_strlit("}");
            assert(!is_digit_char(','));
            lemma_follows_char(
                s,
                "{\"type\":\"state\",\"tick\":"@.len() as int + spec_enc_u64(tick).len(),
                ",\"tick_rate\":"@,
                0,
            );
            lemma_follows_char(
                s,
                "{\"type\":\"state\",\"tick\":"@.len() as int + spec_enc_u64(tick).len()
                    + ",\"tick_rate\":"@.len() + dec_digits(tick_rate as nat).len(),
                ",\"data\":"@,
                0,
            );
        },
        _ => {},
    }
}

/// Reads the fields of a state broadcast after its fixed head.
#[verifier::rlimit(100)]
fn parse_state_msg_body(s: &str, n: usize, j0: usize) -> (r: Option<(Msg, usize)>)
    requires
        n == s@.len(),
        follows(s@, 0, "{\"type\":\"state\",\"tick\":"@),
        j0 == "{\"type\":\"state\",\"tick\":"@.len(),
    ensures
        r matches Some(p) ==> p.1 <= n,
        forall|m: Msg|
            #[trigger] whole_msg(s@, m) ==> (r matches Some(p) && crate::schema::msg_eqv(p.0, m)
                && p.1 == n),
{
    let r1 = parse_u64(s, n, j0);
    let r2 = match r1 {
        Some((_, j)) => expect_lit(s, n, j, ",\"tick_rate\":"),
        None => None,
    };
    let r3 = match r2 {
        Some(j) => parse_u64(s, n, j),
        None => None,
    };
    let r4 = match r3 {
        Some((v, j)) => if v <= 4294967295 {
            expect_lit(s, n, j, ",\"data\":")
        } else {
            None
        },
        None => None,
    };
    let r5 = match r4 {
        Some(j) => parse_state(s, n, j),
        None => None,
    };
    let r6 = match &r5 {
        Some((_, j)) => expect_lit(s, n, *j, "}"),
        None => None,
    };
    match (r1, r3, r5, r6) {
        (Some((tick, _)), Some((rate, _)), Some((data, _)), Some(j6)) => {
            let out = Msg::State { tick, tick_rate: rate as u32, data };
            proof {
                assert forall|m: Msg| #[trigger] whole_msg(s@, m) implies (
                crate::schema::msg_eqv(out, m) && j6 == n) by {
                    state_case(s@, m);
                    match m {
                        Msg::State { tick: t2, tick_rate: r2v, data: d2 } => {
                            assert(r2v as nat == (r2v as u64) as nat);
                            assert(follows(
                                s@,
                                "{\"type\":\"state\",\"tick\":"@.len() as int + spec_enc_u64(
                                    t2,
                                ).len() + ",\"tick_rate\":"@.len(),
                                spec_enc_u64(r2v as u64),
                            ));
                        },
                        _ => {},
                    }
                }
            }
            Some((out, j6))
        },
        _ => {
            proof {
                assert forall|m: Msg| #[trigger] whole_msg(s@, m) implies false by {
                    state_case(s@, m);
                    match m {
                        Msg::State { tick: t2, tick_rate: r2v, data: d2 } => {
                            assert(r2v as nat == (r2v as u64) as nat);
                            assert(follows(
                                s@,
                                "{\"type\":\"state\",\"tick\":"@.len() as int + spec_enc_u64(
                                    t2,
                                ).len() + ",\"tick_rate\":"@.len(),
                                spec_enc_u64(r2v as u64),
                            ));
                        },
                        _ => {},
                    }
                }
            }
            None
        },
    }
}

/// Reads one whole message text: exactly the canonical encodings parse.
#[verifier::rlimit(50)]
fn parse_msg(s: &str, n: usize) -> (r: Option<(Msg, usize)>)
    requires
        n == s@.len(),
    ensures
        r matches Some(p) ==> p.1 <= n,
        forall|m: Msg|
            #[trigger] whole_msg(s@, m) ==> (r matches Some(p) && crate::schema::msg_eqv(p.0, m)
                && p.1 == n),
{
    if let Some(j0) = expect_lit(s, n, 0, "{\"type\":\"hello\",\"version\":") {
        return parse_hello_body(s, n, j0);
    }
    if let Some(j0) = expect_lit(s, n, 0, "{\"type\":\"state\",\"tick\":") {
        return parse_state_msg_body(s, n, j0);
    }
    if let Some(j0) = expect_lit(s, n, 0, "{\"type\":\"intent\",\"seq\":") {
        return parse_intent_msg_body(s, n, j0);
    }
    if let Some(j0) = expect_lit(s, n, 0, "{\"type\":\"ack\",\"seq\":") {
        return parse_ack_body(s, n, j0);
    }
    if let Some(j0) = expect_lit(s, n, 0, "{\"type\":\"error\",\"seq\":") {
        return parse_error_body(s, n, j0);
    }
    if let Some(j) = expect_lit(s, n, 0, "{\"type\":\"ping\"}") {
        proof {
            assert forall|m: Msg| #[trigger] whole_msg(s@, m) implies (crate::schema::msg_eqv(
                Msg::Ping,
                m,
            ) && j == n) by {
                lemma_whole_follows(s@, m);
                lemma_msg_tag(s@, m);
                reveal_strlit("{\"type\":\"ping\"}");
                lemma_follows_char(s@, 0, "{\"type\":\"ping\"}"@, 9);
                lemma_follows_char(s@, 0, "{\"type\":\"ping\"}"@, 10);
            }
        }
        return Some((Msg::Ping, j));
    }
    if let Some(j) = expect_lit(s, n, 0, "{\"type\":\"pong\"}") {
        proof {
            assert forall|m: Msg| #[trigger] whole_msg(s@, m) implies (crate::schema::msg_eqv(
                Msg::Pong,
                m,
            ) && j == n) by {
                lemma_whole_follows(s@, m);
                lemma_msg_tag(s@, m);
                reveal_strlit("{\"type\":\"pong\"}");
                lemma_follows_char(s@, 0, "{\"type\":\"pong\"}"@, 9);
                lemma_follows_char(s@, 0, "{\"type\":\"pong\"}"@, 10);
            }
        }
        return Some((Msg::Pong, j));
    }
    proof {
        assert forall|m: Msg| #[trigger] whole_msg(s@, m) implies false by {
            lemma_whole_follows(s@, m);
            match m {
                Msg::Hello { version, agent } => {
                    lemma_five_pieces(
                        s@,
                        0,
                        "{\"type\":\"hello\",\"version\":"@,
                        spec_enc_str(version@),
                        ",\"agent\":"@,
                        spec_enc_opt_str(agent),
                        "}"@,
                    );
                },
                Msg::State { tick, tick_rate, data } => {
                    lemma_seven_pieces(
                        s@,
                        0,
                        "{\"type\":\"state\",\"tick\":"@,
                        spec_enc_u64(tick),
                        ",\"tick_rate\":"@,
                        dec_digits(tick_rate as nat),
                        ",\"data\":"@,
                        spec_enc_state(data),
                        "}"@,
                    );
                },
                Msg::Intent { seq, data } => {
                    lemma_five_pieces(
                        s@,
                        0,
                        "{\"type\":\"intent\",\"seq\":"@,
                        spec_enc_u64(seq),
                        ",\"data\":"@,
                        spec_enc_intent(data),
                        "}"@,
                    );
                },
                Msg::Ack { seq, tick } => {
                    lemma_five_pieces(
                        s@,
                        0,
                        "{\"type\":\"ack\",\"seq\":"@,
                        spec_enc_u64(seq),
                        ",\"tick\":"@,
                        spec_enc_u64(tick),
                        "}"@,
                    );
                },
                Msg::Error { seq, reason } => {
                    lemma_five_pieces(
                        s@,
                        0,
                        "{\"type\":\"error\",\"seq\":"@,
                        spec_enc_opt_u64(seq),
                        ",\"reason\":"@,
                        spec_enc_str(reason@),
                        "}"@,
                    );
                },
                Msg::Ping => {},
                Msg::Pong => {},
            }
        }
    }
    None
}

proof fn lemma_mons_rest_eqv_enc(a: Seq<Mon>, b: Seq<Mon>)
    requires
        crate::schema::mons_eqv(a, b),
    ensures
        spec_enc_mons_rest(a) == spec_enc_mons_rest(b),
    decreases a.len(),
{
    if a.len() > 0 {
        assert(crate::schema::mon_eqv(a[0], b[0]));
        assert(spec_enc_pos(a[0].pos) == spec_enc_pos(b[0].pos));
        assert(spec_enc_mon(a[0]) == spec_enc_mon(b[0]));
        assert(crate::schema::mons_eqv(a.skip(1), b.skip(1))) by {
            assert forall|k: int|
                0 <= k < a.skip(1).len() implies crate::schema::mon_eqv(
                #[trigger] a.skip(1)[k],
                b.skip(1)[k],
            ) by {
                assert(a.skip(1)[k] == a[k + 1]);
                assert(b.skip(1)[k] == b[k + 1]);
                assert(crate::schema::mon_eqv(a[k + 1], b[k + 1]));
            }
        }
        lemma_mons_rest_eqv_enc(a.skip(1), b.skip(1));
    }
}

proof fn lemma_mons_eqv_enc(a: Seq<Mon>, b: Seq<Mon>)
    requires
        crate::schema::mons_eqv(a, b),
    ensures
        spec_enc_mons(a) == spec_enc_mons(b),
{
    if a.len() > 0 {
        assert(crate::schema::mon_eqv(a[0], b[0]));
        assert(spec_enc_pos(a[0].pos) == spec_enc_pos(b[0].pos));
        assert(spec_enc_mon(a[0]) == spec_enc_mon(b[0]));
        assert(crate::schema::mons_eqv(a.skip(1), b.skip(1))) by {
            assert forall|k: int|
                0 <= k < a.skip(1).len() implies crate::schema::mon_eqv(
                #[trigger] a.skip(1)[k],
                b.skip(1)[k],
            ) by {
                assert(a.skip(1)[k] == a[k + 1]);
                assert(b.skip(1)[k] == b[k + 1]);
                assert(crate::schema::mon_eqv(a[k + 1], b[k + 1]));
            }
        }
        lemma_mons_rest_eqv_enc(a.skip(1), b.skip(1));
    }
}

proof fn lemma_items_rest_eqv_enc(a: Seq<Item>, b: Seq<Item>)
    requires
        crate::schema::items_eqv(a, b),
    ensures
        spec_enc_items_rest(a) == spec_enc_items_rest(b),
    decreases a.len(),
{
    if a.len() > 0 {
        assert(crate::schema::item_eqv(a[0], b[0]));
        assert(spec_enc_pos(a[0].pos) == spec_enc_pos(b[0].pos));
        assert(spec_enc_item(a[0]) == spec_enc_item(b[0]));
        assert(crate::schema::items_eqv(a.skip(1), b.skip(1))) by {
            assert forall|k: int|
                0 <= k < a.skip(1).len() implies crate::schema::item_eqv(
                #[trigger] a.skip(1)[k],
                b.skip(1)[k],
            ) by {
                assert(a.skip(1)[k] == a[k + 1]);
                assert(b.skip(1)[k] == b[k + 1]);
                assert(crate::schema::item_eqv(a[k + 1], b[k + 1]));
            }
        }
        lemma_items_rest_eqv_enc(a.skip(1), b.skip(1));
    }
}

proof fn lemma_items_eqv_enc(a: Seq<Item>, b: Seq<Item>)
    requires
        crate::schema::items_eqv(a, b),
    ensures
        spec_enc_items(a) == spec_enc_items(b),
{
    if a.len() > 0 {
        assert(crate::schema::item_eqv(a[0], b[0]));
        assert(spec_enc_pos(a[0].pos) == spec_enc_pos(b[0].pos));
        assert(spec_enc_item(a[0]) == spec_enc_item(b[0]));
        assert(crate::schema::items_eqv(a.skip(1), b.skip(1))) by {
            assert forall|k: int|
                0 <= k < a.skip(1).len() implies crate::schema::item_eqv(
                #[trigger] a.skip(1)[k],
                b.skip(1)[k],
            ) by {
                assert(a.skip(1)[k] == a[k + 1]);
                assert(b.skip(1)[k] == b[k + 1]);
                assert(crate::schema::item_eqv(a[k + 1], b[k + 1]));
            }
        }
        lemma_items_rest_eqv_enc(a.skip(1), b.skip(1));
    }
}

proof fn lemma_units_rest_eqv_enc(a: Seq<()>, b: Seq<()>)
    requires
        a.len() == b.len(),
    ensures
        spec_enc_units_rest(a) == spec_enc_units_rest(b),
    decreases a.len(),
{
    if a.len() > 0 {
        lemma_units_rest_eqv_enc(a.skip(1), b.skip(1));
    }
}

proof fn lemma_units_eqv_enc(a: Seq<()>, b: Seq<()>)
    requires
        a.len() == b.len(),
    ensures
        spec_enc_units(a) == spec_enc_units(b),
{
    if a.len() > 0 {
        lemma_units_rest_eqv_enc(a.skip(1), b.skip(1));
    }
}

/// Equivalent messages have the same canonical text.
proof fn lemma_msg_eqv_enc(a: Msg, b: Msg)
    requires
        crate::schema::msg_eqv(a, b),
    ensures
        spec_enc_msg(a) == spec_enc_msg(b),
{
    match (a, b) {
        (
            Msg::State { tick: t1, tick_rate: r1, data: d1 },
            Msg::State { tick: t2, tick_rate: r2, data: d2 },
        ) => {
            assert(spec_enc_pos(d1.player.pos) == spec_enc_pos(d2.player.pos));
            assert(spec_enc_player(d1.player) == spec_enc_player(d2.player));
            lemma_mons_eqv_enc(d1.nearby.monsters@, d2.nearby.monsters@);
            lemma_items_eqv_enc(d1.nearby.items@, d2.nearby.items@);
            lemma_units_eqv_enc(d1.nearby.other_players@, d2.nearby.other_players@);
            assert(spec_enc_nearby(d1.nearby) == spec_enc_nearby(d2.nearby));
            assert(spec_enc_state(d1) == spec_enc_state(d2));
        },
        (Msg::Hello { version: v1, agent: a1 }, Msg::Hello { version: v2, agent: a2 }) => {
            match (a1, a2) {
                (Option::Some(x), Option::Some(y)) => {
                    assert(spec_enc_opt_str(a1) == spec_enc_opt_str(a2));
                },
                _ => {},
            }
        },
        (Msg::Intent { seq: s1, data: d1 }, Msg::Intent { seq: s2, data: d2 }) => {
            match (d1, d2) {
                (Intent::Say { text: t1 }, Intent::Say { text: t2 }) => {
                    assert(spec_enc_intent(d1) == spec_enc_intent(d2));
                },
                _ => {},
            }
        },
        _ => {},
    }
}

/// Decode a wire frame. Exactly the canonical encodings are accepted:
/// whatever is returned `Ok` re-encodes to the input text, every canonical
/// message text is accepted and returns the encoded message, and all other
/// text is rejected.
pub fn decode(s: &str) -> (r: Result<Msg, DecodeError>)
    ensures
        r matches Ok(m) ==> s@ == spec_enc_msg(m),
        forall|m: Msg|
            #[trigger] whole_msg(s@, m) ==> (r matches Ok(d) && crate::schema::msg_eqv(d, m)),
        r matches Err(e) ==> e == DecodeError::Malformed,
{
    let n = s.unicode_len();
    match parse_msg(s, n) {
        None => Err(DecodeError::Malformed),
        Some((m0, j)) => {
            if j != n {
                return Err(DecodeError::Malformed);
            }
            let e = encode(&m0);
            if str_eq(e.as_str(), s) {
                Ok(m0)
            } else {
                proof {
                    assert forall|m: Msg| #[trigger] whole_msg(s@, m) implies false by {
                        lemma_msg_eqv_enc(m0, m);
                    }
                }
                Err(DecodeError::Malformed)
            }
        },
    }
}

/// Character-for-character equality of two text slices.
fn str_eq(a: &str, b: &str) -> (r: bool)
    ensures
        r == (a@ == b@),
{
    let na = a.unicode_len();
    let nb = b.unicode_len();
    if na != nb {
        return false;
    }
    let mut k: usize = 0;
    while k < na
        invariant
            na == a@.len(),
            na == b@.len(),
            k <= na,
            forall|q: int| 0 <= q < k ==> a@[q] == b@[q],
        decreases na - k,
    {
        if a.get_char(k) != b.get_char(k) {
            return false;
        }
        k = k + 1;
    }
    proof {
        assert(a@ =~= b@);
    }
    true
}


} // verus!
