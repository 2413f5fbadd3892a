//! Intent aggregation: one periodic sweep takes everything the connections
//! pushed into the shared buffer since the last sweep and turns it into the
//! ordered batch handed to the simulation. Pass-through intents keep arrival
//! order, critical intents (potions, stops) are never dropped, and all
//! movement collapses to the last destination observed in the sweep.

use vstd::prelude::*;
use crate::schema::Intent;

verus! {

/// Milliseconds between two aggregator sweeps, one global cadence.
pub const SWEEP_INTERVAL_MS: u64 = 16;

/// Movement class: superseded by any later movement in the same sweep.
pub open spec fn is_move(i: Intent) -> bool {
    i matches Intent::MoveTo { .. }
}

/// Critical class: must reach the simulation even when several arrive in one sweep.
pub open spec fn is_critical(i: Intent) -> bool {
    ||| i matches Intent::UsePotion { .. }
    ||| i matches Intent::Stop { .. }
}

/// Pass-through class: forwarded one by one in arrival order.
pub open spec fn is_other(i: Intent) -> bool {
    !is_move(i) && !is_critical(i)
}

/// The subsequence of `s` whose elements satisfy `p`, in order.
pub open spec fn keep(s: Seq<Intent>, p: spec_fn(Intent) -> bool) -> Seq<Intent>
    decreases s.len(),
{
    if s.len() == 0 {
        Seq::empty()
    } else if p(s.last()) {
        keep(s.drop_last(), p) + seq![s.last()]
    } else {
        keep(s.drop_last(), p)
    }
}

/// The last movement intent of the sweep, if any arrived.
pub open spec fn last_move(s: Seq<Intent>) -> Option<Intent>
    decreases s.len(),
{
    if s.len() == 0 {
        None
    } else if is_move(s.last()) {
        Some(s.last())
    } else {
        last_move(s.drop_last())
    }
}

/// What one sweep forwards for a taken buffer `s`: pass-through intents in
/// arrival order, then every critical intent in arrival order, then the last
/// movement intent alone.
pub open spec fn coalesced(s: Seq<Intent>) -> Seq<Intent> {
    keep(s, |i: Intent| is_other(i)) + keep(s, |i: Intent| is_critical(i)) + (
    match last_move(s) {
        Some(m) => seq![m],
        None => Seq::<Intent>::empty(),
    })
}

proof fn lemma_keep_append(a: Seq<Intent>, b: Seq<Intent>, p: spec_fn(Intent) -> bool)
    ensures
        keep(a + b, p) == keep(a, p) + keep(b, p),
    decreases b.len(),
{
    if b.len() == 0 {
        assert(a + b =~= a);
        assert(keep(a, p) + keep(b, p) =~= keep(a, p));
    } else {
        assert((a + b).drop_last() =~= a + b.drop_last());
        assert((a + b).last() == b.last());
        lemma_keep_append(a, b.drop_last(), p);
        if p(b.last()) {
            assert(keep(a, p) + keep(b, p) =~= keep(a, p) + keep(b.drop_last(), p) + seq![
                b.last(),
            ]);
        }
    }
}

proof fn lemma_keep_id(s: Seq<Intent>, p: spec_fn(Intent) -> bool)
    requires
        forall|j: int| 0 <= j < s.len() ==> p(s[j]),
    ensures
        keep(s, p) == s,
    decreases s.len(),
{
    if s.len() == 0 {
        assert(keep(s, p) =~= s);
    } else {
        lemma_keep_id(s.drop_last(), p);
        assert(keep(s.drop_last(), p) + seq![s.last()] =~= s);
    }
}

proof fn lemma_keep_none(s: Seq<Intent>, p: spec_fn(Intent) -> bool)
    requires
        forall|j: int| 0 <= j < s.len() ==> !p(s[j]),
    ensures
        keep(s, p) == Seq::<Intent>::empty(),
    decreases s.len(),
{
    if s.len() > 0 {
        lemma_keep_none(s.drop_last(), p);
    }
}

proof fn lemma_keep_sat(s: Seq<Intent>, p: spec_fn(Intent) -> bool)
    ensures
        forall|j: int| 0 <= j < keep(s, p).len() ==> p(#[trigger] keep(s, p)[j]),
    decreases s.len(),
{
    if s.len() > 0 {
        lemma_keep_sat(s.drop_last(), p);
        if p(s.last()) {
            let pre = keep(s.drop_last(), p);
            assert forall|j: int| 0 <= j < keep(s, p).len() implies p(
                #[trigger] keep(s, p)[j],
            ) by {
                if j < pre.len() {
                    assert(keep(s, p)[j] == pre[j]);
                } else {
                    assert(keep(s, p)[j] == s.last());
                }
            }
        }
    }
}

proof fn lemma_last_move_is_move(s: Seq<Intent>)
    ensures
        last_move(s) matches Some(m) ==> is_move(m),
    decreases s.len(),
{
    if s.len() > 0 && !is_move(s.last()) {
        lemma_last_move_is_move(s.drop_last());
    }
}

/// Law: a sweep never drops a critical intent, never invents one, and keeps
/// their arrival order — the critical intents of the forwarded batch are
/// exactly the critical intents of the taken buffer.
pub proof fn lemma_criticals_kept(s: Seq<Intent>)
    ensures
        keep(coalesced(s), |i: Intent| is_critical(i)) == keep(
            s,
            |i: Intent| is_critical(i),
        ),
{
    let po = |i: Intent| is_other(i);
    let pc = |i: Intent| is_critical(i);
    let tail: Seq<Intent> = match last_move(s) {
        Some(m) => seq![m],
        None => Seq::<Intent>::empty(),
    };
    lemma_keep_append(keep(s, po) + keep(s, pc), tail, pc);
    lemma_keep_append(keep(s, po), keep(s, pc), pc);
    lemma_keep_sat(s, po);
    lemma_keep_none(keep(s, po), pc);
    lemma_keep_sat(s, pc);
    lemma_keep_id(keep(s, pc), pc);
    lemma_last_move_is_move(s);
    lemma_keep_none(tail, pc);
    assert(keep(coalesced(s), pc) =~= keep(s, pc));
}

/// Law: a sweep forwards every pass-through intent, none twice, in
/// arrival order — the pass-through intents of the forwarded batch are
/// exactly those of the taken buffer.
pub proof fn lemma_others_kept(s: Seq<Intent>)
    ensures
        keep(coalesced(s), |i: Intent| is_other(i)) == keep(s, |i: Intent| is_other(i)),
{
    let po = |i: Intent| is_other(i);
    let pc = |i: Intent| is_critical(i);
    let tail: Seq<Intent> = match last_move(s) {
        Some(m) => seq![m],
        None => Seq::<Intent>::empty(),
    };
    lemma_keep_append(keep(s, po) + keep(s, pc), tail, po);
    lemma_keep_append(keep(s, po), keep(s, pc), po);
    lemma_keep_sat(s, po);
    lemma_keep_id(keep(s, po), po);
    lemma_keep_sat(s, pc);
    lemma_keep_none(keep(s, pc), po);
    lemma_last_move_is_move(s);
    lemma_keep_none(tail, po);
    assert(keep(coalesced(s), po) =~= keep(s, po));
}

/// Law: of all movement intents in a sweep only the last survives — the
/// movement intents of the forwarded batch are exactly that one (or none).
pub proof fn lemma_moves_coalesced(s: Seq<Intent>)
    ensures
        keep(coalesced(s), |i: Intent| is_move(i)) == (match last_move(s) {
            Some(m) => seq![m],
            None => Seq::<Intent>::empty(),
        }),
{
    let po = |i: Intent| is_other(i);
    let pc = |i: Intent| is_critical(i);
    let pm = |i: Intent| is_move(i);
    let tail: Seq<Intent> = match last_move(s) {
        Some(m) => seq![m],
        None => Seq::<Intent>::empty(),
    };
    lemma_keep_append(keep(s, po) + keep(s, pc), tail, pm);
    lemma_keep_append(keep(s, po), keep(s, pc), pm);
    lemma_keep_sat(s, po);
    lemma_keep_none(keep(s, po), pm);
    lemma_keep_sat(s, pc);
    lemma_keep_none(keep(s, pc), pm);
    lemma_last_move_is_move(s);
    lemma_keep_id(tail, pm);
    assert(keep(coalesced(s), pm) =~= tail);
}

/// One aggregator sweep: partition the intents taken from the shared buffer
/// and return the batch to forward, in forwarding order — pass-through
/// intents first (arrival order), then every critical intent (arrival
/// order), then the single surviving movement intent.
pub fn coalesce(buf: Vec<Intent>) -> (out: Vec<Intent>)
    ensures
        out@ == coalesced(buf@),
{
    let ghost orig = buf@;
    let mut buf = buf;
    let mut others: Vec<Intent> = Vec::new();
    let mut critical: Vec<Intent> = Vec::new();
    let mut lm: Option<Intent> = None;
    let ghost mut k: int = 0;
    while buf.len() > 0
        invariant
            0 <= k <= orig.len(),
            buf@ == orig.skip(k),
            others@ == keep(orig.take(k), |i: Intent| is_other(i)),
            critical@ == keep(orig.take(k), |i: Intent| is_critical(i)),
            lm == last_move(orig.take(k)),
        decreases buf.len(),
    {
        let ev = buf.remove(0);
        proof {
            assert(ev == orig[k]);
            assert(buf@ =~= orig.skip(k + 1));
            assert(orig.take(k + 1).drop_last() =~= orig.take(k));
            assert(orig.take(k + 1).last() == orig[k]);
        }
        match ev {
            Intent::MoveTo { .. } => {
                lm = Some(ev);
            },
            Intent::UsePotion { .. } => {
                critical.push(ev);
            },
            Intent::Stop { .. } => {
                critical.push(ev);
            },
            Intent::Say { .. } => {
                others.push(ev);
            },
        }
        proof {
            k = k + 1;
        }
    }
    proof {
        assert(orig.take(orig.len() as int) =~= orig);
    }
    let mut out = others;
    let mut critical = critical;
    out.append(&mut critical);
    match lm {
        Some(m) => {
            out.push(m);
            proof {
                assert(out@ =~= coalesced(orig));
            }
        },
        None => {
            proof {
                assert(out@ =~= coalesced(orig));
            }
        },
    }
    out
}

} // verus!
