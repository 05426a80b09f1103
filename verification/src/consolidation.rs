//! The decisions of the background filter consolidation: which tables a
//! round takes, and the bounded history of consolidations. Running a round
//! (threads, sleeping, the CPU gate) is left to the caller.
use vstd::prelude::*;
use crate::dump_manager::name_views;
use crate::text::str_eq;

verus! {

/// At most this many consolidations are kept in the history.
pub const HISTORY_LIMIT: usize = 1000;

/// The tables a round takes from the candidates, in order: each candidate
/// not already being consolidated, and not taken before in the round.
pub open spec fn round_tables(cands: Seq<Seq<char>>, busy: Set<Seq<char>>) -> Seq<Seq<char>>
    decreases cands.len(),
{
    if cands.len() == 0 {
        Seq::empty()
    } else {
        let prev = round_tables(cands.drop_last(), busy);
        let t = cands.last();
        if busy.contains(t) || prev.contains(t) {
            prev
        } else {
            prev.push(t)
        }
    }
}

/// Does the list hold the name?
fn holds_name(v: &Vec<String>, name: &str) -> (r: bool)
    ensures
        r == name_views(v@).contains(name@),
{
    let mut i: usize = 0;
    while i < v.len()
        invariant
            i <= v@.len(),
            forall|j: int| 0 <= j < i ==> v@[j]@ != name@,
        decreases v@.len() - i,
    {
        if str_eq(v[i].as_str(), name) {
            proof {
                assert(name_views(v@)[i as int] == name@);
            }
            return true;
        }
        i = i + 1;
    }
    proof {
        if name_views(v@).contains(name@) {
            let j = choose|j: int| 0 <= j < name_views(v@).len() && name_views(v@)[j] == name@;
            assert(v@[j]@ == name@);
        }
    }
    false
}

/// The tables one consolidation round takes: of the first `max_concurrent`
/// tables needing consolidation, those not already being consolidated (a
/// table listed twice is taken once), in order.
pub fn pick_round(needing: &Vec<String>, max_concurrent: usize, busy: &Vec<String>) -> (r: Vec<String>)
    ensures
        name_views(r@) == round_tables(
            name_views(needing@).take(if max_concurrent < needing@.len() { max_concurrent as int } else { needing@.len() as int }),
            name_views(busy@).to_set(),
        ),
{
    let n = if max_concurrent < needing.len() { max_concurrent } else { needing.len() };
    let ghost cands = name_views(needing@);
    let ghost bset = name_views(busy@).to_set();
    let mut r: Vec<String> = Vec::new();
    let mut i: usize = 0;
    proof {
        assert(cands.take(0) =~= Seq::<Seq<char>>::empty());
        assert(name_views(r@) =~= Seq::<Seq<char>>::empty());
    }
    while i < n
        invariant
            i <= n,
            n <= needing@.len(),
            cands == name_views(needing@),
            bset == name_views(busy@).to_set(),
            name_views(r@) == round_tables(cands.take(i as int), bset),
        decreases n - i,
    {
        let t = &needing[i];
        proof {
            assert(cands.take(i + 1).drop_last() =~= cands.take(i as int));
            assert(cands.take(i + 1).last() == t@);
        }
        let in_busy = holds_name(busy, t.as_str());
        let taken = holds_name(&r, t.as_str());
        if !in_busy && !taken {
            let ghost r0 = r@;
            r.push(t.clone());
            proof {
                assert(name_views(r@) =~= name_views(r0).push(t@));
            }
        }
        i = i + 1;
    }
    r
}

/// Add an entry to the history; when it then holds more than
/// `HISTORY_LIMIT` entries, the oldest is dropped.
pub fn push_history<T>(h: &mut Vec<T>, e: T)
    ensures
        final(h)@ == if old(h)@.len() + 1 > HISTORY_LIMIT {
            old(h)@.push(e).drop_first()
        } else {
            old(h)@.push(e)
        },
{
    h.push(e);
    if h.len() > HISTORY_LIMIT {
        let ghost h1 = h@;
        h.remove(0);
        proof {
            assert(h@ =~= h1.drop_first());
        }
    }
}

} // verus!
