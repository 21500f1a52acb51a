//! The selection set. Adding paths appends them, sorts the whole set with
//! the case-insensitive natural comparator (plain code-point order breaks
//! ties), and drops exact duplicates, keeping each path's first arrival.

use vstd::prelude::*;
use crate::model::SelEntry;
use crate::order::{key_lawful, sort_by_key, OrderKey};
use crate::order;

verus! {

/// Neighbouring entries with the same path collapsed to the first.
pub open spec fn dedup_adjacent(s: Seq<SelEntry>) -> Seq<SelEntry>
    decreases s.len(),
{
    if s.len() <= 1 {
        s
    } else if s[s.len() - 1].path@ == s[s.len() - 2].path@ {
        dedup_adjacent(s.drop_last())
    } else {
        dedup_adjacent(s.drop_last()).push(s.last())
    }
}

/// What adding paths leaves the selection as: the combined list, sorted
/// naturally, exact duplicates dropped.
pub open spec fn sel_combine(l: Seq<SelEntry>) -> Seq<SelEntry> {
    dedup_adjacent(sort_by_key(l, OrderKey::Natural))
}

/// Collapse neighbouring entries with equal paths, executable form.
#[verifier::loop_isolation(false)]
pub fn dedup_adjacent_exec(l: Vec<SelEntry>) -> (r: Vec<SelEntry>)
    ensures
        r@ == dedup_adjacent(l@),
{
    let ghost orig = l@;
    let mut rest = l;
    let total = rest.len();
    let mut r: Vec<SelEntry> = Vec::new();
    let mut prev: Option<String> = None;
    let mut k: usize = 0;
    proof {
        assert(orig.take(0) =~= Seq::<SelEntry>::empty());
        assert(orig.skip(0) =~= orig);
    }
    while rest.len() > 0
        invariant
            k <= total,
            total == orig.len(),
            k + rest@.len() == total,
            rest@ == orig.skip(k as int),
            r@ == dedup_adjacent(orig.take(k as int)),
            k == 0 ==> prev is None,
            k > 0 ==> prev is Some && prev->Some_0@ == orig[k as int - 1].path@,
        decreases rest@.len(),
    {
        let e = rest.remove(0);
        proof {
            assert(e == orig[k as int]);
            assert(orig.skip(k as int).remove(0) =~= orig.skip(k as int + 1));
            assert(orig.take(k as int + 1).drop_last() =~= orig.take(k as int));
            assert(orig.take(k as int + 1).last() == orig[k as int]);
        }
        let repeated: bool = match &prev {
            None => false,
            Some(pp) => e.path == *pp,
        };
        prev = Some(e.path.clone());
        if !repeated {
            r.push(e);
        }
        k = k + 1;
        proof {
            assert(r@ =~= dedup_adjacent(orig.take(k as int)));
        }
    }
    proof {
        assert(orig.take(total as int) =~= orig);
    }
    r
}

/// Add entries to the selection: append, sort naturally, drop duplicates.
/// Afterwards no two entries share a path: the selection is a set.
#[verifier::loop_isolation(false)]
pub fn solve_duplicates(entries: &mut Vec<SelEntry>, new_entries: Vec<SelEntry>)
    ensures
        final(entries)@ == sel_combine(old(entries)@ + new_entries@),
        old(entries)@.len() + new_entries@.len() >= 2 ==> key_lawful(OrderKey::Natural),
        forall|i: int, j: int|
            0 <= i < j < final(entries)@.len() ==> (#[trigger] final(entries)@[i]).path@ != (
            #[trigger] final(entries)@[j]).path@,
{
    let mut combined: Vec<SelEntry> = Vec::new();
    core::mem::swap(entries, &mut combined);
    let mut extra = new_entries;
    combined.append(&mut extra);
    proof {
        assert(combined@ == old(entries)@ + new_entries@);
        assert(order::all_admissible(OrderKey::Natural, combined@));
    }
    let ghost all = combined@;
    let sorted = order::sort_entries(combined, OrderKey::Natural);
    let deduped = dedup_adjacent_exec(sorted);
    *entries = deduped;
    proof {
        if all.len() >= 2 {
            crate::laws::lemma_selection_distinct_of_lawful(all);
        } else if all.len() == 1 {
            assert(all.drop_last().len() == 0);
            assert(sort_by_key(all.drop_last(), OrderKey::Natural) == Seq::<SelEntry>::empty());
            assert(sort_by_key(all, OrderKey::Natural) == order::sorted_insert(
                Seq::<SelEntry>::empty(),
                all.last(),
                OrderKey::Natural,
            ));
            assert(sort_by_key(all, OrderKey::Natural).len() == 1);
        }
    }
}

} // verus!
