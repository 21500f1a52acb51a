//! The sort stage: reorder the selection by the chosen key. Name order
//! keeps every entry; the stamp, size and extension orders drop entries
//! whose metadata could not be read — the only stage allowed to drop
//! anything. An unknown choice falls back to name order.

use vstd::prelude::*;
use crate::model::SelEntry;
use crate::order::{admissible, sort_by_key, OrderKey};
use crate::order;
use crate::text;

verus! {

/// The entries a key can sort, in arrival order.
pub open spec fn keep_admissible(s: Seq<SelEntry>, m: OrderKey) -> Seq<SelEntry>
    decreases s.len(),
{
    if s.len() == 0 {
        s
    } else if admissible(m, s.last()) {
        keep_admissible(s.drop_last(), m).push(s.last())
    } else {
        keep_admissible(s.drop_last(), m)
    }
}

/// The key a sort-choice string picks; anything unknown means name order.
pub open spec fn choice_key(s: Seq<char>) -> OrderKey {
    if s == "modified"@ {
        OrderKey::ByModified
    } else if s == "created"@ {
        OrderKey::ByCreated
    } else if s == "size"@ {
        OrderKey::BySize
    } else if s == "type"@ {
        OrderKey::ByType
    } else {
        OrderKey::ByName
    }
}

/// What the sort stage hands on: the sortable entries, ordered by the
/// chosen key, arrival order breaking ties.
pub open spec fn sort_stage(s: Seq<SelEntry>, choice: Seq<char>) -> Seq<SelEntry> {
    sort_by_key(keep_admissible(s, choice_key(choice)), choice_key(choice))
}

/// Whether an entry carries what the key needs, executable form.
pub fn admissible_exec(m: OrderKey, e: &SelEntry) -> (r: bool)
    ensures
        r == admissible(m, *e),
{
    match m {
        OrderKey::Natural => true,
        OrderKey::ByName => true,
        OrderKey::ByModified => match e.meta {
            Some(fm) => fm.modified.is_some(),
            None => false,
        },
        OrderKey::ByCreated => match e.meta {
            Some(fm) => fm.created.is_some(),
            None => false,
        },
        OrderKey::BySize => e.meta.is_some(),
        OrderKey::ByType => e.meta.is_some(),
    }
}

/// Pick the key a sort-choice string names.
pub fn parse_sort_choice(choice: &String) -> (k: OrderKey)
    ensures
        k == choice_key(choice@),
{
    let cv = text::chars_of(choice.as_str());
    let m = text::chars_of("modified");
    if text::seq_eq(&cv, &m) {
        return OrderKey::ByModified;
    }
    let c = text::chars_of("created");
    if text::seq_eq(&cv, &c) {
        return OrderKey::ByCreated;
    }
    let s = text::chars_of("size");
    if text::seq_eq(&cv, &s) {
        return OrderKey::BySize;
    }
    let t = text::chars_of("type");
    if text::seq_eq(&cv, &t) {
        return OrderKey::ByType;
    }
    OrderKey::ByName
}

/// Reorder the selection by the chosen key, dropping entries the key
/// cannot place.
#[verifier::loop_isolation(false)]
pub fn sort_file_names(entries: &Vec<SelEntry>, choice: &String) -> (r: Vec<SelEntry>)
    ensures
        r@ == sort_stage(entries@, choice@),
{
    let key = parse_sort_choice(choice);
    let mut kept: Vec<SelEntry> = Vec::new();
    let mut i: usize = 0;
    proof {
        assert(entries@.take(0) =~= Seq::<SelEntry>::empty());
    }
    while i < entries.len()
        invariant
            i <= entries@.len(),
            kept@ == keep_admissible(entries@.take(i as int), key),
            order::all_admissible(key, kept@),
        decreases entries@.len() - i,
    {
        proof {
            assert(entries@.take(i as int + 1).drop_last() =~= entries@.take(i as int));
            assert(entries@.take(i as int + 1).last() == entries@[i as int]);
        }
        let e = &entries[i];
        if admissible_exec(key, e) {
            kept.push(e.duplicate());
        }
        i = i + 1;
    }
    proof {
        assert(entries@.take(entries@.len() as int) =~= entries@);
    }
    order::sort_entries(kept, key)
}

} // verus!
