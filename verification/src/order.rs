//! Orders on selection entries, and a stable insertion sort pinned down
//! exactly by a specification function. The natural order used for the
//! selection set compares lowercased paths with the digit-aware comparator
//! and breaks ties by plain code-point order, so it tells any two distinct
//! paths apart. The sort-stage orders compare names, stamps, sizes or
//! extensions, and leave equal keys in input order.

use vstd::prelude::*;
use crate::bridge;
use crate::bridge::{lower_of, nat_le, nat_le_lawful};
use crate::model::SelEntry;
use crate::pathname::{ext_of, file_name_of, has_ext};
use crate::pathname;
use crate::text::lex_le;
use crate::text;

verus! {

/// Which key a list of entries is ordered by.
#[derive(Clone, Copy, PartialEq, Eq, Structural, Debug)]
pub enum OrderKey {
    Natural,
    ByName,
    ByModified,
    ByCreated,
    BySize,
    ByType,
}

/// Whether an entry carries the data its key needs. Entries that do not
/// are dropped before sorting, never compared.
pub open spec fn admissible(m: OrderKey, e: SelEntry) -> bool {
    match m {
        OrderKey::Natural => true,
        OrderKey::ByName => true,
        OrderKey::ByModified => e.meta is Some && e.meta->Some_0.modified is Some,
        OrderKey::ByCreated => e.meta is Some && e.meta->Some_0.created is Some,
        OrderKey::BySize => e.meta is Some,
        OrderKey::ByType => e.meta is Some,
    }
}

/// The extension order: real extensions in code-point order, and names
/// without one after them all.
pub open spec fn type_key_le(pa: Seq<char>, pb: Seq<char>) -> bool {
    let na = file_name_of(pa);
    let nb = file_name_of(pb);
    if has_ext(na) && has_ext(nb) {
        lex_le(ext_of(na), ext_of(nb))
    } else if has_ext(na) {
        true
    } else {
        !has_ext(nb)
    }
}

/// One entry at or before another under a key.
pub open spec fn key_le(m: OrderKey, a: SelEntry, b: SelEntry) -> bool {
    match m {
        OrderKey::Natural => {
            let la = lower_of(a.path@);
            let lb = lower_of(b.path@);
            if nat_le(la, lb) && nat_le(lb, la) {
                lex_le(a.path@, b.path@)
            } else {
                nat_le(la, lb)
            }
        },
        OrderKey::ByName => lex_le(file_name_of(a.path@), file_name_of(b.path@)),
        OrderKey::ByModified => a.meta->Some_0.modified->Some_0 <= b.meta->Some_0.modified->Some_0,
        OrderKey::ByCreated => a.meta->Some_0.created->Some_0 <= b.meta->Some_0.created->Some_0,
        OrderKey::BySize => a.meta->Some_0.size >= b.meta->Some_0.size,
        OrderKey::ByType => type_key_le(a.path@, b.path@),
    }
}

/// Strictly before: not even equal under the key.
pub open spec fn key_lt(m: OrderKey, a: SelEntry, b: SelEntry) -> bool {
    !key_le(m, b, a)
}

/// A lawful key order: total and transitive.
pub open spec fn key_lawful(m: OrderKey) -> bool {
    &&& forall|a: SelEntry, b: SelEntry| #[trigger] key_le(m, a, b) || #[trigger] key_le(m, b, a)
    &&& forall|a: SelEntry, b: SelEntry, c: SelEntry|
        #[trigger] key_le(m, a, b) && #[trigger] key_le(m, b, c) ==> key_le(m, a, c)
}

/// Every key order is lawful; the natural key needs the comparator's own
/// lawfulness, which each call of it attests.
pub proof fn lemma_key_lawful(m: OrderKey)
    requires
        m is Natural ==> nat_le_lawful(),
    ensures
        key_lawful(m),
{
    assert forall|a: SelEntry, b: SelEntry| #[trigger] key_le(m, a, b) || #[trigger] key_le(
        m,
        b,
        a,
    ) by {
        match m {
            OrderKey::Natural => {
                text::lemma_lex_total(a.path@, b.path@);
            },
            OrderKey::ByName => {
                text::lemma_lex_total(file_name_of(a.path@), file_name_of(b.path@));
            },
            OrderKey::ByType => {
                text::lemma_lex_total(ext_of(file_name_of(a.path@)), ext_of(file_name_of(b.path@)));
            },
            _ => {},
        }
    }
    assert forall|a: SelEntry, b: SelEntry, c: SelEntry|
        #[trigger] key_le(m, a, b) && #[trigger] key_le(m, b, c) implies key_le(m, a, c) by {
        match m {
            OrderKey::Natural => {
                let la = lower_of(a.path@);
                let lb = lower_of(b.path@);
                let lc = lower_of(c.path@);
                assert(nat_le(la, lb));
                assert(nat_le(lb, lc));
                assert(nat_le(la, lc));
                if nat_le(lc, la) {
                    assert(nat_le(lc, lb));
                    assert(nat_le(lb, la));
                    text::lemma_lex_trans(a.path@, b.path@, c.path@);
                }
            },
            OrderKey::ByName => {
                text::lemma_lex_trans(
                    file_name_of(a.path@),
                    file_name_of(b.path@),
                    file_name_of(c.path@),
                );
            },
            OrderKey::ByType => {
                let na = file_name_of(a.path@);
                let nb = file_name_of(b.path@);
                let nc = file_name_of(c.path@);
                if has_ext(na) && has_ext(nb) && has_ext(nc) {
                    text::lemma_lex_trans(ext_of(na), ext_of(nb), ext_of(nc));
                }
            },
            _ => {},
        }
    }
}

/// Compare two entries under a key. Every call also hands back the key
/// order's lawfulness, so callers can reason about whole sorted runs.
pub fn key_le_exec(m: OrderKey, a: &SelEntry, b: &SelEntry) -> (r: bool)
    requires
        admissible(m, *a),
        admissible(m, *b),
    ensures
        r == key_le(m, *a, *b),
        key_lawful(m),
{
    match m {
        OrderKey::Natural => {
            let la = bridge::to_lower(a.path.as_str());
            let lb = bridge::to_lower(b.path.as_str());
            let ab = bridge::natural_le(la.as_str(), lb.as_str());
            let ba = bridge::natural_le(lb.as_str(), la.as_str());
            proof {
                lemma_key_lawful(m);
            }
            if ab && ba {
                let av = text::chars_of(a.path.as_str());
                let bv = text::chars_of(b.path.as_str());
                text::lex_le_exec(&av, &bv)
            } else {
                ab
            }
        },
        OrderKey::ByName => {
            proof {
                lemma_key_lawful(m);
            }
            let av = text::chars_of(a.path.as_str());
            let bv = text::chars_of(b.path.as_str());
            let (_da, na) = pathname::split_dir_name(&av);
            let (_db, nb) = pathname::split_dir_name(&bv);
            text::lex_le_exec(&na, &nb)
        },
        OrderKey::ByModified => {
            proof {
                lemma_key_lawful(m);
            }
            let ma = a.meta.unwrap().modified.unwrap();
            let mb = b.meta.unwrap().modified.unwrap();
            ma <= mb
        },
        OrderKey::ByCreated => {
            proof {
                lemma_key_lawful(m);
            }
            let ca = a.meta.unwrap().created.unwrap();
            let cb = b.meta.unwrap().created.unwrap();
            ca <= cb
        },
        OrderKey::BySize => {
            proof {
                lemma_key_lawful(m);
            }
            a.meta.unwrap().size >= b.meta.unwrap().size
        },
        OrderKey::ByType => {
            proof {
                lemma_key_lawful(m);
            }
            let av = text::chars_of(a.path.as_str());
            let bv = text::chars_of(b.path.as_str());
            let (_da, na) = pathname::split_dir_name(&av);
            let (_db, nb) = pathname::split_dir_name(&bv);
            let (_sa, ea) = pathname::split_stem_ext(&na);
            let (_sb, eb) = pathname::split_stem_ext(&nb);
            match (ea, eb) {
                (Some(xa), Some(xb)) => text::lex_le_exec(&xa, &xb),
                (Some(_), None) => true,
                (None, Some(_)) => false,
                (None, None) => true,
            }
        },
    }
}

/// Where a new entry lands in an ordered run: after every entry it is not
/// strictly before, so entries with equal keys keep their arrival order.
pub open spec fn sorted_insert(r: Seq<SelEntry>, e: SelEntry, m: OrderKey) -> Seq<SelEntry>
    decreases r.len(),
{
    if r.len() > 0 && key_lt(m, e, r.last()) {
        sorted_insert(r.drop_last(), e, m).push(r.last())
    } else {
        r.push(e)
    }
}

/// The stable insertion sort of a whole list.
pub open spec fn sort_by_key(l: Seq<SelEntry>, m: OrderKey) -> Seq<SelEntry>
    decreases l.len(),
{
    if l.len() == 0 {
        Seq::empty()
    } else {
        sorted_insert(sort_by_key(l.drop_last(), m), l.last(), m)
    }
}

/// Every entry of a list satisfies the key's demands.
pub open spec fn all_admissible(m: OrderKey, s: Seq<SelEntry>) -> bool {
    forall|i: int| 0 <= i < s.len() ==> admissible(m, #[trigger] s[i])
}

/// Neighbouring and distant entries alike are ordered.
pub open spec fn pairwise_le(s: Seq<SelEntry>, m: OrderKey) -> bool {
    forall|i: int, j: int| 0 <= i < j < s.len() ==> key_le(m, #[trigger] s[i], #[trigger] s[j])
}

/// An insertion splits the run at the cut found by scanning from the end.
pub proof fn lemma_sorted_insert_at(r: Seq<SelEntry>, e: SelEntry, m: OrderKey, p: int)
    requires
        0 <= p <= r.len(),
        forall|j: int| p <= j < r.len() ==> key_lt(m, e, #[trigger] r[j]),
        p > 0 ==> !key_lt(m, e, r[p - 1]),
    ensures
        sorted_insert(r, e, m) == r.take(p) + seq![e] + r.skip(p),
    decreases r.len(),
{
    if p == r.len() {
        assert(sorted_insert(r, e, m) == r.push(e));
        assert(r.take(p) + seq![e] + r.skip(p) =~= r.push(e));
    } else {
        assert(key_lt(m, e, r.last()));
        lemma_sorted_insert_at(r.drop_last(), e, m, p);
        assert(r.drop_last().take(p) =~= r.take(p));
        assert(r.drop_last().skip(p) =~= r.skip(p).drop_last());
        assert((r.take(p) + seq![e] + r.skip(p).drop_last()).push(r.last()) =~= r.take(p)
            + seq![e] + r.skip(p));
    }
}

/// The insertion is the old run plus the new entry, as bags of entries.
pub proof fn lemma_sorted_insert_multiset(r: Seq<SelEntry>, e: SelEntry, m: OrderKey)
    ensures
        sorted_insert(r, e, m).to_multiset() == r.to_multiset().insert(e),
    decreases r.len(),
{
    broadcast use vstd::seq_lib::group_to_multiset_ensures;

    if r.len() > 0 && key_lt(m, e, r.last()) {
        lemma_sorted_insert_multiset(r.drop_last(), e, m);
        assert(r.drop_last().push(r.last()) =~= r);
        assert(r.drop_last().push(r.last()).to_multiset() =~= r.drop_last().to_multiset().insert(
            r.last(),
        ));
    }
}

/// Sorting permutes: the sorted list is the input as a bag of entries.
pub proof fn lemma_sort_multiset(l: Seq<SelEntry>, m: OrderKey)
    ensures
        sort_by_key(l, m).to_multiset() == l.to_multiset(),
    decreases l.len(),
{
    broadcast use vstd::seq_lib::group_to_multiset_ensures;

    if l.len() > 0 {
        lemma_sort_multiset(l.drop_last(), m);
        lemma_sorted_insert_multiset(sort_by_key(l.drop_last(), m), l.last(), m);
        assert(l.drop_last().push(l.last()) =~= l);
        assert(l.drop_last().push(l.last()).to_multiset() =~= l.drop_last().to_multiset().insert(
            l.last(),
        ));
    }
}

/// Inserting into an ordered run keeps it ordered, under a lawful key.
pub proof fn lemma_sorted_insert_pairwise(r: Seq<SelEntry>, e: SelEntry, m: OrderKey, p: int)
    requires
        key_lawful(m),
        pairwise_le(r, m),
        0 <= p <= r.len(),
        forall|j: int| p <= j < r.len() ==> key_lt(m, e, #[trigger] r[j]),
        p > 0 ==> !key_lt(m, e, r[p - 1]),
    ensures
        pairwise_le(sorted_insert(r, e, m), m),
{
    lemma_sorted_insert_at(r, e, m, p);
    let s = sorted_insert(r, e, m);
    assert(s =~= r.take(p) + seq![e] + r.skip(p));
    assert forall|i: int, j: int| 0 <= i < j < s.len() implies key_le(m, s[i], s[j]) by {
        if i < p {
            assert(s[i] == r[i]);
        } else if i == p {
            assert(s[i] == e);
        } else {
            assert(s[i] == r[i - 1]);
        }
        if j < p {
            assert(s[j] == r[j]);
        } else if j == p {
            assert(s[j] == e);
        } else {
            assert(s[j] == r[j - 1]);
        }
        if j == p {
            // s[i] = r[i] with i < p: walk through the entry just before the cut
            assert(!key_lt(m, e, r[p - 1]));
            assert(key_le(m, r[p - 1], e));
            if i < p - 1 {
                assert(key_le(m, r[i], r[p - 1]));
            }
        } else if i == p {
            // s[j] = r[j-1] with j - 1 >= p: beyond the cut everything is after e
            assert(key_lt(m, e, r[j - 1]));
            assert(!key_le(m, r[j - 1], e));
        }
    }
}

/// Insert one entry into an ordered run, after every entry it does not
/// strictly precede.
#[verifier::loop_isolation(false)]
pub fn insert_sorted_exec(r: &mut Vec<SelEntry>, e: SelEntry, m: OrderKey)
    requires
        all_admissible(m, old(r)@),
        admissible(m, e),
    ensures
        final(r)@ == sorted_insert(old(r)@, e, m),
        all_admissible(m, final(r)@),
        old(r)@.len() >= 1 ==> key_lawful(m),
{
    let n = r.len();
    let mut p: usize = n;
    let mut go = true;
    while go && p > 0
        invariant
            p <= n,
            forall|j: int| p <= j < n ==> key_lt(m, e, #[trigger] r@[j]),
            !go ==> p > 0 && !key_lt(m, e, r@[p - 1]),
            (p < n || !go) ==> key_lawful(m),
        decreases p + (if go {
            1int
        } else {
            0int
        }),
    {
        let c = key_le_exec(m, &r[p - 1], &e);
        if c {
            go = false;
        } else {
            p = p - 1;
        }
    }
    proof {
        lemma_sorted_insert_at(r@, e, m, p as int);
    }
    r.insert(p, e);
    proof {
        assert(final(r)@ =~= old(r)@.take(p as int) + seq![e] + old(r)@.skip(p as int));
        assert forall|i: int| 0 <= i < final(r)@.len() implies admissible(
            m,
            #[trigger] final(r)@[i],
        ) by {
            if i < p {
                assert(final(r)@[i] == old(r)@[i]);
            } else if i > p {
                assert(final(r)@[i] == old(r)@[i - 1]);
            }
        }
    }
}

/// Sort a list of entries stably by a key.
#[verifier::loop_isolation(false)]
pub fn sort_entries(l: Vec<SelEntry>, m: OrderKey) -> (r: Vec<SelEntry>)
    requires
        all_admissible(m, l@),
    ensures
        r@ == sort_by_key(l@, m),
        l@.len() >= 2 ==> key_lawful(m),
{
    let ghost orig = l@;
    let mut rest = l;
    let total = rest.len();
    let mut r: Vec<SelEntry> = Vec::new();
    let mut k: usize = 0;
    proof {
        assert(orig.take(0) =~= Seq::<SelEntry>::empty());
        assert(orig.skip(0) =~= orig);
    }
    while rest.len() > 0
        invariant
            k <= total,
            total == orig.len(),
            k + rest@.len() == total,
            rest@ == orig.skip(k as int),
            r@ == sort_by_key(orig.take(k as int), m),
            all_admissible(m, r@),
            k >= 2 ==> key_lawful(m),
        decreases rest@.len(),
    {
        let e = rest.remove(0);
        proof {
            assert(e == orig[k as int]);
            assert(orig.skip(k as int).remove(0) =~= orig.skip(k as int + 1));
            assert(orig.take(k as int + 1).drop_last() =~= orig.take(k as int));
            assert(orig.take(k as int + 1).last() == orig[k as int]);
        }
        insert_sorted_exec(&mut r, e, m);
        k = k + 1;
    }
    proof {
        assert(orig.take(orig.len() as int) =~= orig);
    }
    r
}

} // verus!
