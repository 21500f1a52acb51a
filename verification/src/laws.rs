//! The planner's stated properties, proved once and for all: pipeline
//! determinism, the sentinel round trip, the resolver's order-stability
//! and uniqueness, and the idempotence of adding the same paths twice.

use vstd::prelude::*;
use crate::bridge::{nat_le, nat_le_lawful};
use crate::model::{CivilDateTime, SelEntry, Task, WorkingFile};
use crate::order::{key_lawful, key_le, key_lt, pairwise_le, sort_by_key, OrderKey};
use crate::selection::{dedup_adjacent, sel_combine};
use crate::pathname::{dir_of, file_name_of, has_ext, sentinel, with_name};
use crate::pathname;
use crate::pipeline::run_tasks;
use crate::resolver::{count_eq, occ_before, resolved_target, suffix_name, suffixed_target};
use crate::session::replan_targets;
use crate::tasks::task_step;
use crate::text;

verus! {

/// Pipeline determinism: the computed targets are a function of the
/// ordered sources, their stamps and the task list alone, so two runs
/// over equal inputs compute equal targets, file by file.
pub proof fn lemma_pipeline_deterministic(
    ws1: Seq<WorkingFile>,
    ws2: Seq<WorkingFile>,
    civils: Seq<Option<CivilDateTime>>,
    tasks: Seq<Task>,
)
    requires
        ws1.len() == ws2.len(),
        forall|i: int| 0 <= i < ws1.len() ==> (#[trigger] ws1[i]).source@ == ws2[i].source@,
    ensures
        replan_targets(ws1, civils, tasks) == replan_targets(ws2, civils, tasks),
{
    assert(replan_targets(ws1, civils, tasks) =~= replan_targets(ws2, civils, tasks));
}

/// The sentinel round trip: clearing an extensionless name stores the
/// sentinel, and find-and-replace then leaves the sentinel untouched.
pub proof fn lemma_sentinel_round_trip(
    t: Seq<char>,
    find_text: String,
    replace_text: String,
    index: nat,
    civil: Option<CivilDateTime>,
)
    requires
        !has_ext(file_name_of(t)),
    ensures
        file_name_of(task_step(t, Task::ClearAll { active: true }, index, civil)) == sentinel(),
        task_step(
            task_step(t, Task::ClearAll { active: true }, index, civil),
            Task::FindAndReplace { find_text, replace_text, active: true },
            index,
            civil,
        ) == task_step(t, Task::ClearAll { active: true }, index, civil),
{
    let cleared = task_step(t, Task::ClearAll { active: true }, index, civil);
    assert(cleared == with_name(t, sentinel()));
    assert(forall|j: int| 0 <= j < sentinel().len() ==> sentinel()[j] != '/');
    pathname::lemma_with_name(t, sentinel());
    assert(file_name_of(cleared) == sentinel());
}

/// Occurrence counts only grow along the list.
pub proof fn lemma_count_eq_mono(ts: Seq<Seq<char>>, a: int, b: int, x: Seq<char>)
    requires
        a <= b,
    ensures
        count_eq(ts, a, x) <= count_eq(ts, b, x),
    decreases b - a,
{
    if a < b {
        lemma_count_eq_mono(ts, a, b - 1, x);
    }
}

/// Resolver order-stability: within one collision group, occurrence
/// numbers grow strictly in input order, so the suffixes 0001, 0002, and
/// so on are assigned in the order the files stand in.
pub proof fn lemma_resolver_order_stability(ts: Seq<Seq<char>>, i: int, j: int)
    requires
        0 <= i < j < ts.len(),
        ts[i] == ts[j],
    ensures
        occ_before(ts, i) < occ_before(ts, j),
{
    assert(count_eq(ts, i + 1, ts[i]) == count_eq(ts, i, ts[i]) + 1);
    lemma_count_eq_mono(ts, i + 1, j, ts[i]);
}

/// A disambiguated name holds no slash when the name it came from holds
/// none.
pub proof fn lemma_suffix_name_no_slash(nm: Seq<char>, n: nat)
    requires
        forall|j: int| 0 <= j < nm.len() ==> nm[j] != '/',
    ensures
        forall|j: int| 0 <= j < suffix_name(nm, n).len() ==> suffix_name(nm, n)[j] != '/',
{
    let stem = pathname::stem_of(nm);
    let pad = crate::numeral::padded_dec(n, 4);
    let core = stem + seq!['_'] + pad;
    crate::numeral::lemma_padded_dec_are_digits(n, 4);
    text::lemma_last_pos(nm, '.');
    let s = suffix_name(nm, n);
    assert forall|j: int| 0 <= j < s.len() implies s[j] != '/' by {
        if j < core.len() {
            assert(s[j] == core[j]);
            if j < stem.len() {
                assert(core[j] == stem[j]);
                assert(stem[j] == nm[j]);
            } else if j == stem.len() {
                assert(core[j] == '_');
            } else {
                assert(core[j] == pad[j - stem.len() - 1]);
                assert(crate::numeral::is_digit(pad[j - stem.len() - 1]));
            }
        } else {
            assert(has_ext(nm));
            if j == core.len() {
                assert(s[j] == '.');
            } else {
                let e = pathname::ext_of(nm);
                assert(s[j] == e[j - core.len() - 1]);
                assert(e[j - core.len() - 1] == nm[text::last_pos(nm, '.') + 1 + (j - core.len()
                    - 1)]);
            }
        }
    }
}

/// Two underscore-and-digits tails agree only when both halves agree.
pub proof fn lemma_pad_tail_inj(s1: Seq<char>, p1: Seq<char>, s2: Seq<char>, p2: Seq<char>)
    requires
        s1 + seq!['_'] + p1 == s2 + seq!['_'] + p2,
        forall|d: int| 0 <= d < p1.len() ==> crate::numeral::is_digit(#[trigger] p1[d]),
        forall|d: int| 0 <= d < p2.len() ==> crate::numeral::is_digit(#[trigger] p2[d]),
    ensures
        s1 == s2,
        p1 == p2,
{
    let m = s1 + seq!['_'] + p1;
    assert(m.len() == s1.len() + 1 + p1.len());
    assert(m.len() == s2.len() + 1 + p2.len());
    assert(m[s1.len() as int] == '_');
    assert(m[s2.len() as int] == '_');
    if p1.len() < p2.len() {
        let k = s1.len() as int;
        assert(k >= s2.len() + 1);
        assert(m[k] == p2[k - s2.len() - 1]);
        assert(crate::numeral::is_digit('_'));
        assert(false);
    }
    if p2.len() < p1.len() {
        let k = s2.len() as int;
        assert(k >= s1.len() + 1);
        assert(m[k] == p1[k - s1.len() - 1]);
        assert(crate::numeral::is_digit('_'));
        assert(false);
    }
    assert(p1.len() == p2.len());
    assert(s1.len() == s2.len());
    assert(s1 =~= s2) by {
        assert(forall|j: int| 0 <= j < s1.len() ==> s1[j] == m[j] && s2[j] == m[j]);
    }
    assert(p1 =~= p2) by {
        assert(forall|d: int|
            0 <= d < p1.len() ==> p1[d] == m[s1.len() + 1 + d] && p2[d] == m[s2.len() + 1 + d]);
    }
}

/// Disambiguated names determine the name and the occurrence number.
pub proof fn lemma_suffix_name_inj(nm1: Seq<char>, n1: nat, nm2: Seq<char>, n2: nat)
    requires
        suffix_name(nm1, n1) == suffix_name(nm2, n2),
        n1 >= 1,
        n2 >= 1,
    ensures
        nm1 == nm2,
        n1 == n2,
{
    let p1 = crate::numeral::padded_dec(n1, 4);
    let p2 = crate::numeral::padded_dec(n2, 4);
    let st1 = pathname::stem_of(nm1);
    let st2 = pathname::stem_of(nm2);
    let core1 = st1 + seq!['_'] + p1;
    let core2 = st2 + seq!['_'] + p2;
    let nn = suffix_name(nm1, n1);
    crate::numeral::lemma_padded_dec_are_digits(n1, 4);
    crate::numeral::lemma_padded_dec_are_digits(n2, 4);
    crate::numeral::lemma_padded_dec_len(n1, 4);
    crate::numeral::lemma_padded_dec_len(n2, 4);
    text::lemma_last_pos(nm1, '.');
    text::lemma_last_pos(nm2, '.');
    if has_ext(nm1) && has_ext(nm2) {
        let e1 = pathname::ext_of(nm1);
        let e2 = pathname::ext_of(nm2);
        pathname::lemma_stem_ext(nm1);
        pathname::lemma_stem_ext(nm2);
        let q1 = core1.len() as int;
        let q2 = core2.len() as int;
        assert(nn =~= core1 + seq!['.'] + e1);
        assert(nn =~= core2 + seq!['.'] + e2);
        assert(nn.len() == q1 + 1 + e1.len());
        assert(nn.len() == q2 + 1 + e2.len());
        assert(nn[q1] == '.');
        assert(nn[q2] == '.');
        assert(forall|j: int| q1 < j < nn.len() ==> nn[j] == e1[j - q1 - 1]);
        assert(forall|j: int| q2 < j < nn.len() ==> nn[j] == e2[j - q2 - 1]);
        if q1 < q2 {
            assert(0 <= q2 - q1 - 1 < e1.len());
            assert(nn[q2] == e1[q2 - q1 - 1]);
            assert(e1[q2 - q1 - 1] != '.');
            assert(false);
        }
        if q2 < q1 {
            assert(0 <= q1 - q2 - 1 < e2.len());
            assert(nn[q1] == e2[q1 - q2 - 1]);
            assert(e2[q1 - q2 - 1] != '.');
            assert(false);
        }
        assert(q1 == q2);
        assert(e1 =~= e2) by {
            assert(forall|d: int|
                0 <= d < e1.len() ==> e1[d] == nn[q1 + 1 + d] && e2[d] == nn[q2 + 1 + d]);
        }
        assert(core1 =~= core2) by {
            assert(forall|j: int| 0 <= j < q1 ==> core1[j] == nn[j] && core2[j] == nn[j]);
        }
        lemma_pad_tail_inj(st1, p1, st2, p2);
        crate::numeral::lemma_padded_dec_inj(n1, n2, 4);
        assert(nm1 =~= nm2);
    } else if !has_ext(nm1) && !has_ext(nm2) {
        assert(nn =~= st1 + seq!['_'] + p1);
        assert(nn =~= st2 + seq!['_'] + p2);
        lemma_pad_tail_inj(st1, p1, st2, p2);
        crate::numeral::lemma_padded_dec_inj(n1, n2, 4);
    } else if !has_ext(nm1) && has_ext(nm2) {
        lemma_suffix_mixed(nm1, n1, nm2, n2);
    } else {
        lemma_suffix_mixed(nm2, n2, nm1, n1);
    }
}

/// When two names disambiguate to the same name and the second has an
/// extension, so has the first: the dot the second contributes would
/// otherwise force the first to be a dotfile, whose suffixed form cannot
/// start with the dot the second's form starts with.
proof fn lemma_suffix_mixed(nma: Seq<char>, na: nat, nmb: Seq<char>, nb: nat)
    requires
        suffix_name(nma, na) == suffix_name(nmb, nb),
        has_ext(nmb),
        na >= 1,
        nb >= 1,
    ensures
        has_ext(nma),
{
    if has_ext(nma) {
        return ;
    }
    let pa = crate::numeral::padded_dec(na, 4);
    let pb = crate::numeral::padded_dec(nb, 4);
    let stb = pathname::stem_of(nmb);
    let eb = pathname::ext_of(nmb);
    let nn = suffix_name(nma, na);
    crate::numeral::lemma_padded_dec_are_digits(na, 4);
    crate::numeral::lemma_padded_dec_are_digits(nb, 4);
    crate::numeral::lemma_padded_dec_len(na, 4);
    crate::numeral::lemma_padded_dec_len(nb, 4);
    text::lemma_last_pos(nmb, '.');
    pathname::lemma_stem_ext(nmb);
    assert(nn =~= nma + seq!['_'] + pa);
    let q = (stb.len() + 1 + pb.len()) as int;
    assert(nn[q] == '.');
    assert(nn[nma.len() as int] == '_');
    assert(forall|j: int| nma.len() < j < nn.len() ==> nn[j] == pa[j - nma.len() - 1]);
    if q >= nma.len() {
        if q == nma.len() {
            assert(nn[q] == '_');
        } else {
            assert(nn[q] == pa[q - nma.len() - 1]);
            assert(crate::numeral::is_digit(nn[q]));
        }
        assert(false);
    }
    assert(q < nma.len());
    assert(nma[q] == '.');
    text::lemma_last_pos(nma, '.');
    assert(text::last_pos(nma, '.') >= q) by {
        if text::last_pos(nma, '.') < q {
            assert(nma[q] != '.');
        }
    }
    assert(nma.len() > 0);
    assert(nma[0] == '.');
    assert(nn[0] == '.');
    if stb.len() > 0 {
        assert(stb[0] == nmb[0]);
        assert(nn[0] == stb[0]);
        assert(nmb[0] != '.');
        assert(false);
    } else {
        assert(nn[0] == '_');
        assert(false);
    }
}

/// Disambiguated targets determine the target and the occurrence number.
pub proof fn lemma_suffixed_target_inj(t1: Seq<char>, n1: nat, t2: Seq<char>, n2: nat)
    requires
        suffixed_target(t1, n1) == suffixed_target(t2, n2),
        n1 >= 1,
        n2 >= 1,
    ensures
        t1 == t2,
        n1 == n2,
{
    let nm1 = file_name_of(t1);
    let nm2 = file_name_of(t2);
    pathname::lemma_dir_name(t1);
    pathname::lemma_dir_name(t2);
    lemma_suffix_name_no_slash(nm1, n1);
    lemma_suffix_name_no_slash(nm2, n2);
    pathname::lemma_with_name(t1, suffix_name(nm1, n1));
    pathname::lemma_with_name(t2, suffix_name(nm2, n2));
    assert(suffix_name(nm1, n1) == suffix_name(nm2, n2));
    lemma_suffix_name_inj(nm1, n1, nm2, n2);
    assert(dir_of(t1) == dir_of(t2));
    assert(t1 =~= t2) by {
        assert(t1 == dir_of(t1) + nm1);
        assert(t2 == dir_of(t2) + nm2);
    }
}

/// Resolver uniqueness: resolution leaves no two equal target paths. The
/// one way resolution can fail — a disambiguated name landing on another
/// file's untouched target, as with the list "a", "a", "a_0001" — is
/// ruled out by the premise; everything else is proved.
pub proof fn lemma_resolver_uniqueness(ts: Seq<Seq<char>>)
    requires
        forall|i: int, j: int|
            0 <= i < ts.len() && 0 <= j < ts.len() && i != j && occ_before(ts, i) >= 1
                && occ_before(ts, j) == 0 ==> suffixed_target(
                ts[i],
                occ_before(ts, i),
            ) != ts[j],
    ensures
        forall|i: int, j: int|
            0 <= i < j < ts.len() ==> resolved_target(ts, i) != resolved_target(ts, j),
{
    assert forall|i: int, j: int| 0 <= i < j < ts.len() implies resolved_target(ts, i)
        != resolved_target(ts, j) by {
        let ni = occ_before(ts, i);
        let nj = occ_before(ts, j);
        if ni == 0 && nj == 0 {
            if ts[i] == ts[j] {
                lemma_resolver_order_stability(ts, i, j);
            }
        } else if ni >= 1 && nj >= 1 {
            if resolved_target(ts, i) == resolved_target(ts, j) {
                lemma_suffixed_target_inj(ts[i], ni, ts[j], nj);
                lemma_resolver_order_stability(ts, i, j);
            }
        }
    }
}

/// Resolver uniqueness for displayed names: when every target lies in one
/// directory, the final name parts are pairwise distinct as well.
pub proof fn lemma_resolver_uniqueness_names(ts: Seq<Seq<char>>)
    requires
        forall|i: int, j: int|
            0 <= i < ts.len() && 0 <= j < ts.len() && i != j && occ_before(ts, i) >= 1
                && occ_before(ts, j) == 0 ==> suffixed_target(
                ts[i],
                occ_before(ts, i),
            ) != ts[j],
        forall|i: int, j: int|
            0 <= i < ts.len() && 0 <= j < ts.len() ==> dir_of(#[trigger] ts[i]) == dir_of(
                #[trigger] ts[j],
            ),
    ensures
        forall|i: int, j: int|
            0 <= i < j < ts.len() ==> file_name_of(resolved_target(ts, i)) != file_name_of(
                resolved_target(ts, j),
            ),
{
    lemma_resolver_uniqueness(ts);
    assert forall|i: int, j: int| 0 <= i < j < ts.len() implies file_name_of(
        resolved_target(ts, i),
    ) != file_name_of(resolved_target(ts, j)) by {
        lemma_resolved_dir(ts, i);
        lemma_resolved_dir(ts, j);
        pathname::lemma_dir_name(resolved_target(ts, i));
        pathname::lemma_dir_name(resolved_target(ts, j));
        if file_name_of(resolved_target(ts, i)) == file_name_of(resolved_target(ts, j)) {
            assert(resolved_target(ts, i) == dir_of(resolved_target(ts, i)) + file_name_of(
                resolved_target(ts, i),
            ));
        }
    }
}

/// Resolution never moves a file to another directory.
pub proof fn lemma_resolved_dir(ts: Seq<Seq<char>>, i: int)
    requires
        0 <= i < ts.len(),
    ensures
        dir_of(resolved_target(ts, i)) == dir_of(ts[i]),
{
    if occ_before(ts, i) >= 1 {
        let nm = file_name_of(ts[i]);
        pathname::lemma_dir_name(ts[i]);
        lemma_suffix_name_no_slash(nm, occ_before(ts, i));
        pathname::lemma_with_name(ts[i], suffix_name(nm, occ_before(ts, i)));
    }
}

/// Whether some entry of a list holds the path.
pub open spec fn has_path(s: Seq<SelEntry>, p: Seq<char>) -> bool {
    exists|i: int| 0 <= i < s.len() && (#[trigger] s[i]).path@ == p
}

/// The path views of a list of entries.
pub open spec fn paths_of(s: Seq<SelEntry>) -> Seq<Seq<char>> {
    s.map_values(|e: SelEntry| e.path@)
}

/// Where a new entry can land in a run: the scan from the end that the
/// insertion performs always stops somewhere.
proof fn lemma_insert_cut(r: Seq<SelEntry>, e: SelEntry, m: OrderKey) -> (p: int)
    ensures
        0 <= p <= r.len(),
        forall|j: int| p <= j < r.len() ==> key_lt(m, e, #[trigger] r[j]),
        p > 0 ==> !key_lt(m, e, r[p - 1]),
    decreases r.len(),
{
    if r.len() == 0 {
        0
    } else if !key_lt(m, e, r.last()) {
        r.len() as int
    } else {
        let p = lemma_insert_cut(r.drop_last(), e, m);
        assert forall|j: int| p <= j < r.len() implies key_lt(m, e, #[trigger] r[j]) by {
            if j < r.len() - 1 {
                assert(r.drop_last()[j] == r[j]);
            }
        }
        p
    }
}

/// A sorted run is ordered between any two positions, under a lawful key.
pub proof fn lemma_sort_pairwise(l: Seq<SelEntry>, m: OrderKey)
    requires
        key_lawful(m),
    ensures
        pairwise_le(sort_by_key(l, m), m),
    decreases l.len(),
{
    if l.len() > 0 {
        lemma_sort_pairwise(l.drop_last(), m);
        let r = sort_by_key(l.drop_last(), m);
        let p = lemma_insert_cut(r, l.last(), m);
        crate::order::lemma_sorted_insert_pairwise(r, l.last(), m, p);
    }
}

/// Sorting neither invents nor loses paths.
pub proof fn lemma_sort_same_paths(l: Seq<SelEntry>, m: OrderKey)
    ensures
        forall|p: Seq<char>| has_path(sort_by_key(l, m), p) <==> has_path(l, p),
{
    broadcast use vstd::seq_lib::group_to_multiset_ensures;

    crate::order::lemma_sort_multiset(l, m);
    let s = sort_by_key(l, m);
    assert forall|p: Seq<char>| has_path(s, p) <==> has_path(l, p) by {
        if has_path(s, p) {
            let i = choose|i: int| 0 <= i < s.len() && (#[trigger] s[i]).path@ == p;
            assert(s.contains(s[i]));
            assert(s.to_multiset().count(s[i]) > 0);
            assert(l.to_multiset().count(s[i]) > 0);
            assert(l.contains(s[i]));
            let j = choose|j: int| 0 <= j < l.len() && l[j] == s[i];
            assert(l[j].path@ == p);
        }
        if has_path(l, p) {
            let i = choose|i: int| 0 <= i < l.len() && (#[trigger] l[i]).path@ == p;
            assert(l.contains(l[i]));
            assert(l.to_multiset().count(l[i]) > 0);
            assert(s.to_multiset().count(l[i]) > 0);
            assert(s.contains(l[i]));
            let j = choose|j: int| 0 <= j < s.len() && s[j] == l[i];
            assert(s[j].path@ == p);
        }
    }
}

/// Entries the natural key cannot tell apart have equal paths.
proof fn lemma_natural_key_equal(a: SelEntry, b: SelEntry)
    requires
        key_le(OrderKey::Natural, a, b),
        key_le(OrderKey::Natural, b, a),
    ensures
        a.path@ == b.path@,
{
    let la = crate::bridge::lower_of(a.path@);
    let lb = crate::bridge::lower_of(b.path@);
    if nat_le(la, lb) && nat_le(lb, la) {
        text::lemma_lex_antisym(a.path@, b.path@);
    }
}

/// What collapsing neighbouring duplicates leaves of a naturally sorted
/// run: still sorted, all paths now distinct, the same paths present, and
/// nothing that was not there before.
proof fn lemma_dedup_props(s: Seq<SelEntry>)
    requires
        key_lawful(OrderKey::Natural),
        pairwise_le(s, OrderKey::Natural),
    ensures
        pairwise_le(dedup_adjacent(s), OrderKey::Natural),
        forall|i: int, j: int|
            0 <= i < j < dedup_adjacent(s).len() ==> (#[trigger] dedup_adjacent(s)[i]).path@ != (
            #[trigger] dedup_adjacent(s)[j]).path@,
        forall|p: Seq<char>| has_path(dedup_adjacent(s), p) <==> has_path(s, p),
        forall|k: int|
            0 <= k < dedup_adjacent(s).len() ==> s.contains(#[trigger] dedup_adjacent(s)[k]),
    decreases s.len(),
{
    let m = OrderKey::Natural;
    let d = dedup_adjacent(s);
    if s.len() <= 1 {
        assert forall|p: Seq<char>| has_path(d, p) <==> has_path(s, p) by {}
        assert(forall|k: int| 0 <= k < d.len() ==> s.contains(#[trigger] d[k]));
    } else {
        let prefix = s.drop_last();
        assert(pairwise_le(prefix, m)) by {
            assert(forall|i: int, j: int|
                0 <= i < j < prefix.len() ==> prefix[i] == s[i] && prefix[j] == s[j]);
        }
        lemma_dedup_props(prefix);
        let dp = dedup_adjacent(prefix);
        assert(forall|k: int| 0 <= k < dp.len() ==> prefix.contains(#[trigger] dp[k]));
        assert forall|k: int| 0 <= k < dp.len() implies s.contains(#[trigger] dp[k]) by {
            let j = choose|j: int| 0 <= j < prefix.len() && prefix[j] == dp[k];
            assert(s[j] == dp[k]);
        }
        let last = s.last();
        if s[s.len() - 1].path@ == s[s.len() - 2].path@ {
            // the last entry collapses into its neighbour
            assert(d == dp);
            assert forall|p: Seq<char>| has_path(d, p) <==> has_path(s, p) by {
                if has_path(s, p) {
                    let i = choose|i: int| 0 <= i < s.len() && (#[trigger] s[i]).path@ == p;
                    if i == s.len() - 1 {
                        assert(s[s.len() - 2].path@ == p);
                        assert(prefix[s.len() - 2].path@ == p);
                        assert(has_path(prefix, p));
                    } else {
                        assert(prefix[i].path@ == p);
                        assert(has_path(prefix, p));
                    }
                }
                if has_path(d, p) {
                    let i = choose|i: int| 0 <= i < prefix.len() && (#[trigger] prefix[i]).path@
                        == p;
                    assert(has_path(prefix, p) ==> has_path(s, p)) by {
                        if has_path(prefix, p) {
                            let k = choose|k: int|
                                0 <= k < prefix.len() && (#[trigger] prefix[k]).path@ == p;
                            assert(s[k].path@ == p);
                        }
                    }
                }
            }
        } else {
            assert(d == dp.push(last));
            // order: everything kept from the front of the run is at or
            // before the run's last entry
            assert forall|i: int, j: int| 0 <= i < j < d.len() implies key_le(m, d[i], d[j]) by {
                if j < d.len() - 1 {
                    assert(d[i] == dp[i] && d[j] == dp[j]);
                } else {
                    assert(d[j] == last);
                    assert(d[i] == dp[i]);
                    let k = choose|k: int| 0 <= k < prefix.len() && prefix[k] == dp[i];
                    assert(s[k] == dp[i]);
                    assert(key_le(m, s[k], s[s.len() - 1]));
                }
            }
            // distinctness: a kept entry with the last entry's path would
            // squeeze the neighbour into the same path
            assert forall|i: int, j: int| 0 <= i < j < d.len() implies d[i].path@ != d[j].path@ by {
                if j == d.len() - 1 && i < j {
                    if d[i].path@ == last.path@ {
                        let k = choose|k: int| 0 <= k < prefix.len() && prefix[k] == dp[i];
                        assert(s[k] == dp[i]);
                        assert(s[k].path@ == s[s.len() - 1].path@);
                        if k == s.len() - 2 {
                            assert(false);
                        } else {
                            assert(key_le(m, s[k], s[s.len() - 2]));
                            assert(key_le(m, s[s.len() - 2], s[s.len() - 1]));
                            assert(key_le(m, s[k], s[s.len() - 1]));
                            assert(key_le(m, s[s.len() - 1], s[k])) by {
                                lemma_natural_key_reflexive(s[k], s[s.len() - 1]);
                            }
                            assert(key_le(m, s[s.len() - 2], s[k]));
                            lemma_natural_key_equal(s[k], s[s.len() - 2]);
                            assert(false);
                        }
                    }
                } else if j < d.len() - 1 {
                    assert(d[i] == dp[i] && d[j] == dp[j]);
                }
            }
            assert forall|p: Seq<char>| has_path(d, p) <==> has_path(s, p) by {
                if has_path(s, p) {
                    let i = choose|i: int| 0 <= i < s.len() && (#[trigger] s[i]).path@ == p;
                    if i == s.len() - 1 {
                        assert(d[d.len() - 1].path@ == p);
                    } else {
                        assert(prefix[i].path@ == p);
                        assert(has_path(prefix, p));
                        let k = choose|k: int| 0 <= k < dp.len() && (#[trigger] dp[k]).path@ == p;
                        assert(d[k].path@ == p);
                    }
                }
                if has_path(d, p) {
                    let i = choose|i: int| 0 <= i < d.len() && (#[trigger] d[i]).path@ == p;
                    if i == d.len() - 1 {
                        assert(s[s.len() - 1].path@ == p);
                    } else {
                        assert(has_path(prefix, p));
                        let k = choose|k: int|
                            0 <= k < prefix.len() && (#[trigger] prefix[k]).path@ == p;
                        assert(s[k].path@ == p);
                    }
                }
            }
        }
    }
}

/// Two entries with equal paths sit at the same place in the natural
/// order.
proof fn lemma_natural_key_reflexive(a: SelEntry, b: SelEntry)
    requires
        key_lawful(OrderKey::Natural),
        a.path@ == b.path@,
    ensures
        key_le(OrderKey::Natural, a, b),
        key_le(OrderKey::Natural, b, a),
{
    let m = OrderKey::Natural;
    assert(key_le(m, a, b) || key_le(m, b, a));
    assert(key_le(m, a, b) == key_le(m, b, a)) by {
        text::lemma_lex_total(a.path@, b.path@);
        text::lemma_lex_antisym(a.path@, a.path@);
    }
}

/// Sorted runs of pairwise distinct paths are determined by the set of
/// their paths.
proof fn lemma_unique_sorted(a: Seq<SelEntry>, b: Seq<SelEntry>)
    requires
        key_lawful(OrderKey::Natural),
        pairwise_le(a, OrderKey::Natural),
        pairwise_le(b, OrderKey::Natural),
        forall|i: int, j: int| 0 <= i < j < a.len() ==> (#[trigger] a[i]).path@ != (#[trigger] a[j]).path@,
        forall|i: int, j: int| 0 <= i < j < b.len() ==> (#[trigger] b[i]).path@ != (#[trigger] b[j]).path@,
        forall|p: Seq<char>| has_path(a, p) <==> has_path(b, p),
    ensures
        a.len() == b.len(),
        forall|i: int| 0 <= i < a.len() ==> (#[trigger] a[i]).path@ == b[i].path@,
    decreases a.len(),
{
    let m = OrderKey::Natural;
    if a.len() == 0 {
        if b.len() > 0 {
            assert(has_path(b, b[0].path@));
            assert(has_path(a, b[0].path@));
            assert(false);
        }
    } else {
        assert(has_path(a, a[0].path@));
        assert(has_path(b, a[0].path@));
        let k = choose|k: int| 0 <= k < b.len() && (#[trigger] b[k]).path@ == a[0].path@;
        assert(has_path(b, b[0].path@));
        assert(has_path(a, b[0].path@));
        let w = choose|w: int| 0 <= w < a.len() && (#[trigger] a[w]).path@ == b[0].path@;
        // the two heads carry the same path
        if k > 0 {
            assert(key_le(m, b[0], b[k]));
            if w > 0 {
                assert(key_le(m, a[0], a[w]));
            }
            lemma_key_by_path(b[0], b[k], a[0]);
            if w > 0 {
                lemma_key_by_path(a[0], a[w], b[0]);
                lemma_natural_key_equal(a[0], b[0]);
                assert(b[k].path@ == b[0].path@);
                assert(false);
            } else {
                assert(a[0].path@ == b[0].path@);
                assert(b[k].path@ == b[0].path@);
                assert(false);
            }
        }
        assert(a[0].path@ == b[0].path@);
        let at = a.drop_first();
        let bt = b.drop_first();
        assert(pairwise_le(at, m)) by {
            assert(forall|i: int, j: int|
                0 <= i < j < at.len() ==> at[i] == a[i + 1] && at[j] == a[j + 1]);
        }
        assert(pairwise_le(bt, m)) by {
            assert(forall|i: int, j: int|
                0 <= i < j < bt.len() ==> bt[i] == b[i + 1] && bt[j] == b[j + 1]);
        }
        assert(forall|i: int, j: int|
            0 <= i < j < at.len() ==> (#[trigger] at[i]).path@ != (#[trigger] at[j]).path@) by {
            assert(forall|i: int, j: int|
                0 <= i < j < at.len() ==> at[i] == a[i + 1] && at[j] == a[j + 1]);
        }
        assert(forall|i: int, j: int|
            0 <= i < j < bt.len() ==> (#[trigger] bt[i]).path@ != (#[trigger] bt[j]).path@) by {
            assert(forall|i: int, j: int|
                0 <= i < j < bt.len() ==> bt[i] == b[i + 1] && bt[j] == b[j + 1]);
        }
        assert forall|p: Seq<char>| has_path(at, p) <==> has_path(bt, p) by {
            if has_path(at, p) {
                let i = choose|i: int| 0 <= i < at.len() && (#[trigger] at[i]).path@ == p;
                assert(a[i + 1].path@ == p);
                assert(p != a[0].path@);
                assert(has_path(b, p));
                let j = choose|j: int| 0 <= j < b.len() && (#[trigger] b[j]).path@ == p;
                assert(j > 0);
                assert(bt[j - 1].path@ == p);
            }
            if has_path(bt, p) {
                let i = choose|i: int| 0 <= i < bt.len() && (#[trigger] bt[i]).path@ == p;
                assert(b[i + 1].path@ == p);
                assert(p != b[0].path@);
                assert(has_path(a, p));
                let j = choose|j: int| 0 <= j < a.len() && (#[trigger] a[j]).path@ == p;
                assert(j > 0);
                assert(at[j - 1].path@ == p);
            }
        }
        lemma_unique_sorted(at, bt);
        assert forall|i: int| 0 <= i < a.len() implies (#[trigger] a[i]).path@ == b[i].path@ by {
            if i > 0 {
                assert(at[i - 1].path@ == bt[i - 1].path@);
                assert(at[i - 1] == a[i] && bt[i - 1] == b[i]);
            }
        }
    }
}

/// The natural key looks only at paths: replacing an entry by one with
/// the same path does not change where it stands.
proof fn lemma_key_by_path(x: SelEntry, y: SelEntry, ysub: SelEntry)
    requires
        key_le(OrderKey::Natural, x, y),
        y.path@ == ysub.path@,
    ensures
        key_le(OrderKey::Natural, x, ysub),
{
}

/// Dedup idempotence: whatever the selection held before, adding a batch
/// of paths and then adding the same batch again leaves the selection's
/// paths exactly as the first add left them. The premise — the natural
/// comparator is total and transitive — is what every call of it
/// attests.
pub proof fn lemma_selection_add_idempotent(prior: Seq<SelEntry>, x: Seq<SelEntry>)
    requires
        nat_le_lawful(),
    ensures
        paths_of(sel_combine(sel_combine(prior + x) + x)) == paths_of(sel_combine(prior + x)),
{
    let m = OrderKey::Natural;
    crate::order::lemma_key_lawful(m);
    let base = prior + x;
    let s1 = sort_by_key(base, m);
    let r1 = sel_combine(base);
    lemma_sort_pairwise(base, m);
    lemma_dedup_props(s1);
    lemma_sort_same_paths(base, m);
    let y = r1 + x;
    let s2 = sort_by_key(y, m);
    let r2 = sel_combine(y);
    lemma_sort_pairwise(y, m);
    lemma_dedup_props(s2);
    lemma_sort_same_paths(y, m);
    assert forall|p: Seq<char>| has_path(r2, p) <==> has_path(r1, p) by {
        assert(has_path(y, p) <==> has_path(r1, p) || has_path(x, p)) by {
            if has_path(y, p) {
                let i = choose|i: int| 0 <= i < y.len() && (#[trigger] y[i]).path@ == p;
                if i < r1.len() {
                    assert(r1[i].path@ == p);
                } else {
                    assert(x[i - r1.len()].path@ == p);
                }
            }
            if has_path(r1, p) {
                let i = choose|i: int| 0 <= i < r1.len() && (#[trigger] r1[i]).path@ == p;
                assert(y[i].path@ == p);
            }
            if has_path(x, p) {
                let i = choose|i: int| 0 <= i < x.len() && (#[trigger] x[i]).path@ == p;
                assert(y[r1.len() + i].path@ == p);
            }
        }
        // a path of the batch is already in the first add's result
        if has_path(x, p) {
            let i = choose|i: int| 0 <= i < x.len() && (#[trigger] x[i]).path@ == p;
            assert(base[prior.len() + i].path@ == p);
            assert(has_path(base, p));
        }
    }
    lemma_unique_sorted(r2, r1);
    assert(paths_of(r2) =~= paths_of(r1));
}

/// The same, from the key order's lawfulness, for use where a comparator
/// call has provided it.
pub proof fn lemma_selection_distinct_of_lawful(x: Seq<SelEntry>)
    requires
        key_lawful(OrderKey::Natural),
    ensures
        forall|i: int, j: int|
            0 <= i < j < sel_combine(x).len() ==> (#[trigger] sel_combine(x)[i]).path@ != (
            #[trigger] sel_combine(x)[j]).path@,
{
    lemma_sort_pairwise(x, OrderKey::Natural);
    lemma_dedup_props(sort_by_key(x, OrderKey::Natural));
}

/// After adding paths, no two selection entries share a path — the
/// selection is truly a set.
pub proof fn lemma_selection_distinct(x: Seq<SelEntry>)
    requires
        nat_le_lawful(),
    ensures
        forall|i: int, j: int|
            0 <= i < j < sel_combine(x).len() ==> (#[trigger] sel_combine(x)[i]).path@ != (
            #[trigger] sel_combine(x)[j]).path@,
{
    let m = OrderKey::Natural;
    crate::order::lemma_key_lawful(m);
    lemma_selection_distinct_of_lawful(x);
}

} // verus!
