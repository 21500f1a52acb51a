//! The collision resolver. Walking the working files in order, each file
//! whose computed target was already seen `n` times (counting the
//! pre-resolution targets) gets `_` and a four-digit occurrence number
//! spliced in before its extension; the first holder of a target keeps it
//! unchanged.

use vstd::prelude::*;
use crate::model::WorkingFile;
use crate::numeral::padded_dec;
use crate::numeral;
use crate::pathname::{file_name_of, stem_of, with_name};
use crate::pathname;
use crate::tasks::attach_ext;
use crate::text;

verus! {

/// The targets of a working-file list.
pub open spec fn targets_of(ws: Seq<WorkingFile>) -> Seq<Seq<char>> {
    ws.map_values(|w: WorkingFile| w.target@)
}

/// How many of the first `upto` targets equal `x`.
pub open spec fn count_eq(ts: Seq<Seq<char>>, upto: int, x: Seq<char>) -> nat
    decreases upto,
{
    if upto <= 0 {
        0
    } else {
        count_eq(ts, upto - 1, x) + if ts[upto - 1] == x {
            1nat
        } else {
            0nat
        }
    }
}

/// How often a file's own target occurred before it.
pub open spec fn occ_before(ts: Seq<Seq<char>>, i: int) -> nat {
    count_eq(ts, i, ts[i])
}

/// A name with the occurrence number spliced in before the extension.
pub open spec fn suffix_name(nm: Seq<char>, n: nat) -> Seq<char> {
    attach_ext(stem_of(nm) + seq!['_'] + padded_dec(n, 4), nm)
}

/// A target with its name so disambiguated.
pub open spec fn suffixed_target(t: Seq<char>, n: nat) -> Seq<char> {
    with_name(t, suffix_name(file_name_of(t), n))
}

/// What resolution leaves as the `i`th target.
pub open spec fn resolved_target(ts: Seq<Seq<char>>, i: int) -> Seq<char> {
    if occ_before(ts, i) == 0 {
        ts[i]
    } else {
        suffixed_target(ts[i], occ_before(ts, i))
    }
}

/// Disambiguate colliding targets in one ordered pass.
#[verifier::loop_isolation(false)]
pub fn resolve_workingfile_duplicates(files: &mut Vec<WorkingFile>)
    ensures
        final(files)@.len() == old(files)@.len(),
        forall|i: int|
            0 <= i < old(files)@.len() ==> {
                &&& (#[trigger] final(files)@[i]).source == old(files)@[i].source
                &&& final(files)@[i].active == old(files)@[i].active
                &&& final(files)@[i].target@ == resolved_target(targets_of(old(files)@), i)
            },
{
    let ghost ts = targets_of(old(files)@);
    let n = files.len();
    let mut origs: Vec<Vec<char>> = Vec::new();
    let mut i: usize = 0;
    while i < n
        invariant
            i <= n,
            n == files@.len(),
            files@ == old(files)@,
            origs@.len() == i,
            forall|j: int| 0 <= j < i ==> (#[trigger] origs@[j])@ == ts[j],
        decreases n - i,
    {
        let tv = text::chars_of(files[i].target.as_str());
        origs.push(tv);
        i = i + 1;
    }
    let mut out: Vec<WorkingFile> = Vec::new();
    let mut i: usize = 0;
    while i < n
        invariant
            i <= n,
            n == files@.len(),
            files@ == old(files)@,
            origs@.len() == n,
            forall|j: int| 0 <= j < n ==> (#[trigger] origs@[j])@ == ts[j],
            out@.len() == i,
            forall|j: int|
                0 <= j < i ==> {
                    &&& (#[trigger] out@[j]).source == old(files)@[j].source
                    &&& out@[j].active == old(files)@[j].active
                    &&& out@[j].target@ == resolved_target(ts, j)
                },
        decreases n - i,
    {
        let mut count: usize = 0;
        let mut j: usize = 0;
        while j < i
            invariant
                j <= i <= n,
                count <= j,
                origs@.len() == n,
                forall|k: int| 0 <= k < n ==> (#[trigger] origs@[k])@ == ts[k],
                count == count_eq(ts, j as int, ts[i as int]),
            decreases i - j,
        {
            if text::seq_eq(&origs[j], &origs[i]) {
                count = count + 1;
            }
            j = j + 1;
        }
        let target: String = if count == 0 {
            files[i].target.clone()
        } else {
            let (dir, name) = pathname::split_dir_name(&origs[i]);
            let (stem, extopt) = pathname::split_stem_ext(&name);
            let mut core = stem;
            core.push('_');
            let pad = numeral::padded_dec_exec(count as u128, 4);
            text::push_all(&mut core, &pad);
            proof {
                assert(core@ =~= stem_of(name@) + seq!['_'] + padded_dec(count as nat, 4));
            }
            let newname = crate::tasks::attach_ext_exec(core, &name);
            let full = text::concat2(&dir, &newname);
            text::string_of(&full)
        };
        let wf = WorkingFile {
            source: files[i].source.clone(),
            target,
            active: files[i].active,
        };
        out.push(wf);
        i = i + 1;
    }
    *files = out;
}

} // verus!
