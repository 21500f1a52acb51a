//! The view filter: a read-only projection of the plan. Each working file
//! becomes a row of old and new name; a non-empty search string keeps only
//! rows whose old or new name holds it as a literal, case-sensitive run.

use vstd::prelude::*;
use crate::model::{FileStatus, WorkingFile};
use crate::pathname::file_name_of;
use crate::pathname;
use crate::text::has_substring;
use crate::text;

verus! {

/// A row as a pair of name views.
pub open spec fn rows_of(rs: Seq<FileStatus>) -> Seq<(Seq<char>, Seq<char>)> {
    rs.map_values(|s: FileStatus| (s.old_file_name@, s.new_file_name@))
}

/// Whether a working file passes the search.
pub open spec fn row_passes(w: WorkingFile, search: Seq<char>) -> bool {
    ||| search.len() == 0
    ||| has_substring(file_name_of(w.source@), search)
    ||| has_substring(file_name_of(w.target@), search)
}

/// The filtered plan: one row of old and new name for every working file
/// the search keeps, in order.
pub open spec fn status_rows(ws: Seq<WorkingFile>, search: Seq<char>) -> Seq<
    (Seq<char>, Seq<char>),
>
    decreases ws.len(),
{
    if ws.len() == 0 {
        Seq::empty()
    } else {
        let rest = status_rows(ws.drop_last(), search);
        let w = ws.last();
        if row_passes(w, search) {
            rest.push((file_name_of(w.source@), file_name_of(w.target@)))
        } else {
            rest
        }
    }
}

/// Project and filter the plan, executable form.
#[verifier::loop_isolation(false)]
pub fn convert_working_files_to_file_status(files: &Vec<WorkingFile>, search: &String) -> (r: Vec<
    FileStatus,
>)
    ensures
        rows_of(r@) == status_rows(files@, search@),
{
    let sv = text::chars_of(search.as_str());
    let search_empty = sv.len() == 0;
    let mut out: Vec<FileStatus> = Vec::new();
    let mut i: usize = 0;
    proof {
        assert(files@.take(0) =~= Seq::<WorkingFile>::empty());
        assert(rows_of(out@) =~= status_rows(files@.take(0), search@));
    }
    while i < files.len()
        invariant
            i <= files@.len(),
            sv@ == search@,
            search_empty == (search@.len() == 0),
            rows_of(out@) == status_rows(files@.take(i as int), search@),
        decreases files@.len() - i,
    {
        proof {
            assert(files@.take(i as int + 1).drop_last() =~= files@.take(i as int));
            assert(files@.take(i as int + 1).last() == files@[i as int]);
        }
        let w = &files[i];
        let srcv = text::chars_of(w.source.as_str());
        let tgtv = text::chars_of(w.target.as_str());
        let (_sd, sname) = pathname::split_dir_name(&srcv);
        let (_td, tname) = pathname::split_dir_name(&tgtv);
        let keep = search_empty || text::has_substring_exec(&sname, &sv)
            || text::has_substring_exec(&tname, &sv);
        if keep {
            let row = FileStatus {
                old_file_name: text::string_of(&sname),
                new_file_name: text::string_of(&tname),
            };
            out.push(row);
        }
        i = i + 1;
        proof {
            assert(rows_of(out@) =~= status_rows(files@.take(i as int), search@));
        }
    }
    proof {
        assert(files@.take(files@.len() as int) =~= files@);
    }
    out
}

} // verus!
