//! The materializer and the task pipeline. The materializer turns the
//! sorted selection into working files, targets starting equal to their
//! sources, and converts each entry's modification stamp to calendar form
//! once. The pipeline then applies every task, in list order, to every
//! working file's current target, chaining each task onto the last.

use vstd::prelude::*;
use crate::bridge;
use crate::model::{CivilDateTime, SelEntry, Task, WorkingFile};
use crate::tasks::task_step;
use crate::text;

verus! {

/// All tasks applied in order to one target path.
pub open spec fn run_tasks(
    t: Seq<char>,
    tasks: Seq<Task>,
    index: nat,
    civil: Option<CivilDateTime>,
) -> Seq<char>
    decreases tasks.len(),
{
    if tasks.len() == 0 {
        t
    } else {
        run_tasks(task_step(t, tasks[0], index, civil), tasks.drop_first(), index, civil)
    }
}

/// The calendar form of an entry's modification stamp, when the stamp was
/// readable and in range.
pub open spec fn civil_of_entry(e: SelEntry) -> Option<CivilDateTime> {
    match e.meta {
        None => None,
        Some(m) => match m.modified {
            None => None,
            Some(secs) => bridge::civil_of_epoch(secs as int),
        },
    }
}

/// Apply every task in order to one target path.
#[verifier::loop_isolation(false)]
pub fn apply_all_tasks(
    t0: &Vec<char>,
    tasks: &Vec<Task>,
    index: usize,
    civil: Option<CivilDateTime>,
) -> (r: Vec<char>)
    ensures
        r@ == run_tasks(t0@, tasks@, index as nat, civil),
{
    let mut cur = text::dup(t0);
    let mut k: usize = 0;
    proof {
        assert(tasks@.skip(0) =~= tasks@);
    }
    while k < tasks.len()
        invariant
            k <= tasks@.len(),
            run_tasks(t0@, tasks@, index as nat, civil) == run_tasks(
                cur@,
                tasks@.skip(k as int),
                index as nat,
                civil,
            ),
        decreases tasks@.len() - k,
    {
        proof {
            assert(tasks@.skip(k as int)[0] == tasks@[k as int]);
            assert(tasks@.skip(k as int).drop_first() =~= tasks@.skip(k as int + 1));
        }
        let stepped = crate::tasks::apply_task(&cur, &tasks[k], index, civil);
        cur = stepped;
        k = k + 1;
    }
    proof {
        assert(tasks@.skip(tasks@.len() as int).len() == 0);
    }
    cur
}

/// One working file per sorted entry, in order: target starts equal to
/// source, every file active, and the entry's modification stamp carried
/// over in calendar form.
#[verifier::loop_isolation(false)]
pub fn convert_file_names_to_working_files(sorted: &Vec<SelEntry>) -> (r: (
    Vec<WorkingFile>,
    Vec<Option<CivilDateTime>>,
))
    ensures
        r.0@.len() == sorted@.len(),
        r.1@.len() == sorted@.len(),
        forall|i: int|
            0 <= i < sorted@.len() ==> {
                &&& (#[trigger] r.0@[i]).source@ == sorted@[i].path@
                &&& r.0@[i].target@ == sorted@[i].path@
                &&& r.0@[i].active == true
            },
        forall|i: int| 0 <= i < sorted@.len() ==> r.1@[i] == civil_of_entry(sorted@[i]),
{
    let mut files: Vec<WorkingFile> = Vec::new();
    let mut civils: Vec<Option<CivilDateTime>> = Vec::new();
    let mut i: usize = 0;
    while i < sorted.len()
        invariant
            i <= sorted@.len(),
            files@.len() == i,
            civils@.len() == i,
            forall|j: int|
                0 <= j < i ==> {
                    &&& (#[trigger] files@[j]).source@ == sorted@[j].path@
                    &&& files@[j].target@ == sorted@[j].path@
                    &&& files@[j].active == true
                },
            forall|j: int| 0 <= j < i ==> civils@[j] == civil_of_entry(sorted@[j]),
        decreases sorted@.len() - i,
    {
        let entry = &sorted[i];
        let civil: Option<CivilDateTime> = match entry.meta {
            None => None,
            Some(m) => match m.modified {
                None => None,
                Some(secs) => bridge::civil_from_epoch(secs),
            },
        };
        let wf = WorkingFile {
            source: entry.path.clone(),
            target: entry.path.clone(),
            active: true,
        };
        files.push(wf);
        civils.push(civil);
        i = i + 1;
    }
    (files, civils)
}

/// Run the pipeline: for each working file, reset the target to the source
/// and apply every task in order.
#[verifier::loop_isolation(false)]
pub fn process_tasks_on_working_files(
    files: &mut Vec<WorkingFile>,
    civils: &Vec<Option<CivilDateTime>>,
    tasks: &Vec<Task>,
)
    requires
        civils@.len() == old(files)@.len(),
    ensures
        final(files)@.len() == old(files)@.len(),
        forall|i: int|
            0 <= i < old(files)@.len() ==> {
                &&& (#[trigger] final(files)@[i]).source@ == old(files)@[i].source@
                &&& final(files)@[i].active == old(files)@[i].active
                &&& final(files)@[i].target@ == run_tasks(
                    old(files)@[i].source@,
                    tasks@,
                    i as nat,
                    civils@[i],
                )
            },
{
    let n = files.len();
    let mut out: Vec<WorkingFile> = Vec::new();
    let mut i: usize = 0;
    while i < n
        invariant
            i <= n,
            n == old(files)@.len(),
            files@ == old(files)@,
            out@.len() == i,
            forall|j: int|
                0 <= j < i ==> {
                    &&& (#[trigger] out@[j]).source@ == old(files)@[j].source@
                    &&& out@[j].active == old(files)@[j].active
                    &&& out@[j].target@ == run_tasks(
                        old(files)@[j].source@,
                        tasks@,
                        j as nat,
                        civils@[j],
                    )
                },
        decreases n - i,
    {
        let srcv = text::chars_of(files[i].source.as_str());
        let newt = apply_all_tasks(&srcv, tasks, i, civils[i]);
        let wf = WorkingFile {
            source: files[i].source.clone(),
            target: text::string_of(&newt),
            active: files[i].active,
        };
        out.push(wf);
        i = i + 1;
    }
    *files = out;
}

} // verus!
