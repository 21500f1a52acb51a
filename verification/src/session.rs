//! The session: the process-lifetime state every operation works on, and
//! the operations themselves. Adding files or changing the sort re-runs
//! the whole chain — selection, sort, materialize, pipeline, resolve;
//! changing the tasks re-runs pipeline and resolver on the standing
//! working files; changing the search re-filters only. The rename itself
//! is the caller's: the session only says whether it may go ahead.

use vstd::prelude::*;
use crate::model::{CivilDateTime, FileStatus, SelEntry, Task, WorkingFile};
use crate::pipeline::{civil_of_entry, run_tasks};
use crate::pipeline;
use crate::resolver::{resolved_target, targets_of};
use crate::resolver;
use crate::selection::sel_combine;
use crate::selection;
use crate::sortstage::sort_stage;
use crate::sortstage;
use crate::statuses::{rows_of, status_rows};
use crate::statuses;

verus! {

/// What stands between a rename request and the rename.
#[derive(Clone, Copy, PartialEq, Eq, Structural, Debug)]
pub enum RenameGate {
    /// Tasks are set up but no files are selected.
    MissingFiles,
    /// Files are selected but no tasks are set up.
    MissingTasks,
    /// Neither files nor tasks are present.
    MissingBoth,
    /// Files and tasks are both present; the rename may proceed.
    Ready,
}

/// The mutable session state.
pub struct Session {
    pub entries: Vec<SelEntry>,
    pub sorted: Vec<SelEntry>,
    pub working: Vec<WorkingFile>,
    pub civils: Vec<Option<CivilDateTime>>,
    pub tasks: Vec<Task>,
    pub sort_choice: String,
    pub search: String,
}

/// The targets the pipeline computes for the standing working files.
pub open spec fn replan_targets(
    ws: Seq<WorkingFile>,
    civils: Seq<Option<CivilDateTime>>,
    tasks: Seq<Task>,
) -> Seq<Seq<char>> {
    Seq::new(ws.len(), |i: int| run_tasks(ws[i].source@, tasks, i as nat, civils[i]))
}

/// Which gate a session is at.
pub open spec fn gate_of(s: Session) -> RenameGate {
    if s.tasks@.len() > 0 && s.entries@.len() == 0 {
        RenameGate::MissingFiles
    } else if s.tasks@.len() == 0 && s.entries@.len() > 0 {
        RenameGate::MissingTasks
    } else if s.tasks@.len() == 0 && s.entries@.len() == 0 {
        RenameGate::MissingBoth
    } else {
        RenameGate::Ready
    }
}

impl Session {
    /// The parallel stamp list matches the working files.
    pub open spec fn wf(self) -> bool {
        self.civils@.len() == self.working@.len()
    }

    /// The working files carry the plan for the current sorted selection:
    /// one per entry, sources the sorted paths, stamps carried over, and
    /// every target the resolved pipeline output.
    pub open spec fn plan_fresh(self) -> bool {
        &&& self.working@.len() == self.sorted@.len()
        &&& self.civils@.len() == self.sorted@.len()
        &&& forall|i: int|
            0 <= i < self.sorted@.len() ==> (#[trigger] self.civils@[i]) == civil_of_entry(
                self.sorted@[i],
            )
        &&& forall|i: int|
            0 <= i < self.sorted@.len() ==> {
                &&& (#[trigger] self.working@[i]).source@ == self.sorted@[i].path@
                &&& self.working@[i].active == true
                &&& self.working@[i].target@ == resolved_target(
                    replan_targets(self.working@, self.civils@, self.tasks@),
                    i,
                )
            }
    }

    /// A fresh, empty session.
    pub fn new() -> (s: Session)
        ensures
            s.wf(),
            s.entries@.len() == 0,
            s.sorted@.len() == 0,
            s.working@.len() == 0,
            s.tasks@.len() == 0,
            s.sort_choice@.len() == 0,
            s.search@.len() == 0,
    {
        Session {
            entries: Vec::new(),
            sorted: Vec::new(),
            working: Vec::new(),
            civils: Vec::new(),
            tasks: Vec::new(),
            sort_choice: String::new(),
            search: String::new(),
        }
    }

    /// Rebuild everything downstream of the selection: sort, materialize,
    /// run the pipeline, resolve collisions, and hand back the filtered
    /// plan.
    fn recompute_from_selection(&mut self) -> (r: Vec<FileStatus>)
        ensures
            final(self).entries == old(self).entries,
            final(self).tasks == old(self).tasks,
            final(self).sort_choice == old(self).sort_choice,
            final(self).search == old(self).search,
            final(self).sorted@ == sort_stage(old(self).entries@, old(self).sort_choice@),
            final(self).wf(),
            final(self).plan_fresh(),
            rows_of(r@) == status_rows(final(self).working@, old(self).search@),
    {
        self.sorted = sortstage::sort_file_names(&self.entries, &self.sort_choice);
        let (w, c) = pipeline::convert_file_names_to_working_files(&self.sorted);
        self.working = w;
        self.civils = c;
        pipeline::process_tasks_on_working_files(&mut self.working, &self.civils, &self.tasks);
        let ghost mid = self.working@;
        resolver::resolve_workingfile_duplicates(&mut self.working);
        proof {
            assert(targets_of(mid) =~= replan_targets(mid, self.civils@, self.tasks@));
            assert(replan_targets(self.working@, self.civils@, self.tasks@) =~= replan_targets(
                mid,
                self.civils@,
                self.tasks@,
            ));
        }
        statuses::convert_working_files_to_file_status(&self.working, &self.search)
    }

    /// Add selected paths: deduplicate and naturally sort the selection,
    /// then rebuild the whole plan.
    pub fn user_open_files(&mut self, new_entries: Vec<SelEntry>) -> (r: Vec<FileStatus>)
        ensures
            final(self).entries@ == sel_combine(old(self).entries@ + new_entries@),
            forall|i: int, j: int|
                0 <= i < j < final(self).entries@.len() ==> (
                #[trigger] final(self).entries@[i]).path@ != (
                #[trigger] final(self).entries@[j]).path@,
            final(self).tasks == old(self).tasks,
            final(self).sort_choice == old(self).sort_choice,
            final(self).search == old(self).search,
            final(self).sorted@ == sort_stage(final(self).entries@, old(self).sort_choice@),
            final(self).wf(),
            final(self).plan_fresh(),
            rows_of(r@) == status_rows(final(self).working@, old(self).search@),
    {
        selection::solve_duplicates(&mut self.entries, new_entries);
        self.recompute_from_selection()
    }

    /// Change the sort choice and rebuild the whole plan.
    pub fn user_update_sort(&mut self, sort_choice: String) -> (r: Vec<FileStatus>)
        ensures
            final(self).entries == old(self).entries,
            final(self).tasks == old(self).tasks,
            final(self).sort_choice == sort_choice,
            final(self).search == old(self).search,
            final(self).sorted@ == sort_stage(old(self).entries@, sort_choice@),
            final(self).wf(),
            final(self).plan_fresh(),
            rows_of(r@) == status_rows(final(self).working@, old(self).search@),
    {
        self.sort_choice = sort_choice;
        self.recompute_from_selection()
    }

    /// Replace the task list and re-run pipeline and resolver on the
    /// standing working files.
    pub fn user_update_tasks(&mut self, task_list: Vec<Task>) -> (r: Vec<FileStatus>)
        requires
            old(self).wf(),
        ensures
            final(self).entries == old(self).entries,
            final(self).sorted == old(self).sorted,
            final(self).tasks == task_list,
            final(self).sort_choice == old(self).sort_choice,
            final(self).search == old(self).search,
            final(self).civils == old(self).civils,
            final(self).wf(),
            final(self).working@.len() == old(self).working@.len(),
            forall|i: int|
                0 <= i < old(self).working@.len() ==> {
                    &&& (#[trigger] final(self).working@[i]).source@ == old(
                        self,
                    ).working@[i].source@
                    &&& final(self).working@[i].active == old(self).working@[i].active
                    &&& final(self).working@[i].target@ == resolved_target(
                        replan_targets(old(self).working@, old(self).civils@, task_list@),
                        i,
                    )
                },
            rows_of(r@) == status_rows(final(self).working@, old(self).search@),
    {
        self.tasks = task_list;
        pipeline::process_tasks_on_working_files(&mut self.working, &self.civils, &self.tasks);
        let ghost mid = self.working@;
        resolver::resolve_workingfile_duplicates(&mut self.working);
        proof {
            assert(targets_of(mid) =~= replan_targets(
                old(self).working@,
                self.civils@,
                self.tasks@,
            ));
        }
        statuses::convert_working_files_to_file_status(&self.working, &self.search)
    }

    /// Change the search string; nothing is recomputed, only re-filtered.
    pub fn user_update_search(&mut self, search: String) -> (r: Vec<FileStatus>)
        ensures
            final(self).entries == old(self).entries,
            final(self).sorted == old(self).sorted,
            final(self).working == old(self).working,
            final(self).civils == old(self).civils,
            final(self).tasks == old(self).tasks,
            final(self).sort_choice == old(self).sort_choice,
            final(self).search == search,
            rows_of(r@) == status_rows(final(self).working@, search@),
    {
        self.search = search;
        statuses::convert_working_files_to_file_status(&self.working, &self.search)
    }

    /// Empty the selection and the working files.
    pub fn user_clear_files(&mut self)
        ensures
            final(self).entries@.len() == 0,
            final(self).sorted@.len() == 0,
            final(self).working@.len() == 0,
            final(self).civils@.len() == 0,
            final(self).tasks == old(self).tasks,
            final(self).sort_choice == old(self).sort_choice,
            final(self).search == old(self).search,
            final(self).wf(),
    {
        self.entries.clear();
        self.sorted.clear();
        self.working.clear();
        self.civils.clear();
    }

    /// The filtered plan as it stands, nothing recomputed.
    pub fn current_plan(&self) -> (r: Vec<FileStatus>)
        ensures
            rows_of(r@) == status_rows(self.working@, self.search@),
    {
        statuses::convert_working_files_to_file_status(&self.working, &self.search)
    }

    /// Whether a rename may proceed, and if not, which precondition fails.
    /// The caller confirms with the user and performs the renames itself;
    /// afterwards it clears the session.
    pub fn user_rename_gate(&self) -> (g: RenameGate)
        ensures
            g == gate_of(*self),
    {
        let tasks_empty = self.tasks.is_empty();
        let files_empty = self.entries.is_empty();
        if !tasks_empty && files_empty {
            RenameGate::MissingFiles
        } else if tasks_empty && !files_empty {
            RenameGate::MissingTasks
        } else if tasks_empty && files_empty {
            RenameGate::MissingBoth
        } else {
            RenameGate::Ready
        }
    }
}

} // verus!
