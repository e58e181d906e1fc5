//! Projects and their tasks.
//!
//! A project is a unit of source code with an identifier, a location in the
//! workspace, the identifiers of the projects it depends on, and its tasks.
//! Values of these types are assembled by the project graph from the parsed
//! workspace configuration and are immutable afterwards.

use crate::strutil::{clone_strings, str_seq, strings_contain};
use crate::target::{valid_id_chars, valid_target_chars};
use vstd::prelude::*;

verus! {

/// Mathematical image of a [`Task`].
pub struct TaskView {
    pub id: Seq<char>,
    pub command: Seq<char>,
    pub args: Seq<Seq<char>>,
    pub inputs: Seq<Seq<char>>,
    pub outputs: Seq<Seq<char>>,
    pub run_in_ci: bool,
    pub deps: Seq<Seq<char>>,
}

/// A named, runnable unit of work belonging to a project.
pub struct Task {
    /// Task identifier, unique within its project.
    pub id: String,
    /// The executable to run.
    pub command: String,
    /// Arguments handed to the command.
    pub args: Vec<String>,
    /// Declared input paths; the affectedness predicate reads them.
    pub inputs: Vec<String>,
    /// Declared output paths.
    pub outputs: Vec<String>,
    /// CI-eligibility flag.
    pub run_in_ci: bool,
    /// Targets (`project:task`) that must reach a terminal status first.
    pub deps: Vec<String>,
}

impl View for Task {
    type V = TaskView;

    open spec fn view(&self) -> TaskView {
        TaskView {
            id: self.id@,
            command: self.command@,
            args: str_seq(self.args@),
            inputs: str_seq(self.inputs@),
            outputs: str_seq(self.outputs@),
            run_in_ci: self.run_in_ci,
            deps: str_seq(self.deps@),
        }
    }
}

/// Mathematical image of a [`Project`].
pub struct ProjectView {
    pub id: Seq<char>,
    pub root: Seq<char>,
    pub source: Seq<char>,
    pub depends_on: Seq<Seq<char>>,
    pub tasks: Seq<TaskView>,
}

/// A unit of source code with its own tasks. Immutable once constructed;
/// the project graph hands out clones on each query.
pub struct Project {
    /// Project identifier, unique within the workspace.
    pub id: String,
    /// Absolute path of the project, under the workspace root.
    pub root: String,
    /// Path of the project relative to the workspace root.
    pub source: String,
    /// Identifiers of the projects this one depends on, in declaration order.
    pub depends_on: Vec<String>,
    /// The project's tasks, in declaration order.
    pub tasks: Vec<Task>,
}

/// The views of a sequence of tasks.
pub open spec fn task_views(v: Seq<Task>) -> Seq<TaskView> {
    v.map_values(|t: Task| t@)
}

impl View for Project {
    type V = ProjectView;

    open spec fn view(&self) -> ProjectView {
        ProjectView {
            id: self.id@,
            root: self.root@,
            source: self.source@,
            depends_on: str_seq(self.depends_on@),
            tasks: task_views(self.tasks@),
        }
    }
}

/// No two entries hold the same characters.
pub open spec fn no_dup_chars(v: Seq<Seq<char>>) -> bool {
    forall|i: int, j: int| 0 <= i < j < v.len() ==> v[i] != v[j]
}

/// A task as configuration validation guarantees it.
pub open spec fn task_view_wf(t: TaskView) -> bool {
    &&& valid_id_chars(t.id)
    &&& no_dup_chars(t.deps)
    &&& forall|i: int| 0 <= i < t.deps.len() ==> valid_target_chars(#[trigger] t.deps[i])
}

/// A project as configuration validation guarantees it: a well-formed
/// identifier, no dependency on itself, no duplicate dependency or task,
/// and well-formed tasks.
pub open spec fn project_view_wf(p: ProjectView) -> bool {
    &&& valid_id_chars(p.id)
    &&& no_dup_chars(p.depends_on)
    &&& forall|i: int|
        0 <= i < p.depends_on.len() ==> valid_id_chars(#[trigger] p.depends_on[i])
            && p.depends_on[i] != p.id
    &&& no_dup_chars(p.tasks.map_values(|t: TaskView| t.id))
    &&& forall|i: int| 0 <= i < p.tasks.len() ==> task_view_wf(#[trigger] p.tasks[i])
}

/// Whether some task of `tasks` carries the identifier `id`.
pub open spec fn has_task(tasks: Seq<TaskView>, id: Seq<char>) -> bool {
    exists|i: int| 0 <= i < tasks.len() && tasks[i].id == id
}

/// The task of `tasks` carrying the identifier `id`.
pub open spec fn task_named(tasks: Seq<TaskView>, id: Seq<char>) -> TaskView {
    tasks[choose|i: int| 0 <= i < tasks.len() && tasks[i].id == id]
}

/// With unique task identifiers, the task at a position is the task named
/// by its identifier.
pub proof fn lemma_task_named_at(tasks: Seq<TaskView>, t: int)
    requires
        0 <= t < tasks.len(),
        no_dup_chars(tasks.map_values(|x: TaskView| x.id)),
    ensures
        has_task(tasks, tasks[t].id),
        task_named(tasks, tasks[t].id) == tasks[t],
{
    assert(has_task(tasks, tasks[t].id));
    let w = choose|w: int| 0 <= w < tasks.len() && tasks[w].id == tasks[t].id;
    if w != t {
        let ids = tasks.map_values(|x: TaskView| x.id);
        assert(ids[w] == tasks[w].id && ids[t] == tasks[t].id);
        if w < t {
            assert(ids[w] != ids[t]);
        } else {
            assert(ids[t] != ids[w]);
        }
    }
}

/// A target is affected when one of its declared inputs is in the
/// touched-file set.
pub open spec fn affected_by(inputs: Seq<Seq<char>>, touched: Seq<Seq<char>>) -> bool {
    exists|i: int| 0 <= i < inputs.len() && touched.contains(#[trigger] inputs[i])
}

/// Mathematical image of a [`ProjectConfig`].
pub struct ProjectConfigView {
    pub depends_on: Seq<Seq<char>>,
    pub tasks: Seq<TaskView>,
}

/// What the external configuration loader hands over for one project:
/// its declared dependencies and its parsed tasks.
pub struct ProjectConfig {
    pub depends_on: Vec<String>,
    pub tasks: Vec<Task>,
}

impl View for ProjectConfig {
    type V = ProjectConfigView;

    open spec fn view(&self) -> ProjectConfigView {
        ProjectConfigView {
            depends_on: str_seq(self.depends_on@),
            tasks: task_views(self.tasks@),
        }
    }
}

/// A configuration as validation guarantees it for the project `id` in a
/// workspace whose synthetic root is named `root`: no duplicate or invalid
/// dependency, no dependency on the project itself or on the root sentinel,
/// and well-formed tasks with unique identifiers.
pub open spec fn config_view_wf(c: ProjectConfigView, id: Seq<char>, root: Seq<char>) -> bool {
    &&& no_dup_chars(c.depends_on)
    &&& forall|i: int|
        0 <= i < c.depends_on.len() ==> valid_id_chars(#[trigger] c.depends_on[i])
            && c.depends_on[i] != id && c.depends_on[i] != root
    &&& no_dup_chars(c.tasks.map_values(|t: TaskView| t.id))
    &&& forall|i: int| 0 <= i < c.tasks.len() ==> task_view_wf(#[trigger] c.tasks[i])
}

/// Copies a list of tasks, field for field.
pub fn clone_tasks(v: &Vec<Task>) -> (r: Vec<Task>)
    ensures
        task_views(r@) == task_views(v@),
        r@.len() == v@.len(),
{
    let mut out: Vec<Task> = Vec::new();
    let mut i: usize = 0;
    while i < v.len()
        invariant
            i <= v.len(),
            out@.len() == i,
            forall|k: int| 0 <= k < i ==> task_views(out@)[k] == task_views(v@)[k],
        decreases v.len() - i,
    {
        let ghost prefix = out@;
        out.push(v[i].clone());
        proof {
            assert forall|k: int| 0 <= k < i + 1 implies task_views(out@)[k] == task_views(v@)[k]
                by {
                if k < i {
                    assert(out@[k] == prefix[k]);
                    assert(task_views(prefix)[k] == task_views(v@)[k]);
                } else {
                    assert(out@[k]@ == v@[k]@);
                }
            }
        }
        i = i + 1;
    }
    proof {
        assert(task_views(out@) =~= task_views(v@));
    }
    out
}

impl Clone for Task {
    fn clone(&self) -> (res: Self)
        ensures
            res@ == self@,
    {
        Task {
            id: self.id.clone(),
            command: self.command.clone(),
            args: clone_strings(&self.args),
            inputs: clone_strings(&self.inputs),
            outputs: clone_strings(&self.outputs),
            run_in_ci: self.run_in_ci,
            deps: clone_strings(&self.deps),
        }
    }
}

impl Task {
    /// Whether a continuous-integration run should consider the work at all.
    pub fn should_run_in_ci(&self) -> (r: bool)
        ensures
            r == self@.run_in_ci,
    {
        self.run_in_ci
    }

    /// Whether the given touched-file set makes the work affected: true
    /// exactly when a declared input is among the touched files.
    pub fn is_affected(&self, touched_files: &Vec<String>) -> (r: bool)
        ensures
            r == affected_by(self@.inputs, str_seq(touched_files@)),
    {
        let mut i: usize = 0;
        while i < self.inputs.len()
            invariant
                i <= self.inputs.len(),
                forall|k: int|
                    0 <= k < i ==> !str_seq(touched_files@).contains(
                        #[trigger] str_seq(self.inputs@)[k],
                    ),
            decreases self.inputs.len() - i,
        {
            if strings_contain(touched_files, self.inputs[i].as_str()) {
                assert(str_seq(touched_files@).contains(str_seq(self.inputs@)[i as int]));
                return true;
            }
            i = i + 1;
        }
        false
    }
}

impl Clone for Project {
    fn clone(&self) -> (res: Self)
        ensures
            res@ == self@,
    {
        Project {
            id: self.id.clone(),
            root: self.root.clone(),
            source: self.source.clone(),
            depends_on: clone_strings(&self.depends_on),
            tasks: clone_tasks(&self.tasks),
        }
    }
}

impl Project {
    /// The identifiers of the projects this one directly depends on.
    pub fn get_dependencies(&self) -> (r: Vec<String>)
        ensures
            str_seq(r@) == self@.depends_on,
    {
        clone_strings(&self.depends_on)
    }

    /// The task named `task_id`, if the project declares one.
    pub fn get_task(&self, task_id: &str) -> (r: Option<&Task>)
        ensures
            r is Some <==> has_task(self@.tasks, task_id@),
            r matches Some(t) ==> t@.id == task_id@ && self@.tasks.contains(t@),
    {
        let mut i: usize = 0;
        while i < self.tasks.len()
            invariant
                i <= self.tasks.len(),
                forall|k: int| 0 <= k < i ==> self@.tasks[k].id != task_id@,
            decreases self.tasks.len() - i,
        {
            if crate::strutil::str_eq(self.tasks[i].id.as_str(), task_id) {
                assert(self@.tasks[i as int].id == task_id@);
                return Some(&self.tasks[i]);
            }
            i = i + 1;
        }
        None
    }
}

} // verus!
