//! Status tracking of build stages and their sub-steps, with revert that
//! invalidates every downstream stage.

use vstd::prelude::*;
use vstd::string::StringExecFns;

use crate::error::BuildError;
use crate::flow_graph::{flow_key, BuildStage, FlowGraph};
use crate::topology::{is_walk, reachable};

verus! {

#[derive(Debug, Clone, Copy, PartialEq, Eq, Structural)]
pub enum TaskStatus {
    Planned,
    Running,
    Succeeded,
    Failed,
    Stale,
}

/// A finer step within a stage.
#[derive(Debug, Clone)]
pub struct SubTask {
    pub id: String,
    pub parent_id: String,
    pub status: TaskStatus,
    pub error: Option<String>,
}

/// The status record of one stage; `id` is the stage's flow key.
#[derive(Debug, Clone)]
pub struct Task {
    pub id: String,
    pub status: TaskStatus,
    pub error: Option<String>,
    pub subtasks: Vec<SubTask>,
}

/// The first index in `s` whose id is `id`, if any.
pub open spec fn first_subtask(s: Seq<SubTask>, id: Seq<char>) -> Option<int>
    decreases s.len(),
{
    if s.len() == 0 {
        None
    } else {
        match first_subtask(s.drop_last(), id) {
            Some(i) => Some(i),
            None => if s.last().id@ == id {
                Some(s.len() - 1)
            } else {
                None
            },
        }
    }
}

/// The first index in `s` whose id is `id`, if any.
pub open spec fn first_task(s: Seq<Task>, id: Seq<char>) -> Option<int>
    decreases s.len(),
{
    if s.len() == 0 {
        None
    } else {
        match first_task(s.drop_last(), id) {
            Some(i) => Some(i),
            None => if s.last().id@ == id {
                Some(s.len() - 1)
            } else {
                None
            },
        }
    }
}

proof fn lemma_first_subtask(s: Seq<SubTask>, id: Seq<char>, k: int)
    requires
        0 <= k <= s.len(),
        forall|j: int| 0 <= j < k ==> #[trigger] s[j].id@ != id,
        k < s.len() ==> s[k].id@ == id,
    ensures
        first_subtask(s, id) == (if k < s.len() {
            Some(k)
        } else {
            None::<int>
        }),
    decreases s.len(),
{
    if s.len() > 0 {
        let rest = s.drop_last();
        if k < s.len() - 1 {
            assert(rest[k] == s[k]);
            lemma_first_subtask(rest, id, k);
        } else {
            assert forall|j: int| 0 <= j < rest.len() implies #[trigger] rest[j].id@ != id by {
                assert(rest[j] == s[j]);
            }
            lemma_first_subtask(rest, id, rest.len() as int);
        }
    }
}

proof fn lemma_first_task(s: Seq<Task>, id: Seq<char>, k: int)
    requires
        0 <= k <= s.len(),
        forall|j: int| 0 <= j < k ==> #[trigger] s[j].id@ != id,
        k < s.len() ==> s[k].id@ == id,
    ensures
        first_task(s, id) == (if k < s.len() {
            Some(k)
        } else {
            None::<int>
        }),
    decreases s.len(),
{
    if s.len() > 0 {
        let rest = s.drop_last();
        if k < s.len() - 1 {
            assert(rest[k] == s[k]);
            lemma_first_task(rest, id, k);
        } else {
            assert forall|j: int| 0 <= j < rest.len() implies #[trigger] rest[j].id@ != id by {
                assert(rest[j] == s[j]);
            }
            lemma_first_task(rest, id, rest.len() as int);
        }
    }
}

impl SubTask {
    pub fn new(id: &str) -> (r: Self)
        ensures
            r.id@ == id@,
            r.parent_id@.len() == 0,
            r.status == TaskStatus::Planned,
            r.error is None,
    {
        SubTask { id: String::from_str(id), parent_id: String::new(), status: TaskStatus::Planned, error: None }
    }
}

impl Task {
    pub fn new(id: &str) -> (r: Self)
        ensures
            r.id@ == id@,
            r.status == TaskStatus::Planned,
            r.error is None,
            r.subtasks@.len() == 0,
    {
        Task { id: String::from_str(id), status: TaskStatus::Planned, error: None, subtasks: Vec::new() }
    }

    /// Adds a sub-step at the end; its parent id becomes the id of `self`.
    pub fn add_subtask(&mut self, st: SubTask)
        ensures
            final(self).id == old(self).id,
            final(self).status == old(self).status,
            final(self).error == old(self).error,
            final(self).subtasks@ == old(self).subtasks@.push(
                SubTask { parent_id: old(self).id, ..st },
            ),
    {
        let mut st = st;
        st.parent_id = self.id.clone();
        self.subtasks.push(st);
    }

    /// Sets a status other than `Failed` (which takes a message: see
    /// `set_error`), clearing the error.
    pub fn set_status(&mut self, st: TaskStatus)
        requires
            st != TaskStatus::Failed,
        ensures
            final(self).id == old(self).id,
            final(self).subtasks == old(self).subtasks,
            final(self).status == st,
            final(self).error is None,
    {
        self.status = st;
        self.error = None;
    }

    /// Marks the task `Failed` with this message.
    pub fn set_error(&mut self, msg: String)
        ensures
            final(self).id == old(self).id,
            final(self).subtasks == old(self).subtasks,
            final(self).status == TaskStatus::Failed,
            final(self).error == Some(msg),
    {
        self.status = TaskStatus::Failed;
        self.error = Some(msg);
    }

    fn find_subtask(&self, sub_id: &str) -> (r: Option<usize>)
        ensures
            r is None <==> first_subtask(self.subtasks@, sub_id@) is None,
            r matches Some(i) ==> i < self.subtasks@.len() && first_subtask(self.subtasks@, sub_id@)
                == Some(i as int),
    {
        let target = String::from_str(sub_id);
        let mut k: usize = 0;
        while k < self.subtasks.len()
            invariant
                target@ == sub_id@,
                k <= self.subtasks@.len(),
                forall|j: int| 0 <= j < k ==> #[trigger] self.subtasks@[j].id@ != sub_id@,
            decreases self.subtasks@.len() - k,
        {
            if self.subtasks[k].id == target {
                proof {
                    lemma_first_subtask(self.subtasks@, sub_id@, k as int);
                }
                return Some(k);
            }
            k = k + 1;
        }
        proof {
            lemma_first_subtask(self.subtasks@, sub_id@, k as int);
        }
        None
    }

    /// Sets a status other than `Failed` on the first sub-step with this id,
    /// clearing its error; does nothing if there is none.
    pub fn set_subtask_status(&mut self, sub_id: &str, st: TaskStatus)
        requires
            st != TaskStatus::Failed,
        ensures
            final(self).id == old(self).id,
            final(self).status == old(self).status,
            final(self).error == old(self).error,
            first_subtask(old(self).subtasks@, sub_id@) is None ==> final(self).subtasks@ == old(self).subtasks@,
            first_subtask(old(self).subtasks@, sub_id@) matches Some(i) ==> final(self).subtasks@
                == old(self).subtasks@.update(
                i,
                SubTask {
                    status: st,
                    error: None,
                    ..old(self).subtasks@[i]
                },
            ),
    {
        if let Some(i) = self.find_subtask(sub_id) {
            self.subtasks[i].status = st;
            self.subtasks[i].error = None;
        }
    }

    /// Marks the first sub-step with this id `Failed` with this message;
    /// does nothing if there is none.
    pub fn set_subtask_error(&mut self, sub_id: &str, msg: String)
        ensures
            final(self).id == old(self).id,
            final(self).status == old(self).status,
            final(self).error == old(self).error,
            first_subtask(old(self).subtasks@, sub_id@) is None ==> final(self).subtasks@ == old(self).subtasks@,
            first_subtask(old(self).subtasks@, sub_id@) matches Some(i) ==> final(self).subtasks@
                == old(self).subtasks@.update(
                i,
                SubTask { status: TaskStatus::Failed, error: Some(msg), ..old(self).subtasks@[i] },
            ),
    {
        if let Some(i) = self.find_subtask(sub_id) {
            self.subtasks[i].status = TaskStatus::Failed;
            self.subtasks[i].error = Some(msg);
        }
    }
}

/// The persisted snapshot: every task, in order.
#[derive(Debug, Clone)]
pub struct FlowState {
    pub tasks: Vec<Task>,
}

/// Whether the task with this id lies downstream of (or is) the stage with
/// key `key` in `graph`. A stage absent from the graph has only itself
/// downstream.
pub open spec fn is_downstream(graph: FlowGraph, key: Seq<char>, id: Seq<char>) -> bool {
    if graph.contains_key(key) {
        graph.contains_key(id) && reachable(graph.edges(), graph.position(key), graph.position(id))
    } else {
        id == key
    }
}

/// `new` is `old` with every task downstream of `key` made `Stale`, its
/// error cleared, and every other task unchanged.
pub open spec fn reverted(graph: FlowGraph, key: Seq<char>, old: Seq<Task>, new: Seq<Task>) -> bool {
    &&& new.len() == old.len()
    &&& forall|i: int|
        0 <= i < old.len() ==> #[trigger] new[i] == (if is_downstream(graph, key, old[i].id@) {
            Task { status: TaskStatus::Stale, error: None, ..old[i] }
        } else {
            old[i]
        })
}

/// Reverting a stage never leaves a stage downstream of it `Succeeded`:
/// every task of a stage reachable from it is `Stale`, and a task of a
/// stage not reachable from it is unchanged.
pub proof fn revert_invalidates_downstream(
    graph: FlowGraph,
    key: Seq<char>,
    old: Seq<Task>,
    new: Seq<Task>,
)
    requires
        graph.wf(),
        graph.contains_key(key),
        reverted(graph, key, old, new),
    ensures
        forall|i: int|
            0 <= i < new.len() && graph.contains_key(#[trigger] new[i].id@) && reachable(
                graph.edges(),
                graph.position(key),
                graph.position(new[i].id@),
            ) ==> new[i].status == TaskStatus::Stale,
        forall|i: int|
            0 <= i < new.len() && graph.contains_key(#[trigger] old[i].id@) && !reachable(
                graph.edges(),
                graph.position(key),
                graph.position(old[i].id@),
            ) ==> new[i] == old[i],
{
    assert forall|i: int|
        0 <= i < new.len() && graph.contains_key(#[trigger] new[i].id@) && reachable(
            graph.edges(),
            graph.position(key),
            graph.position(new[i].id@),
        ) implies new[i].status == TaskStatus::Stale by {
        if !is_downstream(graph, key, old[i].id@) {
            assert(new[i] == old[i]);
        }
    }
}

/// For a chain `a -> b -> c`, reverting `a` makes the tasks of all three
/// `Stale`; the tasks of stages not reachable from `a`, such as another
/// design's independent chain, are unchanged.
pub proof fn revert_propagates_along_chain(
    graph: FlowGraph,
    a: Seq<char>,
    b: Seq<char>,
    c: Seq<char>,
    old: Seq<Task>,
    new: Seq<Task>,
)
    requires
        graph.wf(),
        graph.has_dependency(a, b),
        graph.has_dependency(b, c),
        reverted(graph, a, old, new),
    ensures
        forall|i: int|
            0 <= i < new.len() && (new[i].id@ == a || new[i].id@ == b || new[i].id@ == c)
                ==> #[trigger] new[i].status == TaskStatus::Stale,
        forall|i: int|
            0 <= i < new.len() && graph.contains_key(#[trigger] old[i].id@) && !reachable(
                graph.edges(),
                graph.position(a),
                graph.position(old[i].id@),
            ) ==> new[i] == old[i],
{
    let (pa, pb, pc) = (graph.position(a), graph.position(b), graph.position(c));
    let w0 = seq![pa];
    assert(is_walk(graph.edges(), w0));
    assert(w0.last() == pa);
    let w1 = seq![pa, pb];
    assert forall|k: int| 0 <= k < w1.len() - 1 implies graph.edges().contains(
        (w1[k], #[trigger] w1[k + 1]),
    ) by {}
    assert(is_walk(graph.edges(), w1));
    assert(w1.last() == pb);
    let w2 = seq![pa, pb, pc];
    assert forall|k: int| 0 <= k < w2.len() - 1 implies graph.edges().contains(
        (w2[k], #[trigger] w2[k + 1]),
    ) by {
        if k == 0 {
            assert(w2[0] == pa && w2[1] == pb);
        } else {
            assert(w2[1] == pb && w2[2] == pc);
        }
    }
    assert(is_walk(graph.edges(), w2));
    assert(w2.last() == pc);
    assert(reachable(graph.edges(), pa, pa));
    assert(reachable(graph.edges(), pa, pb));
    assert(reachable(graph.edges(), pa, pc));
    revert_invalidates_downstream(graph, a, old, new);
    assert forall|i: int|
        0 <= i < new.len() && (new[i].id@ == a || new[i].id@ == b || new[i].id@ == c)
            implies #[trigger] new[i].status == TaskStatus::Stale by {
        assert(new[i].id@ == old[i].id@ || is_downstream(graph, a, old[i].id@));
        assert(is_downstream(graph, a, old[i].id@));
    }
}

/// The task of the stage with key `key` exists and has succeeded.
pub open spec fn stage_done(tasks: Seq<Task>, key: Seq<char>) -> bool {
    first_task(tasks, key) matches Some(t) && tasks[t].status == TaskStatus::Succeeded
}

/// Every prerequisite stage has succeeded.
pub open spec fn prerequisites_done(tasks: Seq<Task>, keys: Seq<Seq<char>>) -> bool {
    forall|j: int| 0 <= j < keys.len() ==> #[trigger] stage_done(tasks, keys[j])
}

/// The stage tracker: the tasks, with upsert by id.
#[derive(Debug)]
pub struct FlowManager {
    pub state: FlowState,
}

impl FlowManager {
    pub open spec fn tasks_view(&self) -> Seq<Task> {
        self.state.tasks@
    }

    /// A tracker with no tasks: every stage counts as planned.
    pub fn new() -> (r: Self)
        ensures
            r.tasks_view().len() == 0,
    {
        FlowManager { state: FlowState { tasks: Vec::new() } }
    }

    /// A tracker holding a snapshot read back from storage.
    pub fn from_state(state: FlowState) -> (r: Self)
        ensures
            r.tasks_view() == state.tasks@,
    {
        FlowManager { state }
    }

    fn find_task(&self, id: &str) -> (r: Option<usize>)
        ensures
            r is None <==> first_task(self.tasks_view(), id@) is None,
            r matches Some(i) ==> i < self.tasks_view().len() && first_task(self.tasks_view(), id@)
                == Some(i as int),
    {
        let target = String::from_str(id);
        let mut k: usize = 0;
        while k < self.state.tasks.len()
            invariant
                target@ == id@,
                k <= self.tasks_view().len(),
                forall|j: int| 0 <= j < k ==> #[trigger] self.tasks_view()[j].id@ != id@,
            decreases self.tasks_view().len() - k,
        {
            if self.state.tasks[k].id == target {
                proof {
                    lemma_first_task(self.tasks_view(), id@, k as int);
                }
                return Some(k);
            }
            k = k + 1;
        }
        proof {
            lemma_first_task(self.tasks_view(), id@, k as int);
        }
        None
    }

    /// Replaces the first task with the same id, or appends the task.
    pub fn upsert_task(&mut self, task: Task)
        ensures
            first_task(old(self).tasks_view(), task.id@) matches Some(i) ==> final(self).tasks_view() == old(self).tasks_view().update(i, task),
            first_task(old(self).tasks_view(), task.id@) is None ==> final(self).tasks_view()
                == old(self).tasks_view().push(task),
    {
        match self.find_task(task.id.as_str()) {
            Some(i) => {
                self.state.tasks.set(i, task);
            },
            None => {
                self.state.tasks.push(task);
            },
        }
    }

    pub fn tasks(&self) -> (r: &[Task])
        ensures
            r@ == self.tasks_view(),
    {
        self.state.tasks.as_slice()
    }

    /// The first task with this id, if any.
    pub fn task(&self, id: &str) -> (r: Option<&Task>)
        ensures
            first_task(self.tasks_view(), id@) is None ==> r is None,
            first_task(self.tasks_view(), id@) matches Some(i) ==> r == Some(
                &self.tasks_view()[i],
            ),
    {
        match self.find_task(id) {
            Some(i) => Some(&self.state.tasks[i]),
            None => None,
        }
    }

    /// The first task with this id, for the caller to change in place.
    pub fn task_mut(&mut self, id: &str) -> (r: Option<&mut Task>)
        ensures
            first_task(old(self).tasks_view(), id@) is None ==> r is None && final(self).tasks_view()
                == old(self).tasks_view(),
            first_task(old(self).tasks_view(), id@) matches Some(i) ==> (r matches Some(t) && *t
                == old(self).tasks_view()[i] && final(self).tasks_view() == old(self).tasks_view().update(
                i,
                *final(t),
            )),
    {
        match self.find_task(id) {
            Some(i) => Some(&mut self.state.tasks[i]),
            None => None,
        }
    }

    /// Sets a status other than `Failed` on the first task with this id,
    /// clearing its error (see `Task::set_status`); false, with nothing
    /// changed, if there is none.
    pub fn set_status(&mut self, task_id: &str, st: TaskStatus) -> (r: bool)
        requires
            st != TaskStatus::Failed,
        ensures
            r == first_task(old(self).tasks_view(), task_id@) is Some,
            first_task(old(self).tasks_view(), task_id@) is None ==> final(self).tasks_view()
                == old(self).tasks_view(),
            first_task(old(self).tasks_view(), task_id@) matches Some(i) ==> final(self).tasks_view() == old(self).tasks_view().update(
                i,
                Task {
                    status: st,
                    error: None,
                    ..old(self).tasks_view()[i]
                },
            ),
    {
        match self.find_task(task_id) {
            Some(i) => {
                self.state.tasks[i].set_status(st);
                true
            },
            None => false,
        }
    }

    /// Marks the first task with this id `Failed` with this message; false,
    /// with nothing changed, if there is none.
    pub fn set_error(&mut self, task_id: &str, msg: String) -> (r: bool)
        ensures
            r == first_task(old(self).tasks_view(), task_id@) is Some,
            first_task(old(self).tasks_view(), task_id@) is None ==> final(self).tasks_view()
                == old(self).tasks_view(),
            first_task(old(self).tasks_view(), task_id@) matches Some(i) ==> final(self).tasks_view() == old(self).tasks_view().update(
                i,
                Task {
                    status: TaskStatus::Failed,
                    error: Some(msg),
                    ..old(self).tasks_view()[i]
                },
            ),
    {
        match self.find_task(task_id) {
            Some(i) => {
                self.state.tasks[i].set_error(msg);
                true
            },
            None => false,
        }
    }

    /// Whether the stage (design, stage) may start: every stage it directly
    /// depends on in `graph` has a task that is `Succeeded`. A stage that
    /// is not in the graph depends on nothing.
    pub fn may_start(&self, graph: &FlowGraph, design: &str, stage: BuildStage) -> (r: bool)
        requires
            graph.wf(),
        ensures
            r == (graph.contains_key(flow_key(design@, stage)) ==> prerequisites_done(
                self.tasks_view(),
                graph.predecessor_keys(graph.position(flow_key(design@, stage))),
            )),
    {
        let key = FlowGraph::key(design, stage);
        let i = match graph.find(&key) {
            Some(i) => i,
            None => {
                return true;
            },
        };
        let preds = graph.predecessors(i);
        let ghost pk = graph.predecessor_keys(i as int);
        let mut k: usize = 0;
        while k < preds.len()
            invariant
                preds@.map_values(|x: String| x@) == pk,
                graph.wf(),
                key@ == flow_key(design@, stage),
                graph.contains_key(key@),
                i as int == graph.position(key@),
                pk == graph.predecessor_keys(i as int),
                k <= preds@.len(),
                forall|j: int| 0 <= j < k ==> #[trigger] stage_done(self.tasks_view(), pk[j]),
            decreases preds@.len() - k,
        {
            proof {
                assert(preds@[k as int]@ == pk[k as int]);
            }
            let done = match self.find_task(preds[k].as_str()) {
                Some(t) => self.state.tasks[t].status == TaskStatus::Succeeded,
                None => false,
            };
            if !done {
                proof {
                    assert(pk.len() == preds@.len());
                    assert(!stage_done(self.tasks_view(), pk[k as int]));
                    assert(!prerequisites_done(self.tasks_view(), pk));
                    assert(graph.contains_key(key@));
                }
                return false;
            }
            k = k + 1;
        }
        true
    }

    /// Records what the external driver reported for a stage: success marks
    /// the first task with this id `Succeeded`; a failure marks it `Failed`
    /// with the message and comes back as `StageFailed`. A report for an id
    /// without a task changes nothing.
    pub fn record_result(&mut self, task_id: &str, outcome: Result<(), String>) -> (r: Result<
        (),
        BuildError,
    >)
        ensures
            outcome is Ok ==> r is Ok,
            outcome matches Err(m) ==> r == Err::<(), BuildError>(BuildError::StageFailed(m)),
            first_task(old(self).tasks_view(), task_id@) is None ==> final(self).tasks_view()
                == old(self).tasks_view(),
            first_task(old(self).tasks_view(), task_id@) matches Some(i) ==> final(self).tasks_view()
                == old(self).tasks_view().update(
                i,
                match outcome {
                    Ok(_) => Task {
                        status: TaskStatus::Succeeded,
                        error: None,
                        ..old(self).tasks_view()[i]
                    },
                    Err(m) => Task {
                        status: TaskStatus::Failed,
                        error: Some(m),
                        ..old(self).tasks_view()[i]
                    },
                },
            ),
    {
        match outcome {
            Ok(()) => {
                self.set_status(task_id, TaskStatus::Succeeded);
                Ok(())
            },
            Err(m) => {
                self.set_error(task_id, m.clone());
                Err(BuildError::StageFailed(m))
            },
        }
    }

    /// Marks the stage (design, stage) and every stage downstream of it in
    /// `graph` `Stale`, clearing their errors; other tasks are untouched.
    pub fn revert(&mut self, graph: &FlowGraph, design: &str, stage: BuildStage)
        requires
            graph.wf(),
        ensures
            reverted(*graph, flow_key(design@, stage), old(self).tasks_view(), final(self).tasks_view()),
    {
        let key = FlowGraph::key(design, stage);
        let start = graph.find(&key);
        let marks: Vec<bool> = match start {
            Some(s) => graph.downstream_of(s),
            None => Vec::new(),
        };
        let ghost g = *graph;
        let mut k: usize = 0;
        while k < self.state.tasks.len()
            invariant
                graph.wf(),
                g == *graph,
                key@ == flow_key(design@, stage),
                start is Some <==> graph.contains_key(key@),
                start matches Some(s) ==> s as int == graph.position(key@) && marks@.len()
                    == graph.nodes@.len() && forall|i: int|
                    0 <= i < marks@.len() ==> (#[trigger] marks@[i] <==> reachable(
                        graph.edges(),
                        s as int,
                        i,
                    )),
                k <= self.tasks_view().len(),
                self.tasks_view().len() == old(self).tasks_view().len(),
                forall|i: int|
                    0 <= i < k ==> #[trigger] self.tasks_view()[i] == (if is_downstream(
                        g,
                        key@,
                        old(self).tasks_view()[i].id@,
                    ) {
                        Task { status: TaskStatus::Stale, error: None, ..old(self).tasks_view()[i] }
                    } else {
                        old(self).tasks_view()[i]
                    }),
                forall|i: int|
                    k <= i < self.tasks_view().len() ==> #[trigger] self.tasks_view()[i] == old(self).tasks_view()[i],
            decreases self.tasks_view().len() - k,
        {
            let hit = match start {
                Some(_) => match graph.find(&self.state.tasks[k].id) {
                    Some(i) => marks[i],
                    None => false,
                },
                None => self.state.tasks[k].id == key,
            };
            if hit {
                self.state.tasks[k].set_status(TaskStatus::Stale);
            }
            k = k + 1;
        }
    }
}

} // verus!
