//! The state of one workflow instance.

use vstd::prelude::*;
use crate::json::JsonModel;
use crate::json::JsonValue;

verus! {

/// The record that an instance keeps.  Tasks and flows are named by their
/// index in the definition; `-1` stands for "no task".
#[derive(Debug)]
pub struct State {
    pub active: i32,
    pub current_tasks: Vec<i32>,
    pub current_flows: Vec<i32>,
    pub visited_tasks: Vec<i32>,
    pub visited_flows: Vec<i32>,
    pub pending_tasks: Vec<i32>,
    pub maybe_future_tasks: Vec<i32>,
    pub maybe_future_flows: Vec<i32>,
    pub maybe_visited_tasks: Vec<i32>,
    pub variables: JsonValue,
    pub completed: bool,
    pub remote_id: Option<String>,
    pub remote_version: Option<i64>,
}

/// The state as a mathematical record: stacks and lists are sequences whose
/// last element is the top.
pub struct StateView {
    pub active: i32,
    pub current_tasks: Seq<i32>,
    pub current_flows: Seq<i32>,
    pub visited_tasks: Seq<i32>,
    pub visited_flows: Seq<i32>,
    pub pending_tasks: Seq<i32>,
    pub maybe_future_tasks: Seq<i32>,
    pub maybe_future_flows: Seq<i32>,
    pub maybe_visited_tasks: Seq<i32>,
    pub variables: JsonModel,
    pub completed: bool,
    pub remote_id: Option<Seq<char>>,
    pub remote_version: Option<i64>,
}

/// The state as it is kept behind the instance's lock.
#[derive(Debug)]
pub struct LockedState {
    pub inner: State,
}

/// The state of an instance, with the operations the engine works by.
#[derive(Debug)]
pub struct WorkflowState {
    inner: LockedState,
}

/// `s` with `x` at its end if it was not in it.
pub open spec fn with_unique(s: Seq<i32>, x: i32) -> Seq<i32> {
    if s.contains(x) {
        s
    } else {
        s.push(x)
    }
}

/// No element occurs twice.
pub open spec fn distinct(s: Seq<i32>) -> bool {
    forall|i: int, j: int| 0 <= i < j < s.len() ==> s[i] != s[j]
}

/// `i` is the first place of `x` in `s`.
pub open spec fn first_place(s: Seq<i32>, x: i32, i: int) -> bool {
    &&& 0 <= i < s.len()
    &&& s[i] == x
    &&& forall|j: int| 0 <= j < i ==> s[j] != x
}

/// A list without repetition stays without repetition under `with_unique`.
pub proof fn lemma_with_unique_distinct(s: Seq<i32>, x: i32)
    requires
        distinct(s),
    ensures
        distinct(with_unique(s, x)),
{
    if !s.contains(x) {
        let t = s.push(x);
        assert forall|i: int, j: int| 0 <= i < j < t.len() implies t[i] != t[j] by {
            if j == s.len() {
                assert(s.contains(s[i]));
            }
        }
    }
}

/// The first place of `x` in `v`.
pub fn position_of(v: &Vec<i32>, x: i32) -> (r: Option<usize>)
    ensures
        match r {
            Some(i) => first_place(v@, x, i as int),
            None => !v@.contains(x),
        },
{
    let mut i: usize = 0;
    while i < v.len()
        invariant
            i <= v@.len(),
            forall|j: int| 0 <= j < i ==> v@[j] != x,
        decreases v@.len() - i,
    {
        if v[i] == x {
            return Some(i);
        }
        i += 1;
    }
    None
}

/// Whether `x` occurs in `v`.
pub fn holds(v: &Vec<i32>, x: i32) -> (r: bool)
    ensures
        r == v@.contains(x),
{
    position_of(v, x).is_some()
}

impl View for State {
    type V = StateView;

    open spec fn view(&self) -> StateView {
        StateView {
            active: self.active,
            current_tasks: self.current_tasks@,
            current_flows: self.current_flows@,
            visited_tasks: self.visited_tasks@,
            visited_flows: self.visited_flows@,
            pending_tasks: self.pending_tasks@,
            maybe_future_tasks: self.maybe_future_tasks@,
            maybe_future_flows: self.maybe_future_flows@,
            maybe_visited_tasks: self.maybe_visited_tasks@,
            variables: self.variables@,
            completed: self.completed,
            remote_id: match self.remote_id {
                Some(id) => Some(id@),
                None => None,
            },
            remote_version: self.remote_version,
        }
    }
}

impl StateView {
    /// The state of an instance that has not run yet: the start event waits
    /// to be visited, the variables are an empty object, and everything else
    /// is empty.
    pub open spec fn initial(start_event: i32) -> StateView {
        StateView {
            active: -1i32,
            current_tasks: seq![start_event],
            current_flows: Seq::empty(),
            visited_tasks: Seq::empty(),
            visited_flows: Seq::empty(),
            pending_tasks: Seq::empty(),
            maybe_future_tasks: Seq::empty(),
            maybe_future_flows: Seq::empty(),
            maybe_visited_tasks: Seq::empty(),
            variables: JsonModel::Object(Seq::empty()),
            completed: false,
            remote_id: None,
            remote_version: None,
        }
    }

    /// `task` made the one pending task and the active one, with nothing
    /// left queued.
    pub open spec fn at_user_task(self, task: i32) -> StateView {
        StateView {
            current_tasks: Seq::empty(),
            current_flows: Seq::empty(),
            pending_tasks: seq![task],
            active: task,
            ..self
        }
    }

    /// The look-ahead reset to start again from `start_event`.
    pub open spec fn future_cleared(self, start_event: i32) -> StateView {
        StateView {
            maybe_future_tasks: seq![start_event],
            maybe_future_flows: Seq::empty(),
            maybe_visited_tasks: Seq::empty(),
            ..self
        }
    }

    /// The first pending task made the active one; `-1` where none is pending.
    pub open spec fn with_default_active(self) -> StateView {
        StateView {
            active: if self.pending_tasks.len() > 0 {
                self.pending_tasks[0]
            } else {
                -1i32
            },
            ..self
        }
    }

    /// Nothing is queued for the interpreter.
    pub open spec fn quiet(self) -> bool {
        self.current_tasks.len() == 0 && self.current_flows.len() == 0
    }

    /// No task was recorded as visited twice.
    pub open spec fn no_task_twice(self) -> bool {
        distinct(self.visited_tasks)
    }

    /// The active task is a pending one, or there is none.
    pub open spec fn active_is_pending(self) -> bool {
        self.active == -1 || self.pending_tasks.contains(self.active)
    }

    /// A completed instance has nothing pending.
    pub open spec fn done_means_idle(self) -> bool {
        self.completed ==> self.pending_tasks.len() == 0
    }

    /// What the operations of an instance keep up, whatever the definition:
    /// no task is recorded twice, the active task is pending or absent, at
    /// most one task is pending, and none is once the instance is completed.
    pub open spec fn consistent(self) -> bool {
        &&& self.no_task_twice()
        &&& self.active_is_pending()
        &&& self.pending_tasks.len() <= 1
        &&& self.done_means_idle()
    }

    /// Everything but the look-ahead is as in `other`.
    pub open spec fn same_execution(self, other: StateView) -> bool {
        &&& self.active == other.active
        &&& self.current_tasks == other.current_tasks
        &&& self.current_flows == other.current_flows
        &&& self.visited_tasks == other.visited_tasks
        &&& self.visited_flows == other.visited_flows
        &&& self.pending_tasks == other.pending_tasks
        &&& self.variables == other.variables
        &&& self.completed == other.completed
        &&& self.remote_id == other.remote_id
        &&& self.remote_version == other.remote_version
    }

    /// What the interpreter never touches is as in `other`.
    pub open spec fn same_surroundings(self, other: StateView) -> bool {
        &&& self.active == other.active
        &&& self.maybe_future_tasks == other.maybe_future_tasks
        &&& self.maybe_future_flows == other.maybe_future_flows
        &&& self.maybe_visited_tasks == other.maybe_visited_tasks
        &&& self.variables == other.variables
        &&& self.remote_id == other.remote_id
        &&& self.remote_version == other.remote_version
    }

    /// Every pending task is among those that the look-ahead reached.
    pub open spec fn pending_foreseen(self) -> bool {
        forall|i: int|
            0 <= i < self.pending_tasks.len() ==> self.maybe_visited_tasks.contains(
                #[trigger] self.pending_tasks[i],
            )
    }
}

impl WorkflowState {
    pub closed spec fn view(&self) -> StateView {
        self.inner.inner@
    }

    pub fn new(start_event: i32) -> (s: WorkflowState)
        ensures
            s@ == StateView::initial(start_event),
    {
        let mut current_tasks: Vec<i32> = Vec::new();
        current_tasks.push(start_event);
        let s = WorkflowState {
            inner: LockedState {
                inner: State {
                    active: -1,
                    current_tasks,
                    current_flows: Vec::new(),
                    visited_tasks: Vec::new(),
                    visited_flows: Vec::new(),
                    pending_tasks: Vec::new(),
                    maybe_future_tasks: Vec::new(),
                    maybe_future_flows: Vec::new(),
                    maybe_visited_tasks: Vec::new(),
                    variables: JsonValue::map(),
                    completed: false,
                    remote_id: None,
                    remote_version: None,
                },
            },
        };
        proof {
            assert(s@.current_tasks =~= seq![start_event]);
        }
        s
    }

    pub fn from_state(state: State) -> (s: WorkflowState)
        ensures
            s@ == state@,
    {
        WorkflowState { inner: LockedState { inner: state } }
    }

    pub fn replace(&mut self, state: State)
        ensures
            final(self)@ == state@,
    {
        self.inner.inner = state;
    }

    pub fn set_remote_id(&mut self, remote_id: String, remote_version: i64)
        ensures
            final(self)@ == (StateView {
                remote_id: Some(remote_id@),
                remote_version: Some(remote_version),
                ..old(self)@
            }),
    {
        self.inner.inner.remote_id = Some(remote_id);
        self.inner.inner.remote_version = Some(remote_version);
    }

    pub fn get_remote_id(&self) -> (r: Option<String>)
        ensures
            match r {
                Some(id) => self@.remote_id == Some(id@),
                None => self@.remote_id is None,
            },
    {
        match &self.inner.inner.remote_id {
            Some(id) => Some(id.clone()),
            None => None,
        }
    }

    pub fn has_visited(&self, user_task: i32) -> (r: bool)
        ensures
            r == self@.visited_tasks.contains(user_task),
    {
        holds(&self.inner.inner.visited_tasks, user_task)
    }

    pub fn has_maybe_visited(&self, user_task: i32) -> (r: bool)
        ensures
            r == self@.maybe_visited_tasks.contains(user_task),
    {
        holds(&self.inner.inner.maybe_visited_tasks, user_task)
    }

    pub fn set_usertask(&mut self, user_task: i32)
        ensures
            final(self)@ == old(self)@.at_user_task(user_task),
    {
        self.inner.inner.current_tasks.clear();
        self.inner.inner.current_flows.clear();
        self.inner.inner.pending_tasks.clear();
        self.inner.inner.pending_tasks.push(user_task);
        self.inner.inner.active = user_task;
        proof {
            assert(self@.pending_tasks =~= seq![user_task]);
            assert(self@.current_tasks =~= Seq::empty());
            assert(self@.current_flows =~= Seq::empty());
        }
    }

    pub fn clear_future(&mut self, start_event: i32)
        ensures
            final(self)@ == old(self)@.future_cleared(start_event),
    {
        self.inner.inner.maybe_future_tasks.clear();
        self.inner.inner.maybe_future_flows.clear();
        self.inner.inner.maybe_visited_tasks.clear();
        self.inner.inner.maybe_future_tasks.push(start_event);
        proof {
            assert(self@.maybe_future_tasks =~= seq![start_event]);
            assert(self@.maybe_future_flows =~= Seq::empty());
            assert(self@.maybe_visited_tasks =~= Seq::empty());
        }
    }

    pub fn set_active(&mut self, active: i32)
        ensures
            final(self)@ == (StateView { active, ..old(self)@ }),
    {
        self.inner.inner.active = active;
    }

    pub fn get_active(&self) -> (r: i32)
        ensures
            r == self@.active,
    {
        self.inner.inner.active
    }

    pub fn set_completed(&mut self)
        ensures
            final(self)@ == (StateView { completed: true, ..old(self)@ }),
    {
        self.inner.inner.completed = true;
    }

    pub fn pop_current_task(&mut self) -> (r: Option<i32>)
        ensures
            old(self)@.current_tasks.len() == 0 ==> r is None && final(self)@ == old(self)@,
            old(self)@.current_tasks.len() > 0 ==> r == Some(old(self)@.current_tasks.last())
                && final(self)@ == (StateView {
                current_tasks: old(self)@.current_tasks.drop_last(),
                ..old(self)@
            }),
    {
        self.inner.inner.current_tasks.pop()
    }

    pub fn push_current_task(&mut self, task: i32)
        ensures
            final(self)@ == (StateView {
                current_tasks: old(self)@.current_tasks.push(task),
                ..old(self)@
            }),
    {
        self.inner.inner.current_tasks.push(task);
    }

    pub fn pop_visited_task(&mut self) -> (r: Option<i32>)
        ensures
            old(self)@.visited_tasks.len() == 0 ==> r is None && final(self)@ == old(self)@,
            old(self)@.visited_tasks.len() > 0 ==> r == Some(old(self)@.visited_tasks.last())
                && final(self)@ == (StateView {
                visited_tasks: old(self)@.visited_tasks.drop_last(),
                ..old(self)@
            }),
    {
        self.inner.inner.visited_tasks.pop()
    }

    /// Records a task as visited, unless it is recorded already.
    pub fn push_visited_task(&mut self, task: i32)
        ensures
            final(self)@ == (StateView {
                visited_tasks: with_unique(old(self)@.visited_tasks, task),
                ..old(self)@
            }),
    {
        let exist = holds(&self.inner.inner.visited_tasks, task);
        if !exist {
            self.inner.inner.visited_tasks.push(task);
        }
    }

    pub fn pop_current_flow(&mut self) -> (r: Option<i32>)
        ensures
            old(self)@.current_flows.len() == 0 ==> r is None && final(self)@ == old(self)@,
            old(self)@.current_flows.len() > 0 ==> r == Some(old(self)@.current_flows.last())
                && final(self)@ == (StateView {
                current_flows: old(self)@.current_flows.drop_last(),
                ..old(self)@
            }),
    {
        self.inner.inner.current_flows.pop()
    }

    pub fn push_current_flow(&mut self, flow: i32)
        ensures
            final(self)@ == (StateView {
                current_flows: old(self)@.current_flows.push(flow),
                ..old(self)@
            }),
    {
        self.inner.inner.current_flows.push(flow);
    }

    pub fn pop_visited_flow(&mut self) -> (r: Option<i32>)
        ensures
            old(self)@.visited_flows.len() == 0 ==> r is None && final(self)@ == old(self)@,
            old(self)@.visited_flows.len() > 0 ==> r == Some(old(self)@.visited_flows.last())
                && final(self)@ == (StateView {
                visited_flows: old(self)@.visited_flows.drop_last(),
                ..old(self)@
            }),
    {
        self.inner.inner.visited_flows.pop()
    }

    pub fn push_visited_flow(&mut self, flow: i32)
        ensures
            final(self)@ == (StateView {
                visited_flows: old(self)@.visited_flows.push(flow),
                ..old(self)@
            }),
    {
        self.inner.inner.visited_flows.push(flow);
    }

    pub fn pop_pending_task(&mut self) -> (r: Option<i32>)
        ensures
            old(self)@.pending_tasks.len() == 0 ==> r is None && final(self)@ == old(self)@,
            old(self)@.pending_tasks.len() > 0 ==> r == Some(old(self)@.pending_tasks.last())
                && final(self)@ == (StateView {
                pending_tasks: old(self)@.pending_tasks.drop_last(),
                ..old(self)@
            }),
    {
        self.inner.inner.pending_tasks.pop()
    }

    pub fn push_pending_task(&mut self, task: i32)
        ensures
            final(self)@ == (StateView {
                pending_tasks: old(self)@.pending_tasks.push(task),
                ..old(self)@
            }),
    {
        self.inner.inner.pending_tasks.push(task);
    }

    pub fn pop_maybe_future_task(&mut self) -> (r: Option<i32>)
        ensures
            old(self)@.maybe_future_tasks.len() == 0 ==> r is None && final(self)@ == old(self)@,
            old(self)@.maybe_future_tasks.len() > 0 ==> r == Some(
                old(self)@.maybe_future_tasks.last(),
            ) && final(self)@ == (StateView {
                maybe_future_tasks: old(self)@.maybe_future_tasks.drop_last(),
                ..old(self)@
            }),
    {
        self.inner.inner.maybe_future_tasks.pop()
    }

    pub fn push_maybe_future_task(&mut self, task: i32)
        ensures
            final(self)@ == (StateView {
                maybe_future_tasks: old(self)@.maybe_future_tasks.push(task),
                ..old(self)@
            }),
    {
        self.inner.inner.maybe_future_tasks.push(task);
    }

    pub fn push_maybe_visited_task(&mut self, task: i32)
        ensures
            final(self)@ == (StateView {
                maybe_visited_tasks: old(self)@.maybe_visited_tasks.push(task),
                ..old(self)@
            }),
    {
        self.inner.inner.maybe_visited_tasks.push(task);
    }

    pub fn pop_maybe_future_flow(&mut self) -> (r: Option<i32>)
        ensures
            old(self)@.maybe_future_flows.len() == 0 ==> r is None && final(self)@ == old(self)@,
            old(self)@.maybe_future_flows.len() > 0 ==> r == Some(
                old(self)@.maybe_future_flows.last(),
            ) && final(self)@ == (StateView {
                maybe_future_flows: old(self)@.maybe_future_flows.drop_last(),
                ..old(self)@
            }),
    {
        self.inner.inner.maybe_future_flows.pop()
    }

    pub fn push_maybe_future_flow(&mut self, flow: i32)
        ensures
            final(self)@ == (StateView {
                maybe_future_flows: old(self)@.maybe_future_flows.push(flow),
                ..old(self)@
            }),
    {
        self.inner.inner.maybe_future_flows.push(flow);
    }

    /// Takes the pending task at place `idx` out of the pending list.
    pub fn pending_task_by_index(&mut self, idx: usize) -> (r: i32)
        requires
            idx < old(self)@.pending_tasks.len(),
        ensures
            r == old(self)@.pending_tasks[idx as int],
            final(self)@ == (StateView {
                pending_tasks: old(self)@.pending_tasks.remove(idx as int),
                ..old(self)@
            }),
    {
        self.inner.inner.pending_tasks.remove(idx)
    }

    /// The state, for reading.
    pub fn state(&self) -> (r: &LockedState)
        ensures
            r.inner@ == self@,
    {
        &self.inner
    }

    /// The state, for writing.
    pub fn mut_state(&mut self) -> (r: &mut LockedState)
        ensures
            r.inner@ == old(self)@,
            final(self)@ == final(r).inner@,
    {
        &mut self.inner
    }
}

} // verus!
