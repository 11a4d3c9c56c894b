//! The interpreter, the look-ahead and the navigator.
//!
//! Both walks are worklists.  A step takes the task on top of the task
//! stack, or else the flow on top of the flow stack, and says whether the
//! walk goes on.  A walk is a run of steps, cut off after `step_limit` of
//! them so that it ends on every graph.

use vstd::prelude::*;
use crate::model::TaskDef;
use crate::model::WorkflowDefinition;
use crate::state::position_of;
use crate::state::first_place;
use crate::state::with_unique;
use crate::state::State;
use crate::state::StateView;
use crate::state::WorkflowState;
use crate::text::decimal;
use crate::text::decimal_text;
use crate::validator::chosen_branch;
use crate::validator::ExclusiveGateway;

verus! {

/// The number of steps after which a walk is cut off, unless the runtime is
/// given another.
pub const STEP_LIMIT: u64 = 0xffff_ffff_ffff_ffff;

/// What one step leaves behind: the state, and whether the walk goes on.
pub struct Step {
    pub state: StateView,
    pub more: bool,
}

/// A step of the interpreter that finds no task to visit: it traverses the
/// flow on top of the flow stack.  The flow is recorded, its target is queued
/// and its source is recorded as visited.  An index that names no flow is
/// dropped and ends the walk, as does an empty stack.
pub open spec fn flow_step(definition: WorkflowDefinition, s: StateView) -> Step {
    if s.current_flows.len() == 0 {
        Step { state: s, more: false }
    } else {
        let popped = StateView { current_flows: s.current_flows.drop_last(), ..s };
        match definition.flow_at(s.current_flows.last()) {
            Some(flow) => Step {
                state: StateView {
                    visited_flows: popped.visited_flows.push(flow.id),
                    current_tasks: popped.current_tasks.push(flow.target_ref),
                    visited_tasks: with_unique(popped.visited_tasks, flow.source_ref),
                    ..popped
                },
                more: true,
            },
            None => Step { state: popped, more: false },
        }
    }
}

/// One step of the interpreter.  The task on top of the task stack is taken:
/// a start event queues its outgoing flows, a gateway queues the branch it
/// chooses, a user task becomes pending and ends the walk, an end event
/// completes the instance and ends the walk.  Where the stack is empty, or
/// its top names no task, a flow is traversed instead.
pub open spec fn run_step(definition: WorkflowDefinition, s: StateView) -> Step {
    if s.current_tasks.len() == 0 {
        flow_step(definition, s)
    } else {
        let popped = StateView { current_tasks: s.current_tasks.drop_last(), ..s };
        match definition.task_at(s.current_tasks.last()) {
            None => flow_step(definition, popped),
            Some(task) => match task.def {
                TaskDef::StartEvent(ev) => Step {
                    state: StateView {
                        current_flows: popped.current_flows + ev.outgoing@,
                        ..popped
                    },
                    more: true,
                },
                TaskDef::UserTask(_) => Step {
                    state: StateView {
                        pending_tasks: popped.pending_tasks.push(task.id),
                        visited_tasks: with_unique(popped.visited_tasks, task.id),
                        ..popped
                    },
                    more: false,
                },
                TaskDef::ExclusiveGateway(gw) => Step {
                    state: StateView {
                        current_flows: popped.current_flows.push(
                            chosen_branch(gw, definition, s.variables),
                        ),
                        ..popped
                    },
                    more: true,
                },
                TaskDef::EndEvent(_) => Step {
                    state: StateView { completed: true, ..popped },
                    more: false,
                },
            },
        }
    }
}

/// The interpreter's walk: steps are taken until one ends the walk, and at
/// most `fuel` of them.
pub open spec fn run_for(definition: WorkflowDefinition, s: StateView, fuel: nat) -> StateView
    decreases fuel,
{
    if fuel == 0 {
        s
    } else {
        let step = run_step(definition, s);
        if step.more {
            run_for(definition, step.state, (fuel - 1) as nat)
        } else {
            step.state
        }
    }
}

/// The interpreter's walk from `s` ends of itself within `fuel` steps.
pub open spec fn run_halts(definition: WorkflowDefinition, s: StateView, fuel: nat) -> bool
    decreases fuel,
{
    fuel > 0 && {
        let step = run_step(definition, s);
        !step.more || run_halts(definition, step.state, (fuel - 1) as nat)
    }
}

/// A step of the look-ahead that finds no task to visit: it traverses the
/// flow on top of the look-ahead's flow stack.  The target is queued, and the
/// source is noted as reachable if it is a user task.
pub open spec fn sim_flow_step(definition: WorkflowDefinition, s: StateView) -> Step {
    if s.maybe_future_flows.len() == 0 {
        Step { state: s, more: false }
    } else {
        let popped = StateView { maybe_future_flows: s.maybe_future_flows.drop_last(), ..s };
        match definition.flow_at(s.maybe_future_flows.last()) {
            Some(flow) => Step {
                state: StateView {
                    maybe_future_tasks: popped.maybe_future_tasks.push(flow.target_ref),
                    maybe_visited_tasks: if definition.names_user_task(flow.source_ref) {
                        popped.maybe_visited_tasks.push(flow.source_ref)
                    } else {
                        popped.maybe_visited_tasks
                    },
                    ..popped
                },
                more: true,
            },
            None => Step { state: popped, more: false },
        }
    }
}

/// One step of the look-ahead.  It differs from the interpreter's in that it
/// works on the look-ahead's own stacks, walks past user tasks, and leaves
/// every record of the real execution alone.
pub open spec fn sim_step(definition: WorkflowDefinition, s: StateView) -> Step {
    if s.maybe_future_tasks.len() == 0 {
        sim_flow_step(definition, s)
    } else {
        let popped = StateView { maybe_future_tasks: s.maybe_future_tasks.drop_last(), ..s };
        match definition.task_at(s.maybe_future_tasks.last()) {
            None => sim_flow_step(definition, popped),
            Some(task) => match task.def {
                TaskDef::StartEvent(ev) => Step {
                    state: StateView {
                        maybe_future_flows: popped.maybe_future_flows + ev.outgoing@,
                        ..popped
                    },
                    more: true,
                },
                TaskDef::UserTask(ev) => Step {
                    state: StateView {
                        maybe_future_flows: popped.maybe_future_flows + ev.outgoing@,
                        ..popped
                    },
                    more: true,
                },
                TaskDef::ExclusiveGateway(gw) => Step {
                    state: StateView {
                        maybe_future_flows: popped.maybe_future_flows.push(
                            chosen_branch(gw, definition, s.variables),
                        ),
                        ..popped
                    },
                    more: true,
                },
                TaskDef::EndEvent(_) => Step { state: popped, more: false },
            },
        }
    }
}

/// The look-ahead's walk: at most `fuel` steps.
pub open spec fn sim_for(definition: WorkflowDefinition, s: StateView, fuel: nat) -> StateView
    decreases fuel,
{
    if fuel == 0 {
        s
    } else {
        let step = sim_step(definition, s);
        if step.more {
            sim_for(definition, step.state, (fuel - 1) as nat)
        } else {
            step.state
        }
    }
}

/// The state after a look-ahead: the look-ahead starts afresh at the root
/// start event and walks on under the variables as they are.
pub open spec fn simulated(definition: WorkflowDefinition, s: StateView, fuel: nat) -> StateView {
    sim_for(definition, s.future_cleared(definition.root_start()), fuel)
}

/// The place in `visited` from which the search for the user task before
/// `task` starts: the first place of `task`, or zero if it is not there.
pub open spec fn place_of(visited: Seq<i32>, task: i32) -> int {
    if visited.contains(task) {
        choose|i: int| first_place(visited, task, i)
    } else {
        0
    }
}

/// The user task found by going back from place `p` of `visited`: the task
/// just before `p` if it is a user task; else the search goes on from the
/// first place of that task.  At the front nothing is found.
pub open spec fn user_task_before(
    definition: WorkflowDefinition,
    visited: Seq<i32>,
    p: int,
) -> Option<i32>
    decreases p,
{
    if p <= 0 || p > visited.len() {
        None
    } else {
        let previous = visited[p - 1];
        if definition.names_user_task(previous) {
            Some(previous)
        } else {
            let q = place_of(visited, previous);
            if 0 <= q < p {
                user_task_before(definition, visited, q)
            } else {
                None
            }
        }
    }
}

/// The user task visited before `task`, if there is one.
pub open spec fn previous_user_task(
    definition: WorkflowDefinition,
    visited: Seq<i32>,
    task: i32,
) -> Option<i32> {
    user_task_before(definition, visited, place_of(visited, task))
}

/// The first place of a task is its place.
pub proof fn lemma_place_of(visited: Seq<i32>, task: i32, i: int)
    requires
        first_place(visited, task, i),
    ensures
        place_of(visited, task) == i,
{
    assert(visited.contains(task));
    let c = choose|c: int| first_place(visited, task, c);
    assert(first_place(visited, task, c));
}

/// A task that stands at place `i` has its first place at `i` or before.
pub proof fn lemma_place_before(visited: Seq<i32>, i: int)
    requires
        0 <= i < visited.len(),
    ensures
        0 <= place_of(visited, visited[i]) <= i,
        first_place(visited, visited[i], place_of(visited, visited[i])),
    decreases i,
{
    let task = visited[i];
    assert(visited.contains(task));
    if exists|j: int| 0 <= j < i && visited[j] == task {
        let j = choose|j: int| 0 <= j < i && visited[j] == task;
        lemma_place_before(visited, j);
    } else {
        assert(first_place(visited, task, i));
        lemma_place_of(visited, task, i);
    }
}

/// The task that navigation to `task` arrives at: `task` itself where it is
/// a user task that was visited and that the look-ahead reached; otherwise
/// the user task visited before it, if there is one.
pub open spec fn navigation_target(
    definition: WorkflowDefinition,
    s: StateView,
    task: i32,
) -> Option<i32> {
    if definition.names_user_task(task) && s.visited_tasks.contains(task)
        && s.maybe_visited_tasks.contains(task) {
        Some(task)
    } else {
        previous_user_task(definition, s.visited_tasks, task)
    }
}

/// Why a task cannot be completed, if it cannot: it is not pending, it is
/// not in the definition, or it is no user task.
pub open spec fn completion_error(
    definition: WorkflowDefinition,
    s: StateView,
    task: i32,
) -> Option<Seq<char>> {
    if !s.pending_tasks.contains(task) {
        Some("task with id "@ + decimal_text(task as int) + " not found"@)
    } else {
        match definition.task_at(task) {
            None => Some("no pending usertask with id "@ + decimal_text(task as int)),
            Some(t) => if t.user_task() {
                None
            } else {
                Some("task with id "@ + decimal_text(task as int) + " is not a usertask"@)
            },
        }
    }
}

/// The state in which a completed user task leaves the instance before the
/// interpreter walks on: the task is no longer pending, and the flows that
/// leave it are queued.
pub open spec fn completing(definition: WorkflowDefinition, s: StateView, task: i32) -> StateView {
    let p = place_of(s.pending_tasks, task);
    StateView {
        pending_tasks: s.pending_tasks.remove(p),
        current_flows: s.current_flows + definition.tasks@[task as int].def.outgoing(),
        ..s
    }
}

/// One instance of a workflow: its definition, the name of the entity it
/// belongs to, and its state.
pub struct Runtime<'a> {
    pub entity_id: String,
    pub definition: &'a WorkflowDefinition,
    pub instance: WorkflowState,
    pub step_limit: u64,
}

impl<'a> Runtime<'a> {
    /// An instance that has not run yet.
    pub fn new(definition: &'a WorkflowDefinition, entity_id: String) -> (rt: Runtime<'a>)
        ensures
            rt.definition == definition,
            rt.entity_id == entity_id,
            rt.step_limit == STEP_LIMIT,
            rt.instance@ == StateView::initial(definition.root_start()),
    {
        let instance = WorkflowState::new(definition.root_start_event());
        Runtime { entity_id, definition, instance, step_limit: STEP_LIMIT }
    }

    /// The same instance, in another state.
    pub fn with_state(self, state: State) -> (rt: Runtime<'a>)
        ensures
            rt.definition == self.definition,
            rt.entity_id == self.entity_id,
            rt.step_limit == self.step_limit,
            rt.instance@ == state@,
    {
        let mut rt = self;
        rt.instance = WorkflowState::from_state(state);
        rt
    }

    /// The same instance, with its walks cut off after `limit` steps.
    pub fn with_step_limit(self, limit: u64) -> (rt: Runtime<'a>)
        ensures
            rt.definition == self.definition,
            rt.entity_id == self.entity_id,
            rt.step_limit == limit,
            rt.instance == self.instance,
    {
        let mut rt = self;
        rt.step_limit = limit;
        rt
    }

    /// Puts the instance into another state.
    pub fn replace(&mut self, state: State)
        ensures
            final(self).instance@ == state@,
            final(self).definition == old(self).definition,
            final(self).entity_id == old(self).entity_id,
            final(self).step_limit == old(self).step_limit,
    {
        self.instance.replace(state);
    }

    /// Nothing but the state differs.
    pub open spec fn same_frame(&self, other: &Runtime<'a>) -> bool {
        &&& self.definition == other.definition
        &&& self.entity_id == other.entity_id
        &&& self.step_limit == other.step_limit
    }

    fn visit_outgoing(&mut self, outgoing: &Vec<i32>)
        ensures
            final(self).same_frame(old(self)),
            final(self).instance@ == (StateView {
                current_flows: old(self).instance@.current_flows + outgoing@,
                ..old(self).instance@
            }),
    {
        let mut i: usize = 0;
        while i < outgoing.len()
            invariant
                i <= outgoing@.len(),
                self.same_frame(old(self)),
                self.instance@ == (StateView {
                    current_flows: old(self).instance@.current_flows + outgoing@.take(i as int),
                    ..old(self).instance@
                }),
            decreases outgoing@.len() - i,
        {
            self.instance.push_current_flow(outgoing[i]);
            proof {
                assert(outgoing@.take(i as int).push(outgoing@[i as int]) =~= outgoing@.take(
                    i + 1,
                ));
                assert((old(self).instance@.current_flows + outgoing@.take(i as int)).push(
                    outgoing@[i as int],
                ) =~= old(self).instance@.current_flows + outgoing@.take(i + 1));
            }
            i += 1;
        }
        proof {
            assert(outgoing@.take(i as int) =~= outgoing@);
        }
    }

    fn visit_future_outgoing(&mut self, outgoing: &Vec<i32>)
        ensures
            final(self).same_frame(old(self)),
            final(self).instance@ == (StateView {
                maybe_future_flows: old(self).instance@.maybe_future_flows + outgoing@,
                ..old(self).instance@
            }),
    {
        let mut i: usize = 0;
        while i < outgoing.len()
            invariant
                i <= outgoing@.len(),
                self.same_frame(old(self)),
                self.instance@ == (StateView {
                    maybe_future_flows: old(self).instance@.maybe_future_flows + outgoing@.take(
                        i as int,
                    ),
                    ..old(self).instance@
                }),
            decreases outgoing@.len() - i,
        {
            self.instance.push_maybe_future_flow(outgoing[i]);
            proof {
                assert(outgoing@.take(i as int).push(outgoing@[i as int]) =~= outgoing@.take(
                    i + 1,
                ));
                assert((old(self).instance@.maybe_future_flows + outgoing@.take(i as int)).push(
                    outgoing@[i as int],
                ) =~= old(self).instance@.maybe_future_flows + outgoing@.take(i + 1));
            }
            i += 1;
        }
        proof {
            assert(outgoing@.take(i as int) =~= outgoing@);
        }
    }

    /// Traverses the flow on top of the flow stack.
    fn take_flow(&mut self) -> (more: bool)
        ensures
            final(self).same_frame(old(self)),
            (Step { state: final(self).instance@, more }) == flow_step(
                *old(self).definition,
                old(self).instance@,
            ),
    {
        let definition = self.definition;
        match self.instance.pop_current_flow() {
            Some(current_flow) => match definition.flow(current_flow) {
                Some(flow) => {
                    self.instance.push_visited_flow(flow.id);
                    self.instance.push_current_task(flow.target_ref);
                    self.instance.push_visited_task(flow.source_ref);
                    true
                },
                None => false,
            },
            None => false,
        }
    }

    /// Takes one step of the interpreter.
    fn step(&mut self) -> (more: bool)
        ensures
            final(self).same_frame(old(self)),
            (Step { state: final(self).instance@, more }) == run_step(
                *old(self).definition,
                old(self).instance@,
            ),
    {
        let definition = self.definition;
        match self.instance.pop_current_task() {
            Some(current_task) => match definition.task(current_task) {
                Some(task) => match &task.def {
                    TaskDef::StartEvent(ev) => {
                        self.visit_outgoing(&ev.outgoing);
                        true
                    },
                    TaskDef::UserTask(_) => {
                        self.instance.push_pending_task(task.id);
                        self.instance.push_visited_task(task.id);
                        false
                    },
                    TaskDef::ExclusiveGateway(ev) => {
                        let out = ExclusiveGateway(ev).evaluate(
                            definition,
                            &self.instance.state().inner.variables,
                        );
                        self.instance.push_current_flow(out[0]);
                        true
                    },
                    TaskDef::EndEvent(_) => {
                        self.instance.set_completed();
                        false
                    },
                },
                None => self.take_flow(),
            },
            None => self.take_flow(),
        }
    }

    /// Walks on from the queued tasks and flows until a user task becomes
    /// pending, an end event is reached, or nothing is left to do.
    pub fn run(&mut self)
        ensures
            final(self).same_frame(old(self)),
            final(self).instance@ == run_for(
                *old(self).definition,
                old(self).instance@,
                old(self).step_limit as nat,
            ),
    {
        let mut fuel: u64 = self.step_limit;
        while fuel > 0
            invariant
                self.same_frame(old(self)),
                run_for(*self.definition, self.instance@, fuel as nat) == run_for(
                    *old(self).definition,
                    old(self).instance@,
                    old(self).step_limit as nat,
                ),
            decreases fuel,
        {
            let more = self.step();
            fuel = fuel - 1;
            if !more {
                return ;
            }
        }
    }

    /// Traverses the flow on top of the look-ahead's flow stack.
    fn take_future_flow(&mut self) -> (more: bool)
        ensures
            final(self).same_frame(old(self)),
            (Step { state: final(self).instance@, more }) == sim_flow_step(
                *old(self).definition,
                old(self).instance@,
            ),
    {
        let definition = self.definition;
        match self.instance.pop_maybe_future_flow() {
            Some(future_flow) => match definition.flow(future_flow) {
                Some(flow) => {
                    self.instance.push_maybe_future_task(flow.target_ref);
                    if self.is_usertask(flow.source_ref) {
                        self.instance.push_maybe_visited_task(flow.source_ref);
                    }
                    true
                },
                None => false,
            },
            None => false,
        }
    }

    /// Takes one step of the look-ahead.
    fn sim_step(&mut self) -> (more: bool)
        ensures
            final(self).same_frame(old(self)),
            (Step { state: final(self).instance@, more }) == sim_step(
                *old(self).definition,
                old(self).instance@,
            ),
    {
        let definition = self.definition;
        match self.instance.pop_maybe_future_task() {
            Some(future_task) => match definition.task(future_task) {
                Some(task) => match &task.def {
                    TaskDef::StartEvent(ev) => {
                        self.visit_future_outgoing(&ev.outgoing);
                        true
                    },
                    TaskDef::UserTask(ev) => {
                        self.visit_future_outgoing(&ev.outgoing);
                        true
                    },
                    TaskDef::ExclusiveGateway(ev) => {
                        let out = ExclusiveGateway(ev).evaluate(
                            definition,
                            &self.instance.state().inner.variables,
                        );
                        self.instance.push_maybe_future_flow(out[0]);
                        true
                    },
                    TaskDef::EndEvent(_) => false,
                },
                None => self.take_future_flow(),
            },
            None => self.take_future_flow(),
        }
    }

    fn sim_run(&mut self)
        ensures
            final(self).same_frame(old(self)),
            final(self).instance@ == sim_for(
                *old(self).definition,
                old(self).instance@,
                old(self).step_limit as nat,
            ),
    {
        let mut fuel: u64 = self.step_limit;
        while fuel > 0
            invariant
                self.same_frame(old(self)),
                sim_for(*self.definition, self.instance@, fuel as nat) == sim_for(
                    *old(self).definition,
                    old(self).instance@,
                    old(self).step_limit as nat,
                ),
            decreases fuel,
        {
            let more = self.sim_step();
            fuel = fuel - 1;
            if !more {
                return ;
            }
        }
    }

    /// Computes afresh which user tasks can be reached from the start under
    /// the variables as they are.  Nothing of the real execution changes.
    pub fn simulate(&mut self)
        ensures
            final(self).same_frame(old(self)),
            final(self).instance@ == simulated(
                *old(self).definition,
                old(self).instance@,
                old(self).step_limit as nat,
            ),
    {
        let start = self.definition.root_start_event();
        self.instance.clear_future(start);
        self.sim_run();
    }

    /// Makes the first pending task the active one; `-1` where none is.
    pub fn set_default_active_task(&mut self)
        ensures
            final(self).same_frame(old(self)),
            final(self).instance@ == old(self).instance@.with_default_active(),
    {
        let active = if self.instance.state().inner.pending_tasks.len() > 0 {
            self.instance.state().inner.pending_tasks[0]
        } else {
            -1
        };
        self.instance.set_active(active);
    }

    fn is_usertask(&self, task_id: i32) -> (r: bool)
        ensures
            r == self.definition.names_user_task(task_id),
    {
        self.definition.is_usertask(task_id)
    }

    /// Completes a pending user task: it stops being pending, the flows that
    /// leave it are queued, and the interpreter walks on.  A task that is
    /// not pending, not in the definition, or no user task is refused, and
    /// the state stays as it was.
    pub fn complete(&mut self, task_id: i32) -> (r: Result<(), String>)
        ensures
            final(self).same_frame(old(self)),
            match r {
                Ok(_) => completion_error(*old(self).definition, old(self).instance@, task_id)
                    is None && final(self).instance@ == run_for(
                    *old(self).definition,
                    completing(*old(self).definition, old(self).instance@, task_id),
                    old(self).step_limit as nat,
                ),
                Err(e) => completion_error(*old(self).definition, old(self).instance@, task_id)
                    == Some(e@) && final(self).instance@ == old(self).instance@,
            },
    {
        let definition = self.definition;
        let pending_task_idx = position_of(&self.instance.state().inner.pending_tasks, task_id);
        match pending_task_idx {
            Some(pending_task_idx) => match definition.task(task_id) {
                Some(usertask) => match &usertask.def {
                    TaskDef::UserTask(ev) => {
                        proof {
                            lemma_place_of(
                                self.instance@.pending_tasks,
                                task_id,
                                pending_task_idx as int,
                            );
                        }
                        let _ = self.instance.pending_task_by_index(pending_task_idx);
                        self.visit_outgoing(&ev.outgoing);
                        self.run();
                        Ok(())
                    },
                    _ => Err(
                        String::from_str("task with id ").concat(
                            decimal(task_id).as_str(),
                        ).concat(" is not a usertask"),
                    ),
                },
                None => Err(
                    String::from_str("no pending usertask with id ").concat(
                        decimal(task_id).as_str(),
                    ),
                ),
            },
            None => Err(
                String::from_str("task with id ").concat(decimal(task_id).as_str()).concat(
                    " not found",
                ),
            ),
        }
    }

    /// Moves the instance to a user task that was visited before: to `task_id`
    /// itself if it is a user task that was visited and that the look-ahead
    /// reached, and otherwise to the user task visited before it.  The task
    /// arrived at becomes the one pending task and the active one, and the
    /// look-ahead is computed afresh.  Where there is no such task, nothing
    /// changes.
    pub fn navigate_to(&mut self, task_id: i32)
        ensures
            final(self).same_frame(old(self)),
            final(self).instance@ == (match navigation_target(
                *old(self).definition,
                old(self).instance@,
                task_id,
            ) {
                Some(target) => simulated(
                    *old(self).definition,
                    old(self).instance@.at_user_task(target),
                    old(self).step_limit as nat,
                ),
                None => old(self).instance@,
            }),
    {
        let visited = self.instance.has_visited(task_id) && self.instance.has_maybe_visited(
            task_id,
        );
        if self.is_usertask(task_id) && visited {
            self.instance.set_usertask(task_id);
            self.simulate();
        } else {
            let next_user_task = self.get_previous_user_task(task_id);
            match next_user_task {
                Some(task_id) => {
                    self.instance.set_usertask(task_id);
                    self.simulate();
                },
                None => {},
            }
        }
    }

    /// The user task visited before `task_id`: going back through the
    /// visited tasks from the place of `task_id`, the first user task met.
    pub fn get_previous_user_task(&self, task_id: i32) -> (r: Option<i32>)
        ensures
            r == previous_user_task(*self.definition, self.instance@.visited_tasks, task_id),
    {
        let visited = &self.instance.state().inner.visited_tasks;
        let mut place: usize = match position_of(visited, task_id) {
            Some(p) => {
                proof {
                    lemma_place_of(visited@, task_id, p as int);
                }
                p
            },
            None => 0,
        };
        while place > 0
            invariant
                visited@ == self.instance@.visited_tasks,
                place <= visited@.len(),
                user_task_before(*self.definition, visited@, place as int) == previous_user_task(
                    *self.definition,
                    self.instance@.visited_tasks,
                    task_id,
                ),
            decreases place,
        {
            let previous = visited[place - 1];
            if self.is_usertask(previous) {
                return Some(previous);
            }
            proof {
                lemma_place_before(visited@, place - 1);
            }
            match position_of(visited, previous) {
                Some(p) => {
                    proof {
                        lemma_place_of(visited@, previous, p as int);
                    }
                    place = p;
                },
                None => {
                    return None;
                },
            }
        }
        None
    }
}

} // verus!
