//! Walks on definitions without cycles end of themselves.
//!
//! A definition has no cycle where its tasks can be ranked so that every
//! flow leads to a task of lower rank.  On such a definition of the common
//! shape each step of a walk brings it nearer to its end, so that the
//! interpreter stops with nothing queued and the look-ahead ends before it
//! is cut off.

use vstd::prelude::*;
use crate::engine::completing;
use crate::engine::completion_error;
use crate::engine::lemma_place_of;
use crate::engine::run_halts;
use crate::engine::run_step;
use crate::engine::sim_step;
use crate::foresight::law_complete_foreseen;
use crate::foresight::law_start_foreseen;
use crate::foresight::lemma_branch_is_queued;
use crate::foresight::look_ahead_ends;
use crate::foresight::sim_halts;
use crate::engine::navigation_target;
use crate::instance::after_complete;
use crate::instance::after_navigate;
use crate::instance::law_navigate_consistent;
use crate::instance::law_navigate_foreseen;
use crate::laws::lemma_run_idle;
use crate::laws::lemma_simulated_depends_on_variables;
use crate::instance::foresight_current;
use crate::instance::law_complete_consistent;
use crate::instance::law_complete_quiet;
use crate::instance::law_start_consistent;
use crate::instance::law_start_quiet;
use crate::instance::started;
use crate::json::JsonModel;
use crate::model::TaskDef;
use crate::model::WorkflowDefinition;
use crate::state::first_place;
use crate::state::StateView;

verus! {

/// `rank` numbers the tasks so that every flow between two tasks leads to
/// the one of lower number.  A definition that can be ranked has no cycle.
pub open spec fn ranked(definition: WorkflowDefinition, rank: Seq<nat>) -> bool {
    &&& rank.len() == definition.tasks@.len()
    &&& forall|f: int|
        0 <= f < definition.flows@.len() ==> {
            let flow = #[trigger] definition.flows@[f];
            0 <= flow.source_ref < rank.len() && 0 <= flow.target_ref < rank.len()
                ==> rank[flow.target_ref as int] < rank[flow.source_ref as int]
        }
}

/// The definition is ranked, and no walk on it is cut off after `limit`
/// steps: twice a rank and four more stay within the limit.
pub open spec fn ranked_within(definition: WorkflowDefinition, rank: Seq<nat>, limit: nat) -> bool {
    &&& ranked(definition, rank)
    &&& forall|i: int| 0 <= i < rank.len() ==> 2 * (#[trigger] rank[i]) + 4 <= limit
}

/// How many steps a walk has left at most, the last one included, where at
/// most one item is queued: a task is two steps away from the task that
/// follows it, a flow one step from its target.
pub open spec fn steps_left(
    definition: WorkflowDefinition,
    rank: Seq<nat>,
    tasks: Seq<i32>,
    flows: Seq<i32>,
) -> nat {
    if tasks.len() > 0 {
        match definition.task_at(tasks.last()) {
            Some(_) => 2 * rank[tasks.last() as int] + 3,
            None => 1,
        }
    } else if flows.len() > 0 {
        match definition.flow_at(flows.last()) {
            Some(flow) => match definition.task_at(flow.target_ref) {
                Some(_) => 2 * rank[flow.target_ref as int] + 4,
                None => 2,
            },
            None => 1,
        }
    } else {
        1
    }
}

/// A flow that a task queues leaves fewer steps than the task did.
proof fn lemma_queued_flow_descends(
    definition: WorkflowDefinition,
    rank: Seq<nat>,
    task: i32,
    flow: i32,
)
    requires
        definition.orderly(),
        ranked(definition, rank),
        definition.task_at(task) is Some,
        definition.queues(task as int, flow),
    ensures
        steps_left(definition, rank, Seq::empty(), seq![flow]) < steps_left(
            definition,
            rank,
            seq![task],
            Seq::empty(),
        ),
{
    let none = Seq::<i32>::empty();
    assert(seq![flow].len() == 1 && seq![flow].last() == flow);
    assert(seq![task].len() == 1 && seq![task].last() == task);
    assert(none.len() == 0);
    assert(steps_left(definition, rank, seq![task], none) == 2 * rank[task as int] + 3);
    match definition.flow_at(flow) {
        Some(f) => {
            assert(f == definition.flows@[flow as int]);
            assert(f.source_ref == task);
            match definition.task_at(f.target_ref) {
                Some(_) => {
                    assert(rank[f.target_ref as int] < rank[f.source_ref as int]);
                    assert(steps_left(definition, rank, none, seq![flow]) == 2
                        * rank[f.target_ref as int] + 4);
                },
                None => {
                    assert(steps_left(definition, rank, none, seq![flow]) == 2);
                },
            }
        },
        None => {
            assert(steps_left(definition, rank, none, seq![flow]) == 1);
        },
    }
}

/// A step of the interpreter that does not end the walk leaves at most one
/// item queued and fewer steps to go.
pub proof fn lemma_run_step_descends(definition: WorkflowDefinition, rank: Seq<nat>, s: StateView)
    requires
        definition.orderly(),
        ranked(definition, rank),
        s.current_tasks.len() + s.current_flows.len() <= 1,
        run_step(definition, s).more,
    ensures
        run_step(definition, s).state.current_tasks.len() + run_step(
            definition,
            s,
        ).state.current_flows.len() <= 1,
        steps_left(
            definition,
            rank,
            run_step(definition, s).state.current_tasks,
            run_step(definition, s).state.current_flows,
        ) < steps_left(definition, rank, s.current_tasks, s.current_flows),
{
    let after = run_step(definition, s).state;
    if s.current_tasks.len() > 0 {
        let idx = s.current_tasks.last();
        assert(s.current_tasks =~= seq![idx]);
        assert(s.current_flows =~= Seq::<i32>::empty());
        let task = definition.task_at(idx)->Some_0;
        assert(task == definition.tasks@[idx as int]);
        match task.def {
            TaskDef::StartEvent(ev) => {
                assert(after.current_tasks =~= Seq::<i32>::empty());
                if ev.outgoing@.len() == 1 {
                    let flow = ev.outgoing@[0];
                    assert(after.current_flows =~= seq![flow]);
                    assert(task.def.outgoing().contains(flow));
                    lemma_queued_flow_descends(definition, rank, idx, flow);
                } else {
                    assert(after.current_flows =~= Seq::<i32>::empty());
                }
            },
            TaskDef::ExclusiveGateway(gw) => {
                lemma_branch_is_queued(definition, idx as int, s.variables);
                let flow = crate::validator::chosen_branch(gw, definition, s.variables);
                assert(after.current_tasks =~= Seq::<i32>::empty());
                assert(after.current_flows =~= seq![flow]);
                lemma_queued_flow_descends(definition, rank, idx, flow);
            },
            _ => {},
        }
    } else {
        let taken = s.current_flows.last();
        assert(s.current_flows =~= seq![taken]);
        let flow = definition.flow_at(taken)->Some_0;
        assert(after.current_tasks =~= seq![flow.target_ref]);
        assert(after.current_flows =~= Seq::<i32>::empty());
        assert(after.current_tasks.last() == flow.target_ref);
    }
}

/// A step of the look-ahead that does not end the walk leaves at most one
/// item queued and fewer steps to go.
pub proof fn lemma_sim_step_descends(definition: WorkflowDefinition, rank: Seq<nat>, s: StateView)
    requires
        definition.orderly(),
        ranked(definition, rank),
        s.maybe_future_tasks.len() + s.maybe_future_flows.len() <= 1,
        sim_step(definition, s).more,
    ensures
        sim_step(definition, s).state.maybe_future_tasks.len() + sim_step(
            definition,
            s,
        ).state.maybe_future_flows.len() <= 1,
        steps_left(
            definition,
            rank,
            sim_step(definition, s).state.maybe_future_tasks,
            sim_step(definition, s).state.maybe_future_flows,
        ) < steps_left(definition, rank, s.maybe_future_tasks, s.maybe_future_flows),
{
    let after = sim_step(definition, s).state;
    if s.maybe_future_tasks.len() > 0 {
        let idx = s.maybe_future_tasks.last();
        assert(s.maybe_future_tasks =~= seq![idx]);
        assert(s.maybe_future_flows =~= Seq::<i32>::empty());
        let task = definition.task_at(idx)->Some_0;
        assert(task == definition.tasks@[idx as int]);
        match task.def {
            TaskDef::StartEvent(ev) => {
                assert(after.maybe_future_tasks =~= Seq::<i32>::empty());
                if ev.outgoing@.len() == 1 {
                    let flow = ev.outgoing@[0];
                    assert(after.maybe_future_flows =~= seq![flow]);
                    assert(task.def.outgoing().contains(flow));
                    lemma_queued_flow_descends(definition, rank, idx, flow);
                } else {
                    assert(after.maybe_future_flows =~= Seq::<i32>::empty());
                }
            },
            TaskDef::UserTask(ev) => {
                let flow = ev.outgoing@[0];
                assert(after.maybe_future_tasks =~= Seq::<i32>::empty());
                assert(after.maybe_future_flows =~= seq![flow]);
                assert(task.def.outgoing().contains(flow));
                lemma_queued_flow_descends(definition, rank, idx, flow);
            },
            TaskDef::ExclusiveGateway(gw) => {
                lemma_branch_is_queued(definition, idx as int, s.variables);
                let flow = crate::validator::chosen_branch(gw, definition, s.variables);
                assert(after.maybe_future_tasks =~= Seq::<i32>::empty());
                assert(after.maybe_future_flows =~= seq![flow]);
                lemma_queued_flow_descends(definition, rank, idx, flow);
            },
            _ => {},
        }
    } else {
        let taken = s.maybe_future_flows.last();
        assert(s.maybe_future_flows =~= seq![taken]);
        let flow = definition.flow_at(taken)->Some_0;
        assert(after.maybe_future_tasks =~= seq![flow.target_ref]);
        assert(after.maybe_future_flows =~= Seq::<i32>::empty());
        assert(after.maybe_future_tasks.last() == flow.target_ref);
    }
}

/// On a ranked definition of the common shape the interpreter's walk ends
/// of itself within the steps it has left.
pub proof fn lemma_acyclic_run_halts(
    definition: WorkflowDefinition,
    rank: Seq<nat>,
    s: StateView,
    fuel: nat,
)
    requires
        definition.orderly(),
        ranked(definition, rank),
        s.current_tasks.len() + s.current_flows.len() <= 1,
        steps_left(definition, rank, s.current_tasks, s.current_flows) <= fuel,
    ensures
        run_halts(definition, s, fuel),
    decreases fuel,
{
    let step = run_step(definition, s);
    if step.more {
        lemma_run_step_descends(definition, rank, s);
        lemma_acyclic_run_halts(definition, rank, step.state, (fuel - 1) as nat);
    }
}

/// On a ranked definition of the common shape the look-ahead's walk ends of
/// itself within the steps it has left.
pub proof fn lemma_acyclic_sim_halts(
    definition: WorkflowDefinition,
    rank: Seq<nat>,
    s: StateView,
    fuel: nat,
)
    requires
        definition.orderly(),
        ranked(definition, rank),
        s.maybe_future_tasks.len() + s.maybe_future_flows.len() <= 1,
        steps_left(definition, rank, s.maybe_future_tasks, s.maybe_future_flows) <= fuel,
    ensures
        sim_halts(definition, s, fuel),
    decreases fuel,
{
    let step = sim_step(definition, s);
    if step.more {
        lemma_sim_step_descends(definition, rank, s);
        lemma_acyclic_sim_halts(definition, rank, step.state, (fuel - 1) as nat);
    }
}

/// With a single item queued no more steps are left than the limit of a
/// ranked definition allows.
pub proof fn lemma_steps_within(
    definition: WorkflowDefinition,
    rank: Seq<nat>,
    limit: nat,
    tasks: Seq<i32>,
    flows: Seq<i32>,
)
    requires
        ranked_within(definition, rank, limit),
        limit >= 4,
    ensures
        steps_left(definition, rank, tasks, flows) <= limit,
{
}

/// On a ranked definition of the common shape the look-ahead ends of
/// itself, whatever the variables.
pub proof fn lemma_acyclic_look_ahead_ends(
    definition: WorkflowDefinition,
    rank: Seq<nat>,
    variables: JsonModel,
    limit: nat,
)
    requires
        definition.orderly(),
        ranked_within(definition, rank, limit),
        limit >= 4,
    ensures
        look_ahead_ends(definition, variables, limit),
{
    let root = definition.root_start();
    let s = (StateView { variables, ..StateView::initial(root) }).future_cleared(root);
    lemma_steps_within(definition, rank, limit, s.maybe_future_tasks, s.maybe_future_flows);
    lemma_acyclic_sim_halts(definition, rank, s, limit);
}

/// What the operations keep up on a definition without cycles: the state is
/// consistent, nothing is queued, every pending task has been reached by
/// the look-ahead, and the look-ahead is up to date.
pub open spec fn settled(definition: WorkflowDefinition, s: StateView, limit: nat) -> bool {
    &&& s.consistent()
    &&& s.quiet()
    &&& s.pending_foreseen()
    &&& foresight_current(definition, s, limit)
}

/// An instance that was started on a ranked definition of the common shape
/// is settled: nothing is queued, no task is recorded twice, the active
/// task is pending or there is none, at most one task is pending and none
/// if the instance is completed, and what is pending has been foreseen.
pub proof fn law_start_settled(definition: WorkflowDefinition, rank: Seq<nat>, limit: nat)
    requires
        definition.orderly(),
        ranked_within(definition, rank, limit),
        limit >= 4,
    ensures
        settled(definition, started(definition, limit), limit),
{
    let root = definition.root_start();
    let s0 = StateView::initial(root);
    lemma_steps_within(definition, rank, limit, s0.current_tasks, s0.current_flows);
    lemma_acyclic_run_halts(definition, rank, s0, limit);
    law_start_consistent(definition, limit);
    law_start_quiet(definition, limit);
    lemma_acyclic_look_ahead_ends(definition, rank, JsonModel::Object(Seq::empty()), limit);
    law_start_foreseen(definition, limit);
}

/// Completing the pending task of a settled instance on a ranked definition
/// of the common shape leaves the instance settled.
pub proof fn law_complete_settled(
    definition: WorkflowDefinition,
    rank: Seq<nat>,
    s: StateView,
    task: i32,
    limit: nat,
)
    requires
        definition.orderly(),
        ranked_within(definition, rank, limit),
        limit >= 4,
        settled(definition, s, limit),
        completion_error(definition, s, task) is None,
    ensures
        settled(definition, after_complete(definition, s, task, limit), limit),
{
    let c = completing(definition, s, task);
    assert(s.pending_tasks.len() == 1);
    assert(s.pending_tasks[0] == task);
    assert(s.pending_tasks =~= seq![task]);
    assert(first_place(s.pending_tasks, task, 0));
    lemma_place_of(s.pending_tasks, task, 0);
    let out = definition.tasks@[task as int].def.outgoing();
    assert(out.len() == 1);
    assert(c.current_flows =~= seq![out[0]]);
    assert(c.current_tasks.len() == 0);
    lemma_steps_within(definition, rank, limit, c.current_tasks, c.current_flows);
    lemma_acyclic_run_halts(definition, rank, c, limit);
    law_complete_consistent(definition, s, task, limit);
    law_complete_quiet(definition, s, task, limit);
    lemma_acyclic_look_ahead_ends(definition, rank, s.variables, limit);
    law_complete_foreseen(definition, s, task, limit);
}

/// Navigation leaves a settled instance settled where it arrives nowhere,
/// or arrives at the very task it was asked for on an instance that is not
/// completed.  No cycle and no shape is asked of the definition.
pub proof fn law_navigate_settled(
    definition: WorkflowDefinition,
    s: StateView,
    task: i32,
    limit: nat,
)
    requires
        settled(definition, s, limit),
        navigation_target(definition, s, task) is None || (navigation_target(definition, s, task)
            == Some(task) && s.maybe_visited_tasks.contains(task) && !s.completed),
    ensures
        settled(definition, after_navigate(definition, s, task, limit), limit),
{
    law_navigate_consistent(definition, s, task, limit);
    let end = after_navigate(definition, s, task, limit);
    if navigation_target(definition, s, task) is None {
        lemma_run_idle(definition, s, limit);
        lemma_simulated_depends_on_variables(definition, s, s, limit);
        assert forall|i: int|
            0 <= i < end.pending_tasks.len() implies end.maybe_visited_tasks.contains(
            #[trigger] end.pending_tasks[i],
        ) by {
            assert(end.pending_tasks[i] == s.pending_tasks[i]);
        }
    } else {
        law_navigate_foreseen(definition, s, task, limit);
    }
}

} // verus!
