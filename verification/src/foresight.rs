//! The look-ahead follows the interpreter.
//!
//! In a definition of the common shape the look-ahead takes the very steps
//! that the interpreter takes, and goes on where the interpreter stops at a
//! user task.  So whatever becomes pending has been foreseen, as long as the
//! look-ahead ends of itself before it is cut off.

use vstd::prelude::*;
use crate::engine::completing;
use crate::engine::completion_error;
use crate::engine::lemma_place_of;
use crate::engine::run_for;
use crate::engine::run_step;
use crate::engine::sim_for;
use crate::engine::sim_step;
use crate::instance::after_complete;
use crate::instance::foresight_current;
use crate::instance::started;
use crate::json::JsonModel;
use crate::laws::lemma_run_surroundings;
use crate::laws::lemma_sim_execution;
use crate::laws::lemma_sim_keeps_reached;
use crate::laws::lemma_sim_step_execution;
use crate::laws::lemma_simulated_depends_on_variables;
use crate::model::TaskDef;
use crate::model::WorkflowDefinition;
use crate::state::first_place;
use crate::state::StateView;
use crate::validator::chosen_branch;
use crate::validator::is_first_match;

verus! {

/// The look-ahead's walk from `s` ends of itself within `fuel` steps.
pub open spec fn sim_halts(definition: WorkflowDefinition, s: StateView, fuel: nat) -> bool
    decreases fuel,
{
    fuel > 0 && {
        let step = sim_step(definition, s);
        !step.more || sim_halts(definition, step.state, (fuel - 1) as nat)
    }
}

/// Under these variables the look-ahead ends of itself before it is cut
/// off: it comes to an end event or to a dead end within `limit` steps.
pub open spec fn look_ahead_ends(
    definition: WorkflowDefinition,
    variables: JsonModel,
    limit: nat,
) -> bool {
    sim_halts(
        definition,
        (StateView { variables, ..StateView::initial(definition.root_start()) }).future_cleared(
            definition.root_start(),
        ),
        limit,
    )
}

/// The look-ahead stands where the interpreter stands: the same tasks and
/// flows are queued, under the same variables.
pub open spec fn in_step(r: StateView, m: StateView) -> bool {
    &&& m.maybe_future_tasks == r.current_tasks
    &&& m.maybe_future_flows == r.current_flows
    &&& m.variables == r.variables
}

/// The look-ahead has at most one item queued, and a flow that it has
/// queued was queued by the task that is its source.
pub open spec fn on_track(definition: WorkflowDefinition, m: StateView) -> bool {
    &&& m.maybe_future_tasks.len() + m.maybe_future_flows.len() <= 1
    &&& m.maybe_future_flows.len() == 1 ==> (definition.flow_at(
        m.maybe_future_flows[0],
    ) matches Some(f) ==> definition.queues(f.source_ref as int, m.maybe_future_flows[0]))
}

/// The tasks that are pending in `after` and were not in `before` have all
/// been reached by the look-ahead `m`.
pub open spec fn news_foreseen(before: StateView, after: StateView, m: StateView) -> bool {
    forall|i: int|
        0 <= i < after.pending_tasks.len() && !before.pending_tasks.contains(
            #[trigger] after.pending_tasks[i],
        ) ==> m.maybe_visited_tasks.contains(after.pending_tasks[i])
}

/// The branch that a gateway chooses is one of the flows that it queues.
pub proof fn lemma_branch_is_queued(definition: WorkflowDefinition, task: int, variables: JsonModel)
    requires
        0 <= task < definition.tasks@.len(),
        definition.tasks@[task].def is ExclusiveGateway,
    ensures
        definition.queues(
            task,
            chosen_branch(definition.tasks@[task].def->ExclusiveGateway_0, definition, variables),
        ),
{
    let gw = definition.tasks@[task].def->ExclusiveGateway_0;
    if exists|k: int| is_first_match(gw, definition, variables, k) {
        let k = choose|k: int| is_first_match(gw, definition, variables, k);
        assert(gw.outgoing@[k] == chosen_branch(gw, definition, variables));
        assert(definition.tasks@[task].def.outgoing().contains(gw.outgoing@[k]));
    }
}

/// Whether the look-ahead ends of itself depends on the variables and on
/// what it has queued, and on nothing else.
pub proof fn lemma_sim_halts_depends_on_variables(
    definition: WorkflowDefinition,
    a: StateView,
    b: StateView,
    fuel: nat,
)
    requires
        a.variables == b.variables,
        a.maybe_future_tasks == b.maybe_future_tasks,
        a.maybe_future_flows == b.maybe_future_flows,
    ensures
        sim_halts(definition, a, fuel) == sim_halts(definition, b, fuel),
    decreases fuel,
{
    if fuel > 0 {
        let sa = sim_step(definition, a);
        let sb = sim_step(definition, b);
        lemma_sim_step_execution(definition, a);
        lemma_sim_step_execution(definition, b);
        assert(sa.more == sb.more);
        if sa.more {
            lemma_sim_halts_depends_on_variables(definition, sa.state, sb.state, (fuel - 1) as nat);
        }
    }
}

/// A step of the look-ahead keeps it on track.
pub proof fn lemma_sim_step_on_track(definition: WorkflowDefinition, m: StateView)
    requires
        definition.orderly(),
        on_track(definition, m),
    ensures
        on_track(definition, sim_step(definition, m).state),
{
    let step = sim_step(definition, m);
    if m.maybe_future_tasks.len() > 0 {
        let idx = m.maybe_future_tasks.last();
        match definition.task_at(idx) {
            Some(task) => {
                assert(task == definition.tasks@[idx as int]);
                match task.def {
                    TaskDef::StartEvent(ev) => {
                        if ev.outgoing@.len() == 1 {
                            assert(step.state.maybe_future_flows =~= seq![ev.outgoing@[0]]);
                            assert(task.def.outgoing().contains(ev.outgoing@[0]));
                            assert(definition.queues(idx as int, ev.outgoing@[0]));
                        } else {
                            assert(step.state.maybe_future_flows =~= Seq::<i32>::empty());
                        }
                    },
                    TaskDef::UserTask(ev) => {
                        assert(step.state.maybe_future_flows =~= seq![ev.outgoing@[0]]);
                        assert(task.def.outgoing().contains(ev.outgoing@[0]));
                        assert(definition.queues(idx as int, ev.outgoing@[0]));
                    },
                    TaskDef::ExclusiveGateway(gw) => {
                        lemma_branch_is_queued(definition, idx as int, m.variables);
                        assert(step.state.maybe_future_flows =~= seq![
                            chosen_branch(gw, definition, m.variables),
                        ]);
                    },
                    TaskDef::EndEvent(_) => {},
                }
            },
            None => {},
        }
    }
}

/// Where the look-ahead stands in step with the interpreter, and ends of
/// itself, every task that the interpreter makes pending is reached by the
/// look-ahead.
pub proof fn lemma_in_step(
    definition: WorkflowDefinition,
    r: StateView,
    m: StateView,
    run_fuel: nat,
    sim_fuel: nat,
)
    requires
        definition.orderly(),
        in_step(r, m),
        r.current_tasks.len() + r.current_flows.len() <= 1,
        sim_halts(definition, m, sim_fuel),
    ensures
        news_foreseen(r, run_for(definition, r, run_fuel), sim_for(definition, m, sim_fuel)),
    decreases run_fuel,
{
    let ran = run_for(definition, r, run_fuel);
    let seen = sim_for(definition, m, sim_fuel);
    if run_fuel == 0 {
        assert forall|i: int| 0 <= i < ran.pending_tasks.len() implies r.pending_tasks.contains(
            #[trigger] ran.pending_tasks[i],
        ) by {}
    } else {
        let step = run_step(definition, r);
        let look = sim_step(definition, m);
        if step.more {
            assert(look.more);
            assert(in_step(step.state, look.state));
            assert(step.state.pending_tasks == r.pending_tasks);
            lemma_in_step(
                definition,
                step.state,
                look.state,
                (run_fuel - 1) as nat,
                (sim_fuel - 1) as nat,
            );
        } else if step.state.pending_tasks != r.pending_tasks {
            // The interpreter has stopped at a user task.
            let idx = r.current_tasks.last();
            let task = definition.tasks@[idx as int];
            let ev = task.def->UserTask_0;
            assert(task.id == idx);
            assert(step.state.pending_tasks == r.pending_tasks.push(idx));
            assert(look.more);
            let flow = ev.outgoing@[0];
            assert(look.state.maybe_future_tasks.len() == 0);
            assert(look.state.maybe_future_flows =~= seq![flow]);
            let next = sim_step(definition, look.state);
            assert(task.def.outgoing().contains(flow));
            assert(definition.queues(idx as int, flow));
            assert(definition.flow_at(flow)->Some_0.source_ref == idx);
            assert(definition.names_user_task(idx));
            assert(next.more);
            assert(next.state.maybe_visited_tasks == look.state.maybe_visited_tasks.push(idx));
            assert(next.state.maybe_visited_tasks[next.state.maybe_visited_tasks.len() - 1]
                == idx);
            assert(sim_halts(definition, look.state, (sim_fuel - 1) as nat));
            assert(sim_fuel >= 2);
            assert(seen == sim_for(definition, look.state, (sim_fuel - 1) as nat));
            assert(seen == sim_for(definition, next.state, (sim_fuel - 2) as nat));
            lemma_sim_keeps_reached(definition, next.state, (sim_fuel - 2) as nat, idx);
            assert forall|i: int|
                0 <= i < ran.pending_tasks.len() && !r.pending_tasks.contains(
                    #[trigger] ran.pending_tasks[i],
                ) implies seen.maybe_visited_tasks.contains(ran.pending_tasks[i]) by {
                if i < r.pending_tasks.len() {
                    assert(ran.pending_tasks[i] == r.pending_tasks[i]);
                }
            }
        } else {
            assert forall|i: int| 0 <= i < ran.pending_tasks.len() implies r.pending_tasks.contains(
                #[trigger] ran.pending_tasks[i],
            ) by {}
        }
    }
}

/// Where the look-ahead comes to reach the user task `done`, it has passed
/// the point from which the interpreter walks on after `done` is completed;
/// from there it reaches every task that the interpreter then makes pending.
pub proof fn lemma_passes(
    definition: WorkflowDefinition,
    r: StateView,
    m: StateView,
    done: i32,
    run_fuel: nat,
    sim_fuel: nat,
)
    requires
        definition.orderly(),
        definition.names_user_task(done),
        r.current_tasks.len() == 0,
        r.current_flows == seq![definition.tasks@[done as int].def.outgoing()[0]],
        r.variables == m.variables,
        on_track(definition, m),
        !m.maybe_visited_tasks.contains(done),
        sim_for(definition, m, sim_fuel).maybe_visited_tasks.contains(done),
        sim_halts(definition, m, sim_fuel),
    ensures
        news_foreseen(r, run_for(definition, r, run_fuel), sim_for(definition, m, sim_fuel)),
    decreases sim_fuel,
{
    let ran = run_for(definition, r, run_fuel);
    let look = sim_step(definition, m);
    let flow = definition.tasks@[done as int].def.outgoing()[0];
    lemma_sim_step_on_track(definition, m);
    lemma_sim_step_execution(definition, m);
    if look.state.maybe_visited_tasks.contains(done) {
        // This step traverses a flow whose source is `done`.
        assert(m.maybe_future_tasks.len() == 0 || definition.task_at(m.maybe_future_tasks.last())
            is None);
        assert(m.maybe_future_flows.len() == 1);
        let taken = m.maybe_future_flows[0];
        assert(m.maybe_future_flows.last() == taken);
        let f = definition.flow_at(taken)->Some_0;
        assert(look.state.maybe_visited_tasks == m.maybe_visited_tasks.push(f.source_ref));
        assert(f.source_ref == done) by {
            let i = choose|i: int|
                0 <= i < look.state.maybe_visited_tasks.len() && look.state.maybe_visited_tasks[i]
                    == done;
            if i < m.maybe_visited_tasks.len() {
                assert(m.maybe_visited_tasks[i] == done);
            }
        }
        assert(definition.queues(done as int, taken));
        assert(definition.tasks@[done as int].def.outgoing() =~= seq![flow]);
        assert(taken == flow) by {
            let k = choose|k: int|
                0 <= k < definition.tasks@[done as int].def.outgoing().len()
                    && definition.tasks@[done as int].def.outgoing()[k] == taken;
        }
        if run_fuel == 0 {
            assert forall|i: int| 0 <= i < ran.pending_tasks.len() implies r.pending_tasks.contains(
                #[trigger] ran.pending_tasks[i],
            ) by {}
        } else {
            let step = run_step(definition, r);
            assert(step.more);
            assert(step.state.current_tasks =~= seq![f.target_ref]);
            assert(step.state.current_flows =~= Seq::<i32>::empty());
            assert(m.maybe_future_tasks.len() == 0);
            assert(look.state.maybe_future_tasks =~= seq![f.target_ref]);
            assert(look.state.maybe_future_flows =~= Seq::<i32>::empty());
            assert(in_step(step.state, look.state));
            lemma_in_step(
                definition,
                step.state,
                look.state,
                (run_fuel - 1) as nat,
                (sim_fuel - 1) as nat,
            );
        }
    } else {
        assert(look.more);
        lemma_passes(definition, r, look.state, done, run_fuel, (sim_fuel - 1) as nat);
    }
}

/// Every pending task of a started instance has been reached by the
/// look-ahead, where the definition has the common shape and the look-ahead
/// ends of itself.
pub proof fn law_start_foreseen(definition: WorkflowDefinition, limit: nat)
    requires
        definition.orderly(),
        look_ahead_ends(definition, JsonModel::Object(Seq::empty()), limit),
    ensures
        started(definition, limit).pending_foreseen(),
{
    let root = definition.root_start();
    let s0 = StateView::initial(root);
    let ran = run_for(definition, s0, limit);
    let m0 = ran.future_cleared(root);
    lemma_run_surroundings(definition, s0, limit);
    lemma_sim_halts_depends_on_variables(definition, s0.future_cleared(root), m0, limit);
    lemma_in_step(definition, s0, m0, limit, limit);
    let end = started(definition, limit);
    lemma_sim_execution(definition, m0, limit);
    assert forall|i: int| 0 <= i < end.pending_tasks.len() implies end.maybe_visited_tasks.contains(
        #[trigger] end.pending_tasks[i],
    ) by {
        assert(end.pending_tasks[i] == ran.pending_tasks[i]);
    }
}

/// Completing the one pending task leaves every pending task among those
/// that the look-ahead has reached, where that held before, nothing was
/// queued, the look-ahead was up to date, the definition has the common
/// shape and the look-ahead ends of itself.
pub proof fn law_complete_foreseen(
    definition: WorkflowDefinition,
    s: StateView,
    task: i32,
    limit: nat,
)
    requires
        definition.orderly(),
        s.quiet(),
        s.pending_tasks == seq![task],
        completion_error(definition, s, task) is None,
        s.pending_foreseen(),
        foresight_current(definition, s, limit),
        look_ahead_ends(definition, s.variables, limit),
    ensures
        after_complete(definition, s, task, limit).pending_foreseen(),
{
    let root = definition.root_start();
    let c = completing(definition, s, task);
    let ran = run_for(definition, c, limit);
    let m0 = s.future_cleared(root);
    let end = after_complete(definition, s, task, limit);
    assert(s.pending_tasks[0] == task);
    assert(first_place(s.pending_tasks, task, 0));
    lemma_place_of(s.pending_tasks, task, 0);
    assert(c.pending_tasks.len() == 0);
    assert(definition.names_user_task(task));
    let out = definition.tasks@[task as int].def.outgoing();
    assert(out =~= seq![out[0]]);
    assert(c.current_flows =~= seq![out[0]]);
    lemma_sim_halts_depends_on_variables(
        definition,
        (StateView { variables: s.variables, ..StateView::initial(root) }).future_cleared(root),
        m0,
        limit,
    );
    assert(s.maybe_visited_tasks.contains(task));
    lemma_passes(definition, c, m0, task, limit, limit);
    lemma_run_surroundings(definition, c, limit);
    lemma_simulated_depends_on_variables(definition, s, ran, limit);
    lemma_simulated_depends_on_variables(definition, ran, ran, limit);
    assert forall|i: int| 0 <= i < end.pending_tasks.len() implies end.maybe_visited_tasks.contains(
        #[trigger] end.pending_tasks[i],
    ) by {
        assert(end.pending_tasks[i] == ran.pending_tasks[i]);
    }
}

} // verus!
