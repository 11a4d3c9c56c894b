//! What holds of every walk.

use vstd::prelude::*;
use crate::engine::run_for;
use crate::engine::run_halts;
use crate::engine::run_step;
use crate::engine::sim_for;
use crate::engine::sim_step;
use crate::engine::simulated;
use crate::model::WorkflowDefinition;
use crate::state::lemma_with_unique_distinct;
use crate::state::StateView;

verus! {

/// A step of the interpreter touches neither the active task, nor the
/// look-ahead, nor the variables, nor the remote correlation.
pub proof fn lemma_run_step_surroundings(definition: WorkflowDefinition, s: StateView)
    ensures
        run_step(definition, s).state.same_surroundings(s),
{
}

/// The interpreter touches neither the active task, nor the look-ahead, nor
/// the variables, nor the remote correlation.
pub proof fn lemma_run_surroundings(definition: WorkflowDefinition, s: StateView, fuel: nat)
    ensures
        run_for(definition, s, fuel).same_surroundings(s),
    decreases fuel,
{
    if fuel > 0 {
        let step = run_step(definition, s);
        lemma_run_step_surroundings(definition, s);
        if step.more {
            lemma_run_surroundings(definition, step.state, (fuel - 1) as nat);
        }
    }
}

/// A step of the look-ahead leaves the real execution alone.
pub proof fn lemma_sim_step_execution(definition: WorkflowDefinition, s: StateView)
    ensures
        sim_step(definition, s).state.same_execution(s),
{
}

/// The look-ahead leaves the real execution alone.
pub proof fn lemma_sim_execution(definition: WorkflowDefinition, s: StateView, fuel: nat)
    ensures
        sim_for(definition, s, fuel).same_execution(s),
    decreases fuel,
{
    if fuel > 0 {
        let step = sim_step(definition, s);
        lemma_sim_step_execution(definition, s);
        if step.more {
            lemma_sim_execution(definition, step.state, (fuel - 1) as nat);
        }
    }
}

/// What the look-ahead finds depends on the definition and the variables
/// alone: two states with the same variables foresee the same tasks.
pub proof fn lemma_sim_depends_on_variables(
    definition: WorkflowDefinition,
    a: StateView,
    b: StateView,
    fuel: nat,
)
    requires
        a.variables == b.variables,
        a.maybe_future_tasks == b.maybe_future_tasks,
        a.maybe_future_flows == b.maybe_future_flows,
        a.maybe_visited_tasks == b.maybe_visited_tasks,
    ensures
        sim_for(definition, a, fuel).maybe_future_tasks == sim_for(
            definition,
            b,
            fuel,
        ).maybe_future_tasks,
        sim_for(definition, a, fuel).maybe_future_flows == sim_for(
            definition,
            b,
            fuel,
        ).maybe_future_flows,
        sim_for(definition, a, fuel).maybe_visited_tasks == sim_for(
            definition,
            b,
            fuel,
        ).maybe_visited_tasks,
    decreases fuel,
{
    if fuel > 0 {
        let sa = sim_step(definition, a);
        let sb = sim_step(definition, b);
        lemma_sim_step_execution(definition, a);
        lemma_sim_step_execution(definition, b);
        assert(sa.more == sb.more);
        if sa.more {
            lemma_sim_depends_on_variables(definition, sa.state, sb.state, (fuel - 1) as nat);
        }
    }
}

/// A look-ahead taken again finds what it found: the look-ahead of a state
/// is that of any state with the same variables.
pub proof fn lemma_simulated_depends_on_variables(
    definition: WorkflowDefinition,
    a: StateView,
    b: StateView,
    fuel: nat,
)
    requires
        a.variables == b.variables,
    ensures
        simulated(definition, a, fuel).maybe_visited_tasks == simulated(
            definition,
            b,
            fuel,
        ).maybe_visited_tasks,
        simulated(definition, a, fuel).maybe_future_tasks == simulated(
            definition,
            b,
            fuel,
        ).maybe_future_tasks,
        simulated(definition, a, fuel).maybe_future_flows == simulated(
            definition,
            b,
            fuel,
        ).maybe_future_flows,
        simulated(definition, a, fuel).same_execution(a),
{
    let start = definition.root_start();
    lemma_sim_depends_on_variables(
        definition,
        a.future_cleared(start),
        b.future_cleared(start),
        fuel,
    );
    lemma_sim_execution(definition, a.future_cleared(start), fuel);
}

/// A step of the interpreter records no task twice.
pub proof fn lemma_run_step_no_task_twice(definition: WorkflowDefinition, s: StateView)
    requires
        s.no_task_twice(),
    ensures
        run_step(definition, s).state.no_task_twice(),
{
    let r = run_step(definition, s).state;
    if r.visited_tasks != s.visited_tasks {
        let x = choose|x: i32| r.visited_tasks == crate::state::with_unique(s.visited_tasks, x);
        lemma_step_records_one(definition, s);
        lemma_with_unique_distinct(s.visited_tasks, x);
    }
}

/// A step of the interpreter records at most one task as visited.
proof fn lemma_step_records_one(definition: WorkflowDefinition, s: StateView)
    ensures
        run_step(definition, s).state.visited_tasks == s.visited_tasks || exists|x: i32|
            run_step(definition, s).state.visited_tasks == crate::state::with_unique(
                s.visited_tasks,
                x,
            ),
{
    let r = run_step(definition, s).state;
    if r.visited_tasks != s.visited_tasks {
        if s.current_tasks.len() > 0 && definition.task_at(s.current_tasks.last()) is Some {
            let task = definition.task_at(s.current_tasks.last()).unwrap();
            assert(r.visited_tasks == crate::state::with_unique(s.visited_tasks, task.id));
        } else {
            let flow = definition.flow_at(s.current_flows.last()).unwrap();
            assert(r.visited_tasks == crate::state::with_unique(
                s.visited_tasks,
                flow.source_ref,
            ));
        }
    }
}

/// The interpreter records no task twice.
pub proof fn lemma_run_no_task_twice(definition: WorkflowDefinition, s: StateView, fuel: nat)
    requires
        s.no_task_twice(),
    ensures
        run_for(definition, s, fuel).no_task_twice(),
    decreases fuel,
{
    if fuel > 0 {
        let step = run_step(definition, s);
        lemma_run_step_no_task_twice(definition, s);
        if step.more {
            lemma_run_no_task_twice(definition, step.state, (fuel - 1) as nat);
        }
    }
}

/// A walk of the interpreter makes at most one task pending, and completes
/// the instance only where it makes none pending: from a state with nothing
/// pending and not completed it ends with at most one pending task, and
/// with none if it ends completed.
pub proof fn lemma_run_one_pending(definition: WorkflowDefinition, s: StateView, fuel: nat)
    requires
        s.pending_tasks.len() == 0,
        !s.completed,
    ensures
        run_for(definition, s, fuel).pending_tasks.len() <= 1,
        run_for(definition, s, fuel).done_means_idle(),
    decreases fuel,
{
    if fuel > 0 {
        let step = run_step(definition, s);
        if step.more {
            lemma_run_one_pending(definition, step.state, (fuel - 1) as nat);
        }
    }
}

/// The interpreter never takes a completion back: an instance that is
/// completed stays completed.
pub proof fn lemma_run_keeps_completed(definition: WorkflowDefinition, s: StateView, fuel: nat)
    requires
        s.completed,
    ensures
        run_for(definition, s, fuel).completed,
    decreases fuel,
{
    if fuel > 0 {
        let step = run_step(definition, s);
        if step.more {
            lemma_run_keeps_completed(definition, step.state, (fuel - 1) as nat);
        }
    }
}

/// With nothing queued the interpreter does nothing.
pub proof fn lemma_run_idle(definition: WorkflowDefinition, s: StateView, fuel: nat)
    requires
        s.quiet(),
    ensures
        run_for(definition, s, fuel) == s,
{
}

/// In a definition where start events and user tasks have at most one flow
/// leaving them, a walk that starts with at most one item queued and ends of
/// itself leaves nothing queued.
pub proof fn lemma_run_quiet(definition: WorkflowDefinition, s: StateView, fuel: nat)
    requires
        definition.single_exit(),
        s.current_tasks.len() + s.current_flows.len() <= 1,
        run_halts(definition, s, fuel),
    ensures
        run_for(definition, s, fuel).quiet(),
    decreases fuel,
{
    let step = run_step(definition, s);
    if step.more {
        assert(step.state.current_tasks.len() + step.state.current_flows.len() <= 1);
        lemma_run_quiet(definition, step.state, (fuel - 1) as nat);
    }
}

/// A walk that ends of itself within some number of steps ends the same
/// way within any larger number.
pub proof fn lemma_run_halts_more(
    definition: WorkflowDefinition,
    s: StateView,
    fuel: nat,
    more: nat,
)
    requires
        run_halts(definition, s, fuel),
        fuel <= more,
    ensures
        run_halts(definition, s, more),
        run_for(definition, s, more) == run_for(definition, s, fuel),
    decreases fuel,
{
    let step = run_step(definition, s);
    if step.more {
        lemma_run_halts_more(definition, step.state, (fuel - 1) as nat, (more - 1) as nat);
    }
}

/// The look-ahead only adds to the tasks it has reached.
pub proof fn lemma_sim_keeps_reached(
    definition: WorkflowDefinition,
    s: StateView,
    fuel: nat,
    task: i32,
)
    requires
        s.maybe_visited_tasks.contains(task),
    ensures
        sim_for(definition, s, fuel).maybe_visited_tasks.contains(task),
    decreases fuel,
{
    if fuel > 0 {
        let step = sim_step(definition, s);
        let i = choose|i: int|
            0 <= i < s.maybe_visited_tasks.len() && s.maybe_visited_tasks[i] == task;
        assert(step.state.maybe_visited_tasks[i] == task);
        if step.more {
            lemma_sim_keeps_reached(definition, step.state, (fuel - 1) as nat, task);
        }
    }
}

} // verus!
