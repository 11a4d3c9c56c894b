//! The operations that a host performs on an instance.
//!
//! Each operation is a whole step: it changes the real execution, lets the
//! look-ahead catch up, and leaves the state ready to be stored.

use vstd::prelude::*;
use crate::codec::decode;
use crate::codec::decodes_to;
use crate::codec::encode;
use crate::codec::frame_in;
use crate::codec::state_fits;
use crate::codec::CodecError;
use crate::engine::completing;
use crate::engine::completion_error;
use crate::engine::navigation_target;
use crate::engine::previous_user_task;
use crate::engine::run_for;
use crate::engine::run_halts;
use crate::engine::simulated;
use crate::engine::Runtime;
use crate::engine::STEP_LIMIT;
use crate::float::Float64;
use crate::json::inserted;
use crate::json::lemma_has_key_first;
use crate::json::lemma_inserted_well_keyed;
use crate::json::well_keyed;
use crate::json::lemma_first_at;
use crate::json::lemma_object_view;
use crate::json::lookup;
use crate::json::Entries;
use crate::json::JsonModel;
use crate::json::JsonNumber;
use crate::json::JsonObject;
use crate::json::JsonValue;
use crate::laws::lemma_run_idle;
use crate::laws::lemma_run_no_task_twice;
use crate::laws::lemma_run_one_pending;
use crate::laws::lemma_run_quiet;
use crate::laws::lemma_simulated_depends_on_variables;
use crate::model::WorkflowDefinition;
use crate::state::holds;
use crate::state::State;
use crate::state::StateView;

verus! {

/// A value that the host hands in for a variable.
#[derive(Debug)]
pub enum Variable {
    /// A string.
    Text(String),
    /// A number, as the host holds it.
    Number(Float64),
    /// A boolean.
    Flag(bool),
    /// Anything else; it is not stored.
    Other,
}

/// What is stored for a value handed in: a string and a boolean as they are,
/// a number as the whole number it is or else as the double it is, and
/// nothing for any other value.
pub open spec fn stored(value: Variable) -> Option<JsonModel> {
    match value {
        Variable::Text(s) => Some(JsonModel::String(s@)),
        Variable::Number(f) => Some(JsonModel::Number(JsonNumber::of_double(f))),
        Variable::Flag(b) => Some(JsonModel::Bool(b)),
        Variable::Other => None,
    }
}

/// `entries` after the first `n` of `values` were written into them, one
/// after the other.
pub open spec fn written(entries: Entries, values: Seq<(String, Variable)>, n: nat) -> Entries
    decreases n,
{
    if n == 0 {
        entries
    } else {
        let before = written(entries, values, (n - 1) as nat);
        match stored(values[n - 1].1) {
            Some(value) => inserted(before, values[n - 1].0@, value),
            None => before,
        }
    }
}

/// The entries of the object found under `key`; none where nothing is found
/// there, or something that is no object.
pub open spec fn object_under(root: Entries, key: Seq<char>) -> Entries {
    match lookup(root, key) {
        Some(JsonModel::Object(entries)) => entries,
        _ => Seq::empty(),
    }
}

/// A task whose variables can be read and written: it is pending, and the
/// definition holds an identifier for it.
pub open spec fn has_variables(definition: WorkflowDefinition, s: StateView, task: i32) -> bool {
    &&& s.pending_tasks.contains(task)
    &&& 0 <= task < definition.task_ids@.len()
    &&& s.variables is Object
}

/// The variables after `values` were written for `task`: the object under
/// the identifier of the task holds them in addition to what it held.
/// Nothing changes for a task that has no variables.
pub open spec fn variables_written(
    definition: WorkflowDefinition,
    s: StateView,
    task: i32,
    values: Seq<(String, Variable)>,
) -> JsonModel {
    if has_variables(definition, s, task) {
        let key = definition.task_ids@[task as int]@;
        let root = s.variables->Object_0;
        JsonModel::Object(
            inserted(
                root,
                key,
                JsonModel::Object(written(object_under(root, key), values, values.len())),
            ),
        )
    } else {
        s.variables
    }
}

/// What is stored for `task`, if it has variables and something is stored.
pub open spec fn variables_of(
    definition: WorkflowDefinition,
    s: StateView,
    task: i32,
) -> Option<JsonModel> {
    if has_variables(definition, s, task) {
        lookup(s.variables->Object_0, definition.task_ids@[task as int]@)
    } else {
        None
    }
}

/// The state of an instance that was started: the interpreter has walked
/// from the start event, the look-ahead has caught up, and the first pending
/// task is the active one.
pub open spec fn started(definition: WorkflowDefinition, limit: nat) -> StateView {
    simulated(
        definition,
        run_for(definition, StateView::initial(definition.root_start()), limit),
        limit,
    ).with_default_active()
}

/// The state after a user task was completed.
pub open spec fn after_complete(
    definition: WorkflowDefinition,
    s: StateView,
    task: i32,
    limit: nat,
) -> StateView {
    simulated(
        definition,
        run_for(definition, completing(definition, s, task), limit),
        limit,
    ).with_default_active()
}

/// The state in which navigation leaves the instance before the interpreter
/// and the look-ahead are run once more.
pub open spec fn navigated(
    definition: WorkflowDefinition,
    s: StateView,
    task: i32,
    limit: nat,
) -> StateView {
    match navigation_target(definition, s, task) {
        Some(target) => simulated(definition, s.at_user_task(target), limit),
        None => s,
    }
}

/// The state after navigation.
pub open spec fn after_navigate(
    definition: WorkflowDefinition,
    s: StateView,
    task: i32,
    limit: nat,
) -> StateView {
    simulated(definition, run_for(definition, navigated(definition, s, task, limit), limit), limit)
}

/// The state after variables were written.
pub open spec fn after_set_variables(
    definition: WorkflowDefinition,
    s: StateView,
    task: i32,
    values: Seq<(String, Variable)>,
    limit: nat,
) -> StateView {
    simulated(
        definition,
        StateView { variables: variables_written(definition, s, task, values), ..s },
        limit,
    )
}

/// The look-ahead of `s` is up to date: taking it again would reach the same
/// tasks.
pub open spec fn foresight_current(definition: WorkflowDefinition, s: StateView, limit: nat) -> bool {
    s.maybe_visited_tasks == simulated(definition, s, limit).maybe_visited_tasks
}

/// A started instance is consistent: no task is recorded twice, the active
/// task is pending or absent, at most one task is pending, and none is if
/// the instance is completed.
pub proof fn law_start_consistent(definition: WorkflowDefinition, limit: nat)
    ensures
        started(definition, limit).consistent(),
        foresight_current(definition, started(definition, limit), limit),
{
    let s0 = StateView::initial(definition.root_start());
    let ran = run_for(definition, s0, limit);
    lemma_run_no_task_twice(definition, s0, limit);
    lemma_run_one_pending(definition, s0, limit);
    lemma_settles(definition, ran, limit);
}

/// Once the interpreter has walked, letting the look-ahead catch up and
/// making the first pending task active gives a consistent state whose
/// look-ahead is up to date.
proof fn lemma_settles(definition: WorkflowDefinition, ran: StateView, limit: nat)
    requires
        ran.no_task_twice(),
        ran.pending_tasks.len() <= 1,
        ran.done_means_idle(),
    ensures
        simulated(definition, ran, limit).with_default_active().consistent(),
        simulated(definition, ran, limit).with_default_active().quiet() == ran.quiet(),
        foresight_current(
            definition,
            simulated(definition, ran, limit).with_default_active(),
            limit,
        ),
{
    let sim = simulated(definition, ran, limit);
    let end = sim.with_default_active();
    lemma_simulated_depends_on_variables(definition, ran, ran, limit);
    lemma_simulated_depends_on_variables(definition, ran, end, limit);
    if end.pending_tasks.len() > 0 {
        assert(end.pending_tasks[0] == end.active);
    }
}

/// In a definition where start events and user tasks have at most one flow
/// leaving them, a started instance whose first walk ends of itself has
/// nothing left queued.
pub proof fn law_start_quiet(definition: WorkflowDefinition, limit: nat)
    requires
        definition.single_exit(),
        run_halts(definition, StateView::initial(definition.root_start()), limit),
    ensures
        started(definition, limit).quiet(),
{
    let s0 = StateView::initial(definition.root_start());
    lemma_run_quiet(definition, s0, limit);
    lemma_simulated_depends_on_variables(
        definition,
        run_for(definition, s0, limit),
        run_for(definition, s0, limit),
        limit,
    );
}

/// Completing a task keeps a consistent state consistent, and brings the
/// look-ahead up to date.
pub proof fn law_complete_consistent(
    definition: WorkflowDefinition,
    s: StateView,
    task: i32,
    limit: nat,
)
    requires
        s.consistent(),
        completion_error(definition, s, task) is None,
    ensures
        after_complete(definition, s, task, limit).consistent(),
        foresight_current(definition, after_complete(definition, s, task, limit), limit),
{
    let c = completing(definition, s, task);
    assert(s.pending_tasks.len() == 1);
    assert(s.pending_tasks[0] == task);
    assert(crate::state::first_place(s.pending_tasks, task, 0));
    crate::engine::lemma_place_of(s.pending_tasks, task, 0);
    assert(c.pending_tasks.len() == 0);
    lemma_run_no_task_twice(definition, c, limit);
    lemma_run_one_pending(definition, c, limit);
    lemma_settles(definition, run_for(definition, c, limit), limit);
}

/// In a definition where start events and user tasks have at most one flow
/// leaving them, completing a task in a state with nothing queued leaves
/// nothing queued, if the walk ends of itself.
pub proof fn law_complete_quiet(
    definition: WorkflowDefinition,
    s: StateView,
    task: i32,
    limit: nat,
)
    requires
        s.quiet(),
        definition.single_exit(),
        completion_error(definition, s, task) is None,
        run_halts(definition, completing(definition, s, task), limit),
    ensures
        after_complete(definition, s, task, limit).quiet(),
{
    let c = completing(definition, s, task);
    assert(c.current_tasks.len() + c.current_flows.len() <= 1) by {
        assert(definition.tasks@[task as int].def is UserTask);
    }
    lemma_run_quiet(definition, c, limit);
    lemma_simulated_depends_on_variables(
        definition,
        run_for(definition, c, limit),
        run_for(definition, c, limit),
        limit,
    );
}

/// Navigation in a consistent state with nothing queued leaves no task
/// recorded twice, the active task pending or absent, at most one task
/// pending and nothing queued.  A completed instance stays marked as
/// completed, so that it has nothing pending afterwards only where the
/// navigation arrives nowhere.
pub proof fn law_navigate_consistent(
    definition: WorkflowDefinition,
    s: StateView,
    task: i32,
    limit: nat,
)
    requires
        s.consistent(),
        s.quiet(),
    ensures
        after_navigate(definition, s, task, limit).no_task_twice(),
        after_navigate(definition, s, task, limit).active_is_pending(),
        after_navigate(definition, s, task, limit).pending_tasks.len() <= 1,
        after_navigate(definition, s, task, limit).quiet(),
        !s.completed || navigation_target(definition, s, task) is None ==> after_navigate(
            definition,
            s,
            task,
            limit,
        ).done_means_idle(),
        foresight_current(definition, after_navigate(definition, s, task, limit), limit),
{
    let n = navigated(definition, s, task, limit);
    match navigation_target(definition, s, task) {
        Some(target) => {
            let at = s.at_user_task(target);
            lemma_simulated_depends_on_variables(definition, at, at, limit);
            assert(at.pending_tasks[0] == target);
        },
        None => {},
    }
    lemma_run_idle(definition, n, limit);
    lemma_simulated_depends_on_variables(definition, n, n, limit);
    let end = after_navigate(definition, s, task, limit);
    lemma_simulated_depends_on_variables(definition, n, end, limit);
    assert(end.pending_tasks == n.pending_tasks);
    if end.active != -1 {
        let i = choose|i: int| 0 <= i < n.pending_tasks.len() && n.pending_tasks[i] == n.active;
        assert(end.pending_tasks[i] == end.active);
    }
}

/// Navigation that arrives at the very task it was asked for leaves every
/// pending task among those that the look-ahead reached, if the look-ahead
/// was up to date.
pub proof fn law_navigate_foreseen(
    definition: WorkflowDefinition,
    s: StateView,
    task: i32,
    limit: nat,
)
    requires
        s.quiet(),
        foresight_current(definition, s, limit),
        navigation_target(definition, s, task) == Some(task),
        s.maybe_visited_tasks.contains(task),
    ensures
        after_navigate(definition, s, task, limit).pending_foreseen(),
{
    let at = s.at_user_task(task);
    let n = navigated(definition, s, task, limit);
    lemma_simulated_depends_on_variables(definition, at, s, limit);
    lemma_run_idle(definition, n, limit);
    lemma_simulated_depends_on_variables(definition, n, s, limit);
    let end = after_navigate(definition, s, task, limit);
    assert(end.pending_tasks =~= seq![task]);
}

/// Writing variables changes nothing of the real execution but the
/// variables, and brings the look-ahead up to date.
pub proof fn law_set_variables_consistent(
    definition: WorkflowDefinition,
    s: StateView,
    task: i32,
    values: Seq<(String, Variable)>,
    limit: nat,
)
    ensures
        s.consistent() ==> after_set_variables(definition, s, task, values, limit).consistent(),
        s.quiet() ==> after_set_variables(definition, s, task, values, limit).quiet(),
        foresight_current(
            definition,
            after_set_variables(definition, s, task, values, limit),
            limit,
        ),
{
    let w = StateView { variables: variables_written(definition, s, task, values), ..s };
    let end = after_set_variables(definition, s, task, values, limit);
    lemma_simulated_depends_on_variables(definition, w, w, limit);
    lemma_simulated_depends_on_variables(definition, w, end, limit);
    if s.consistent() && end.active != -1 {
        let i = choose|i: int| 0 <= i < s.pending_tasks.len() && s.pending_tasks[i] == s.active;
        assert(end.pending_tasks[i] == end.active);
    }
}

/// Why bytes that hold no state are refused: for their schema where they
/// hold no frame, and else for the shape of the frame.
pub open spec fn unreadable(bytes: Seq<u8>) -> CodecError {
    if frame_in(bytes) is None {
        CodecError::Schema
    } else {
        CodecError::Shape
    }
}

/// Writing values into well-keyed entries leaves them well keyed.
pub proof fn lemma_written_well_keyed(entries: Entries, values: Seq<(String, Variable)>, n: nat)
    requires
        well_keyed(JsonModel::Object(entries)),
        n <= values.len(),
    ensures
        well_keyed(JsonModel::Object(written(entries, values, n))),
    decreases n,
{
    if n > 0 {
        lemma_written_well_keyed(entries, values, (n - 1) as nat);
        let before = written(entries, values, (n - 1) as nat);
        match stored(values[n - 1].1) {
            Some(value) => {
                lemma_inserted_well_keyed(before, values[n - 1].0@, value);
            },
            None => {},
        }
    }
}

/// The variables of an instance never come to hold a key twice: they start
/// as an empty object, and writing variables keeps well-keyed variables
/// well keyed.  The other operations leave the variables alone.
pub proof fn law_variables_stay_well_keyed(
    definition: WorkflowDefinition,
    s: StateView,
    task: i32,
    values: Seq<(String, Variable)>,
)
    requires
        well_keyed(s.variables),
    ensures
        well_keyed(StateView::initial(definition.root_start()).variables),
        well_keyed(variables_written(definition, s, task, values)),
{
    if has_variables(definition, s, task) {
        let key = definition.task_ids@[task as int]@;
        let root = s.variables->Object_0;
        let under = object_under(root, key);
        assert(well_keyed(JsonModel::Object(under))) by {
            if crate::json::has_key(root, key) {
                lemma_has_key_first(root, key);
                let i = crate::json::first_index(root, key);
                assert(well_keyed(root[i].1));
            }
        }
        lemma_written_well_keyed(under, values, values.len());
        lemma_inserted_well_keyed(
            root,
            key,
            JsonModel::Object(written(under, values, values.len())),
        );
    }
}

/// An instance of a workflow, as the host sees it.
pub struct WorkflowInstance<'a> {
    pub rt: Runtime<'a>,
}

/// Writes `values` into the object that `root` holds under `key`.
fn write_variables(root: &mut JsonObject, key: &String, values: &Vec<(String, Variable)>)
    ensures
        final(root)@ == inserted(
            old(root)@,
            key@,
            JsonModel::Object(written(object_under(old(root)@, key@), values@, values@.len())),
        ),
{
    let ghost before = root@;
    let place = root.position(key.as_str());
    let (mut inner, at) = match place {
        Some(i) => {
            proof {
                lemma_first_at(before, key@, i as int);
            }
            let entry = root.entries.remove(i);
            let inner = match entry.1 {
                JsonValue::Object(o) => {
                    proof {
                        lemma_object_view(JsonValue::Object(o));
                    }
                    o
                },
                _ => JsonObject::new(),
            };
            (inner, Some((i, entry.0)))
        },
        None => (JsonObject::new(), None),
    };
    assert(inner@ == object_under(before, key@));
    let mut j: usize = 0;
    while j < values.len()
        invariant
            j <= values@.len(),
            inner@ == written(object_under(before, key@), values@, j as nat),
        decreases values@.len() - j,
    {
        match &values[j].1 {
            Variable::Text(s) => {
                let _ = inner.insert(values[j].0.clone(), JsonValue::String(s.clone()));
            },
            Variable::Number(f) => {
                let _ = inner.insert(
                    values[j].0.clone(),
                    JsonValue::Number(JsonNumber::from_f64(*f)),
                );
            },
            Variable::Flag(b) => {
                let _ = inner.insert(values[j].0.clone(), JsonValue::Bool(*b));
            },
            Variable::Other => {},
        }
        j += 1;
    }
    let value = JsonValue::Object(inner);
    proof {
        lemma_object_view(value);
    }
    match at {
        Some((i, name)) => {
            root.entries.insert(i, (name, value));
            assert(root@ =~= before.update(i as int, (key@, value@)));
        },
        None => {
            let _ = root.insert(key.clone(), value);
        },
    }
}

impl<'a> WorkflowInstance<'a> {
    /// The state of the instance.
    pub open spec fn view(&self) -> StateView {
        self.rt.instance@
    }

    /// Starts an instance for an entity: the interpreter walks from the
    /// start event, the look-ahead catches up, and the first pending task
    /// becomes the active one.
    pub fn start(definition: &'a WorkflowDefinition, entity_id: &str) -> (instance:
        WorkflowInstance<'a>)
        ensures
            instance.rt.definition == definition,
            instance.rt.entity_id@ == definition.formatted_id(entity_id@),
            instance.rt.step_limit == STEP_LIMIT,
            instance@ == started(*definition, STEP_LIMIT as nat),
            instance@.consistent(),
    {
        WorkflowInstance::start_within(definition, entity_id, STEP_LIMIT)
    }

    /// Starts an instance whose walks are cut off after `limit` steps.
    pub fn start_within(definition: &'a WorkflowDefinition, entity_id: &str, limit: u64) -> (instance:
        WorkflowInstance<'a>)
        ensures
            instance.rt.definition == definition,
            instance.rt.entity_id@ == definition.formatted_id(entity_id@),
            instance.rt.step_limit == limit,
            instance@ == started(*definition, limit as nat),
            instance@.consistent(),
    {
        let mut rt = Runtime::new(definition, definition.format_id(entity_id)).with_step_limit(
            limit,
        );
        rt.run();
        rt.simulate();
        rt.set_default_active_task();
        proof {
            law_start_consistent(*definition, limit as nat);
        }
        WorkflowInstance { rt }
    }

    /// Takes up an instance for an entity: in the state that was stored for
    /// it, or not yet run where nothing was stored.  Stored bytes that hold
    /// no state are refused.
    pub fn load(definition: &'a WorkflowDefinition, entity_id: &str, stored: Option<&[u8]>) -> (r:
        Result<WorkflowInstance<'a>, CodecError>)
        ensures
            match r {
                Ok(instance) => {
                    &&& instance.rt.definition == definition
                    &&& instance.rt.entity_id@ == definition.formatted_id(entity_id@)
                    &&& instance.rt.step_limit == STEP_LIMIT
                    &&& match stored {
                        Some(bytes) => decodes_to(bytes@, instance@),
                        None => instance@ == StateView::initial(definition.root_start()),
                    }
                },
                Err(e) => stored matches Some(bytes) && e == unreadable(bytes@) && forall|s: State|
                    !decodes_to(bytes@, #[trigger] s@),
            },
            forall|s: State|
                stored matches Some(bytes) && decodes_to(bytes@, #[trigger] s@) ==> (
                r matches Ok(instance) && instance@ == s@),
    {
        let rt = Runtime::new(definition, definition.format_id(entity_id));
        match stored {
            Some(bytes) => match decode(bytes) {
                Ok(state) => Ok(WorkflowInstance { rt: rt.with_state(state) }),
                Err(e) => Err(e),
            },
            None => Ok(WorkflowInstance { rt }),
        }
    }

    /// Takes up an instance in a state that another system holds, and notes
    /// under which name and version that system knows it.  Bytes that hold
    /// no state are refused.
    pub fn restore(
        definition: &'a WorkflowDefinition,
        entity_id: &str,
        remote_id: String,
        remote_version: i64,
        state: &[u8],
    ) -> (r: Result<WorkflowInstance<'a>, CodecError>)
        ensures
            match r {
                Ok(instance) => {
                    &&& instance.rt.definition == definition
                    &&& instance.rt.entity_id@ == definition.formatted_id(entity_id@)
                    &&& instance.rt.step_limit == STEP_LIMIT
                    &&& instance@.remote_id == Some(remote_id@)
                    &&& instance@.remote_version == Some(remote_version)
                    &&& exists|held: StateView| #[trigger]
                        decodes_to(state@, held) && instance@ == (StateView {
                            remote_id: Some(remote_id@),
                            remote_version: Some(remote_version),
                            ..held
                        })
                },
                Err(e) => e == unreadable(state@) && forall|s: State|
                    !decodes_to(state@, #[trigger] s@),
            },
            forall|s: State|
                decodes_to(state@, #[trigger] s@) ==> (r matches Ok(instance) && instance@ == (
                StateView {
                    remote_id: Some(remote_id@),
                    remote_version: Some(remote_version),
                    ..s@
                })),
    {
        match decode(state) {
            Ok(held) => {
                let mut rt = Runtime::new(definition, definition.format_id(entity_id)).with_state(
                    held,
                );
                let ghost before = rt.instance@;
                rt.instance.set_remote_id(remote_id, remote_version);
                assert(decodes_to(state@, before));
                Ok(WorkflowInstance { rt })
            },
            Err(e) => Err(e),
        }
    }

    /// The state of the instance, as bytes that hold it.  A state too heavy
    /// to be archived is refused.
    pub fn state(&self) -> (r: Result<Vec<u8>, CodecError>)
        ensures
            match r {
                Ok(bytes) => state_fits(self@) && decodes_to(bytes@, self@),
                Err(e) => e == CodecError::Archive && !state_fits(self@),
            },
    {
        encode(&self.rt.instance.state().inner)
    }

    /// Puts the instance into the state that `bytes` hold.  Bytes that hold
    /// no state are refused, and nothing changes.  The variables are taken
    /// as the bytes hold them, also where an object in them holds a key
    /// twice.
    pub fn set_state(&mut self, bytes: &[u8]) -> (r: Result<(), CodecError>)
        ensures
            final(self).rt.same_frame(&old(self).rt),
            match r {
                Ok(_) => decodes_to(bytes@, final(self)@),
                Err(e) => e == unreadable(bytes@) && final(self)@ == old(self)@ && forall|s: State|
                    !decodes_to(bytes@, #[trigger] s@),
            },
            forall|s: State| decodes_to(bytes@, #[trigger] s@) ==> (r is Ok && final(self)@ == s@),
    {
        match decode(bytes) {
            Ok(state) => {
                self.rt.replace(state);
                Ok(())
            },
            Err(e) => Err(e),
        }
    }

    /// Completes a pending user task, lets the look-ahead catch up and makes
    /// the first pending task the active one.  A task that cannot be
    /// completed is refused, and nothing changes.
    pub fn complete(&mut self, task_id: i32) -> (r: Result<(), String>)
        ensures
            final(self).rt.same_frame(&old(self).rt),
            match r {
                Ok(_) => completion_error(*old(self).rt.definition, old(self)@, task_id) is None
                    && final(self)@ == after_complete(
                    *old(self).rt.definition,
                    old(self)@,
                    task_id,
                    old(self).rt.step_limit as nat,
                ),
                Err(e) => completion_error(*old(self).rt.definition, old(self)@, task_id)
                    == Some(e@) && final(self)@ == old(self)@,
            },
            old(self)@.consistent() ==> final(self)@.consistent(),
    {
        match self.rt.complete(task_id) {
            Ok(_) => {
                self.rt.simulate();
                self.rt.set_default_active_task();
                proof {
                    if old(self)@.consistent() {
                        law_complete_consistent(
                            *old(self).rt.definition,
                            old(self)@,
                            task_id,
                            old(self).rt.step_limit as nat,
                        );
                    }
                }
                Ok(())
            },
            Err(e) => Err(e),
        }
    }

    /// Moves the instance back to a user task that was visited, then lets
    /// the interpreter and the look-ahead catch up.
    pub fn navigate_to(&mut self, task_id: i32)
        ensures
            final(self).rt.same_frame(&old(self).rt),
            final(self)@ == after_navigate(
                *old(self).rt.definition,
                old(self)@,
                task_id,
                old(self).rt.step_limit as nat,
            ),
    {
        self.rt.navigate_to(task_id);
        self.rt.run();
        self.rt.simulate();
    }

    /// What is stored for a pending task.
    pub fn get_variables(&self, task_id: i32) -> (r: Option<&JsonValue>)
        ensures
            match r {
                Some(v) => variables_of(*self.rt.definition, self@, task_id) == Some(v@),
                None => variables_of(*self.rt.definition, self@, task_id) is None,
            },
    {
        let definition = self.rt.definition;
        let state = self.rt.instance.state();
        let is_current_task = holds(&state.inner.pending_tasks, task_id);
        if is_current_task && task_id >= 0 && (task_id as usize) < definition.task_ids.len() {
            let key = definition.task_ids[task_id as usize].as_str();
            match state.inner.variables.as_object() {
                Some(object) => object.get(key),
                None => None,
            }
        } else {
            None
        }
    }

    /// Writes variables for a pending task, then lets the look-ahead catch
    /// up.  For a task that is not pending nothing is written.
    pub fn set_variables(&mut self, task_id: i32, variables: &Vec<(String, Variable)>)
        ensures
            final(self).rt.same_frame(&old(self).rt),
            final(self)@ == after_set_variables(
                *old(self).rt.definition,
                old(self)@,
                task_id,
                variables@,
                old(self).rt.step_limit as nat,
            ),
    {
        let definition = self.rt.definition;
        let is_current_task = holds(&self.rt.instance.state().inner.pending_tasks, task_id);
        if is_current_task && task_id >= 0 && (task_id as usize) < definition.task_ids.len() {
            let key = &definition.task_ids[task_id as usize];
            let state = self.rt.instance.mut_state();
            let ghost before = state.inner.variables;
            match state.inner.variables.as_object_mut() {
                Some(root) => {
                    proof {
                        lemma_object_view(before);
                    }
                    write_variables(root, key, variables);
                },
                None => {},
            }
            proof {
                if before is Object {
                    lemma_object_view(state.inner.variables);
                }
            }
        }
        self.rt.simulate();
    }

    /// The tasks that wait to be completed.
    pub fn pending_tasks(&self) -> (r: &Vec<i32>)
        ensures
            r@ == self@.pending_tasks,
    {
        &self.rt.instance.state().inner.pending_tasks
    }

    /// The tasks that the execution has reached.
    pub fn visited_tasks(&self) -> (r: &Vec<i32>)
        ensures
            r@ == self@.visited_tasks,
    {
        &self.rt.instance.state().inner.visited_tasks
    }

    /// The user tasks that the look-ahead has reached.
    pub fn maybe_visited_tasks(&self) -> (r: &Vec<i32>)
        ensures
            r@ == self@.maybe_visited_tasks,
    {
        &self.rt.instance.state().inner.maybe_visited_tasks
    }

    pub fn get_active(&self) -> (r: i32)
        ensures
            r == self@.active,
    {
        self.rt.instance.get_active()
    }

    pub fn is_completed(&self) -> (r: bool)
        ensures
            r == self@.completed,
    {
        self.rt.instance.state().inner.completed
    }

    /// The name and version under which another system knows the instance.
    pub fn get_remote_id(&self) -> (r: Option<(String, i64)>)
        ensures
            match r {
                Some((id, version)) => self@.remote_id == Some(id@) && self@.remote_version
                    == Some(version),
                None => self@.remote_id is None || self@.remote_version is None,
            },
    {
        let state = self.rt.instance.state();
        match (&state.inner.remote_id, state.inner.remote_version) {
            (Some(id), Some(version)) => Some((id.clone(), version)),
            _ => None,
        }
    }

    pub fn set_remote_id(&mut self, remote_id: String, remote_version: i64)
        ensures
            final(self).rt.same_frame(&old(self).rt),
            final(self)@ == (StateView {
                remote_id: Some(remote_id@),
                remote_version: Some(remote_version),
                ..old(self)@
            }),
    {
        self.rt.instance.set_remote_id(remote_id, remote_version);
    }

    /// The user task visited before the active one; `-1` where there is none.
    pub fn back(&self) -> (r: i32)
        ensures
            r == (match previous_user_task(
                *self.rt.definition,
                self@.visited_tasks,
                self@.active,
            ) {
                Some(task) => task,
                None => -1i32,
            }),
    {
        match self.rt.get_previous_user_task(self.get_active()) {
            Some(task) => task,
            None => -1,
        }
    }
}

} // verus!
