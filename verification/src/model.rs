//! The process graph: tasks, the flows between them, and their identifiers.

use vstd::prelude::*;
use std::sync::Arc;
use crate::jsep::JsepNode;
use crate::jsep::NodeModel;

verus! {

#[derive(Debug)]
pub struct StartEventDef {
    pub outgoing: Vec<i32>,
}

#[derive(Debug)]
pub struct EndEventDef {
    pub incoming: Vec<i32>,
}

#[derive(Debug)]
pub struct UserTaskDef {
    pub incoming: Vec<i32>,
    pub outgoing: Vec<i32>,
}

#[derive(Debug)]
pub struct ExclusiveGatewayDef {
    pub incoming: Vec<i32>,
    pub outgoing: Vec<i32>,
    pub default: i32,
}

#[derive(Debug)]
pub enum TaskDef {
    StartEvent(StartEventDef),
    EndEvent(EndEventDef),
    UserTask(UserTaskDef),
    ExclusiveGateway(ExclusiveGatewayDef),
}

#[derive(Debug)]
pub struct Task {
    pub id: i32,
    pub def: TaskDef,
}

#[derive(Debug)]
pub enum ConditionExpression {
    Jsep(JsepNode),
}

#[derive(Debug)]
pub struct Flow {
    pub id: i32,
    pub source_ref: i32,
    pub target_ref: i32,
    pub condition_expression: Option<ConditionExpression>,
}

#[derive(Debug)]
pub struct WorkflowProperties {
    pub autostart: bool,
}

#[derive(Debug)]
pub struct WorkflowDefinition {
    pub version: String,
    pub id: String,
    pub start_event: i32,
    pub parent: Option<Arc<WorkflowDefinition>>,
    pub flows: Vec<Flow>,
    pub flow_ids: Vec<String>,
    pub tasks: Vec<Task>,
    pub task_ids: Vec<String>,
    pub children: Option<Vec<WorkflowDefinition>>,
    pub options: Option<WorkflowProperties>,
}

/// What a task of some kind is.
pub enum TaskDefView {
    StartEvent { outgoing: Seq<i32> },
    EndEvent { incoming: Seq<i32> },
    UserTask { incoming: Seq<i32>, outgoing: Seq<i32> },
    ExclusiveGateway { incoming: Seq<i32>, outgoing: Seq<i32>, default: i32 },
}

/// What a task is.
pub struct TaskView {
    pub id: i32,
    pub def: TaskDefView,
}

/// What a flow is.
pub struct FlowView {
    pub id: i32,
    pub source_ref: i32,
    pub target_ref: i32,
    pub condition: Option<NodeModel>,
}

/// What a definition is.
pub struct DefinitionView {
    pub version: Seq<char>,
    pub id: Seq<char>,
    pub start_event: i32,
    pub parent: Option<Box<DefinitionView>>,
    pub flows: Seq<FlowView>,
    pub flow_ids: Seq<Seq<char>>,
    pub tasks: Seq<TaskView>,
    pub task_ids: Seq<Seq<char>>,
    pub children: Option<Seq<DefinitionView>>,
    pub autostart: Option<bool>,
}

impl View for TaskDef {
    type V = TaskDefView;

    open spec fn view(&self) -> TaskDefView {
        match self {
            TaskDef::StartEvent(ev) => TaskDefView::StartEvent { outgoing: ev.outgoing@ },
            TaskDef::EndEvent(ev) => TaskDefView::EndEvent { incoming: ev.incoming@ },
            TaskDef::UserTask(ev) => TaskDefView::UserTask {
                incoming: ev.incoming@,
                outgoing: ev.outgoing@,
            },
            TaskDef::ExclusiveGateway(ev) => TaskDefView::ExclusiveGateway {
                incoming: ev.incoming@,
                outgoing: ev.outgoing@,
                default: ev.default,
            },
        }
    }
}

impl View for Task {
    type V = TaskView;

    open spec fn view(&self) -> TaskView {
        TaskView { id: self.id, def: self.def@ }
    }
}

impl View for Flow {
    type V = FlowView;

    open spec fn view(&self) -> FlowView {
        FlowView {
            id: self.id,
            source_ref: self.source_ref,
            target_ref: self.target_ref,
            condition: match self.condition_expression {
                Some(ConditionExpression::Jsep(node)) => Some(node@),
                None => None,
            },
        }
    }
}

/// What a definition is.
pub open spec fn definition_view(d: WorkflowDefinition) -> DefinitionView
    decreases d,
{
    DefinitionView {
        version: d.version@,
        id: d.id@,
        start_event: d.start_event,
        parent: match d.parent {
            Some(parent) => Some(Box::new(definition_view(*parent))),
            None => None,
        },
        flows: Seq::new(d.flows@.len(), |i: int| d.flows@[i]@),
        flow_ids: Seq::new(d.flow_ids@.len(), |i: int| d.flow_ids@[i]@),
        tasks: Seq::new(d.tasks@.len(), |i: int| d.tasks@[i]@),
        task_ids: Seq::new(d.task_ids@.len(), |i: int| d.task_ids@[i]@),
        children: match d.children {
            Some(children) => Some(
                Seq::new(
                    children@.len(),
                    |i: int|
                        if 0 <= i < children@.len() {
                            definition_view(children@[i])
                        } else {
                            definition_view_of_nothing()
                        },
                ),
            ),
            None => None,
        },
        autostart: match d.options {
            Some(options) => Some(options.autostart),
            None => None,
        },
    }
}

/// The definition that holds nothing.
pub open spec fn definition_view_of_nothing() -> DefinitionView {
    DefinitionView {
        version: Seq::empty(),
        id: Seq::empty(),
        start_event: 0,
        parent: None,
        flows: Seq::empty(),
        flow_ids: Seq::empty(),
        tasks: Seq::empty(),
        task_ids: Seq::empty(),
        children: None,
        autostart: None,
    }
}

impl View for WorkflowDefinition {
    type V = DefinitionView;

    open spec fn view(&self) -> DefinitionView {
        definition_view(*self)
    }
}

/// What a definition without parent and children is.
pub proof fn lemma_flat_view(d: WorkflowDefinition)
    requires
        d.parent is None,
        d.children is None,
    ensures
        d@ == (DefinitionView {
            version: d.version@,
            id: d.id@,
            start_event: d.start_event,
            parent: None,
            flows: Seq::new(d.flows@.len(), |i: int| d.flows@[i]@),
            flow_ids: Seq::new(d.flow_ids@.len(), |i: int| d.flow_ids@[i]@),
            tasks: Seq::new(d.tasks@.len(), |i: int| d.tasks@[i]@),
            task_ids: Seq::new(d.task_ids@.len(), |i: int| d.task_ids@[i]@),
            children: None,
            autostart: match d.options {
                Some(options) => Some(options.autostart),
                None => None,
            },
        }),
        (d@.parent is None) && (d@.children is None),
{
    reveal_with_fuel(definition_view, 2);
    assert(d@.flows =~= Seq::new(d.flows@.len(), |i: int| d.flows@[i]@));
    assert(d@.flow_ids =~= Seq::new(d.flow_ids@.len(), |i: int| d.flow_ids@[i]@));
    assert(d@.tasks =~= Seq::new(d.tasks@.len(), |i: int| d.tasks@[i]@));
    assert(d@.task_ids =~= Seq::new(d.task_ids@.len(), |i: int| d.task_ids@[i]@));
}

/// A definition has a parent, or children, exactly where what it is has.
pub proof fn lemma_view_shape(d: WorkflowDefinition)
    ensures
        (d@.parent is None) == (d.parent is None),
        (d@.children is None) == (d.children is None),
{
    reveal_with_fuel(definition_view, 2);
}

impl Task {
    pub open spec fn user_task(&self) -> bool {
        self.def is UserTask
    }

    #[verifier::when_used_as_spec(user_task)]
    pub fn is_user_task(&self) -> (r: bool)
        ensures
            r == self.user_task(),
    {
        match &self.def {
            TaskDef::UserTask(_) => true,
            _ => false,
        }
    }
}

impl TaskDef {
    /// The flows that leave a task of this kind; an end event has none.
    pub open spec fn outgoing(&self) -> Seq<i32> {
        match self {
            TaskDef::StartEvent(ev) => ev.outgoing@,
            TaskDef::EndEvent(_) => Seq::empty(),
            TaskDef::UserTask(ev) => ev.outgoing@,
            TaskDef::ExclusiveGateway(ev) => ev.outgoing@,
        }
    }

    /// The flows that enter a task of this kind; a start event has none.
    pub open spec fn incoming(&self) -> Seq<i32> {
        match self {
            TaskDef::StartEvent(_) => Seq::empty(),
            TaskDef::EndEvent(ev) => ev.incoming@,
            TaskDef::UserTask(ev) => ev.incoming@,
            TaskDef::ExclusiveGateway(ev) => ev.incoming@,
        }
    }
}

impl WorkflowDefinition {
    /// The task that an index names, if it names one.
    pub open spec fn task_at(&self, idx: i32) -> Option<Task> {
        if 0 <= idx < self.tasks@.len() {
            Some(self.tasks@[idx as int])
        } else {
            None
        }
    }

    /// The flow that an index names, if it names one.
    pub open spec fn flow_at(&self, idx: i32) -> Option<Flow> {
        if 0 <= idx < self.flows@.len() {
            Some(self.flows@[idx as int])
        } else {
            None
        }
    }

    /// The index names a user task.
    pub open spec fn names_user_task(&self, idx: i32) -> bool {
        self.task_at(idx) matches Some(task) && task.user_task()
    }

    /// Every index in `refs` names a flow.
    pub open spec fn flows_named(&self, refs: Seq<i32>) -> bool {
        forall|k: int| 0 <= k < refs.len() ==> 0 <= #[trigger] refs[k] < self.flows@.len()
    }

    /// The definition is a graph: tasks and flows carry their own index as
    /// identifier, every reference stays inside the tables, each table has
    /// one stable identifier per item, and `start_event` names a start event.
    pub open spec fn well_formed(&self) -> bool {
        &&& self.tasks@.len() <= i32::MAX
        &&& self.flows@.len() <= i32::MAX
        &&& self.task_ids@.len() == self.tasks@.len()
        &&& self.flow_ids@.len() == self.flows@.len()
        &&& forall|i: int|
            0 <= i < self.tasks@.len() ==> {
                let task = #[trigger] self.tasks@[i];
                &&& task.id == i
                &&& self.flows_named(task.def.outgoing())
                &&& self.flows_named(task.def.incoming())
                &&& (task.def matches TaskDef::ExclusiveGateway(gw) ==> gw.default == -1 || 0
                    <= gw.default < self.flows@.len())
            }
        &&& forall|i: int|
            0 <= i < self.flows@.len() ==> {
                let flow = #[trigger] self.flows@[i];
                &&& flow.id == i
                &&& 0 <= flow.source_ref < self.tasks@.len()
                &&& 0 <= flow.target_ref < self.tasks@.len()
            }
        &&& self.task_at(self.start_event) matches Some(task) && task.def is StartEvent
    }

    /// Every start event and every user task has at most one flow leaving
    /// it, so that the interpreter never has more than one item queued.
    pub open spec fn single_exit(&self) -> bool {
        forall|i: int|
            0 <= i < self.tasks@.len() ==> {
                let def = (#[trigger] self.tasks@[i]).def;
                (def is StartEvent || def is UserTask) ==> def.outgoing().len() <= 1
            }
    }

    /// The flows that a task may queue: those that leave it and, for a
    /// gateway, its default flow.
    pub open spec fn queues(&self, task: int, flow: i32) -> bool {
        &&& 0 <= task < self.tasks@.len()
        &&& (self.tasks@[task].def.outgoing().contains(flow) || (self.tasks@[task].def matches TaskDef::ExclusiveGateway(
            gw,
        ) && gw.default == flow))
    }

    /// The definition has the common shape: start events and user tasks have
    /// at most one flow leaving them, a user task carries its own index and
    /// has a flow leaving it, and every flow that a task queues exists only
    /// with that task as its source.
    pub open spec fn orderly(&self) -> bool {
        &&& self.single_exit()
        &&& forall|i: int|
            0 <= i < self.tasks@.len() ==> ((#[trigger] self.tasks@[i]).def matches TaskDef::UserTask(
                ev,
            ) ==> self.tasks@[i].id == i && ev.outgoing@.len() == 1 && self.flow_at(
                ev.outgoing@[0],
            ) is Some)
        &&& forall|i: int, flow: i32| #[trigger]
            self.queues(i, flow) ==> (self.flow_at(flow) matches Some(f) ==> f.source_ref == i)
    }

    /// The start event of the outermost definition.
    pub open spec fn root_start(&self) -> i32
        decreases self,
    {
        match self.parent {
            Some(parent) => parent.root_start(),
            None => self.start_event,
        }
    }

    #[verifier::when_used_as_spec(root_start)]
    pub fn root_start_event(&self) -> (r: i32)
        ensures
            r == self.root_start(),
        decreases self,
    {
        match &self.parent {
            Some(parent) => parent.root_start_event(),
            None => self.start_event,
        }
    }

    /// The key under which an entity of this definition is stored.
    pub open spec fn formatted_id(&self, id: Seq<char>) -> Seq<char> {
        self.id@ + "_"@ + id
    }

    pub fn format_id(&self, id: &str) -> (r: String)
        ensures
            r@ == self.formatted_id(id@),
    {
        String::from_str(self.id.as_str()).concat("_").concat(id)
    }

    /// The indices below `n` that name user tasks, in rising order.
    pub open spec fn user_tasks_below(&self, n: int) -> Seq<i32>
        decreases n,
    {
        if n <= 0 {
            Seq::empty()
        } else if n - 1 <= i32::MAX && self.names_user_task((n - 1) as i32) {
            self.user_tasks_below(n - 1).push((n - 1) as i32)
        } else {
            self.user_tasks_below(n - 1)
        }
    }

    /// The indices of all user tasks, in rising order.
    pub fn user_tasks(&self) -> (r: Vec<i32>)
        ensures
            r@ == self.user_tasks_below(self.tasks@.len() as int),
    {
        let mut out: Vec<i32> = Vec::new();
        let mut idx: usize = 0;
        while idx < self.tasks.len() && idx <= 0x7fff_ffff
            invariant
                idx <= self.tasks@.len(),
                idx <= 0x8000_0000,
                out@ == self.user_tasks_below(idx as int),
            decreases self.tasks@.len() - idx,
        {
            if self.tasks[idx].is_user_task() {
                out.push(idx as i32);
            }
            idx += 1;
        }
        proof {
            self.lemma_user_tasks_stop(idx as int, self.tasks@.len() as int);
        }
        out
    }

    /// No index above `i32::MAX` names a task, so none adds a user task.
    proof fn lemma_user_tasks_stop(&self, from: int, to: int)
        requires
            from <= to,
            from == to || from == 0x8000_0000,
        ensures
            self.user_tasks_below(to) == self.user_tasks_below(from),
        decreases to - from,
    {
        if from < to {
            self.lemma_user_tasks_stop(from, to - 1);
        }
    }

    /// The task that an index names.
    pub fn task(&self, idx: i32) -> (r: Option<&Task>)
        ensures
            match r {
                Some(task) => self.task_at(idx) == Some(*task),
                None => self.task_at(idx) is None,
            },
    {
        if idx >= 0 && (idx as usize) < self.tasks.len() {
            Some(&self.tasks[idx as usize])
        } else {
            None
        }
    }

    /// The flow that an index names.
    pub fn flow(&self, idx: i32) -> (r: Option<&Flow>)
        ensures
            match r {
                Some(flow) => self.flow_at(idx) == Some(*flow),
                None => self.flow_at(idx) is None,
            },
    {
        if idx >= 0 && (idx as usize) < self.flows.len() {
            Some(&self.flows[idx as usize])
        } else {
            None
        }
    }

    /// Whether an index names a user task.
    pub fn is_usertask(&self, idx: i32) -> (r: bool)
        ensures
            r == self.names_user_task(idx),
    {
        match self.task(idx) {
            Some(task) => task.is_user_task(),
            None => false,
        }
    }
}

} // verus!
