//! Building a definition from the elements of a process.
//!
//! The elements come as they were read, named by their identifiers.  The
//! builder orders tasks and flows by identifier, numbers them, and turns
//! every reference by name into a reference by number.

use vstd::prelude::*;
use crate::model::ConditionExpression;
use crate::model::EndEventDef;
use crate::model::ExclusiveGatewayDef;
use crate::model::Flow;
use crate::model::StartEventDef;
use crate::model::Task;
use crate::model::TaskDef;
use crate::model::UserTaskDef;
use crate::model::WorkflowDefinition;
use crate::model::WorkflowProperties;
use crate::text::lemma_text_order;
use crate::text::str_equal;
use crate::text::str_less;
use crate::text::text_below;

verus! {

/// A reference to a flow by its identifier.
#[derive(Debug)]
pub struct Connection {
    pub id: String,
}

#[derive(Debug)]
pub struct StartEvent {
    pub id: String,
    pub outgoing: Vec<Connection>,
}

#[derive(Debug)]
pub struct EndEvent {
    pub id: String,
    pub incoming: Vec<Connection>,
}

#[derive(Debug)]
pub struct UserTask {
    pub id: String,
    pub incoming: Vec<Connection>,
    pub outgoing: Vec<Connection>,
}

#[derive(Debug)]
pub struct ExclusiveGateway {
    pub id: String,
    pub default: Option<String>,
    pub incoming: Vec<Connection>,
    pub outgoing: Vec<Connection>,
}

#[derive(Debug)]
pub struct SequenceFlow {
    pub id: String,
    pub source_ref: String,
    pub target_ref: String,
    pub condition_expression: Option<ConditionExpression>,
}

#[derive(Debug)]
pub struct TextAnnotation {
    pub id: String,
}

#[derive(Debug)]
pub struct Association {
    pub id: String,
}

/// An element of a process.
#[derive(Debug)]
pub enum BpmnEvent {
    StartEvent(StartEvent),
    EndEvent(EndEvent),
    UserTask(UserTask),
    ExclusiveGateway(ExclusiveGateway),
    SequenceFlow(SequenceFlow),
    TextAnnotation(TextAnnotation),
    Association(Association),
}

/// A process as it was read: its name and version, its elements in the
/// order in which they were met, and its properties.
#[derive(Debug)]
pub struct ProcessDefinition {
    pub id: String,
    pub version: String,
    pub events: Vec<BpmnEvent>,
    pub options: Option<WorkflowProperties>,
}

/// Elements under their identifiers.
pub type Named = Seq<(String, BpmnEvent)>;

/// The tasks and flows of a process, each list ordered by identifier and
/// holding every identifier once.
#[derive(Debug)]
pub struct WorkflowDefinitionBuilder {
    id: String,
    version: String,
    tasks: Vec<(String, BpmnEvent)>,
    flows: Vec<(String, BpmnEvent)>,
    options: Option<WorkflowProperties>,
}

impl BpmnEvent {
    /// The identifier of the element.
    pub open spec fn name(&self) -> Seq<char> {
        match self {
            BpmnEvent::StartEvent(e) => e.id@,
            BpmnEvent::EndEvent(e) => e.id@,
            BpmnEvent::UserTask(e) => e.id@,
            BpmnEvent::ExclusiveGateway(e) => e.id@,
            BpmnEvent::SequenceFlow(e) => e.id@,
            BpmnEvent::TextAnnotation(e) => e.id@,
            BpmnEvent::Association(e) => e.id@,
        }
    }

    /// The element is a task: a start event, an end event, a user task or a
    /// gateway.
    pub open spec fn is_task(&self) -> bool {
        self is StartEvent || self is EndEvent || self is UserTask || self is ExclusiveGateway
    }

    pub fn id(&self) -> (r: String)
        ensures
            r@ == self.name(),
    {
        match self {
            BpmnEvent::StartEvent(e) => e.id.clone(),
            BpmnEvent::EndEvent(e) => e.id.clone(),
            BpmnEvent::UserTask(e) => e.id.clone(),
            BpmnEvent::ExclusiveGateway(e) => e.id.clone(),
            BpmnEvent::SequenceFlow(e) => e.id.clone(),
            BpmnEvent::TextAnnotation(e) => e.id.clone(),
            BpmnEvent::Association(e) => e.id.clone(),
        }
    }
}

/// The identifiers rise from each entry to the next.
pub open spec fn keys_rise(list: Named) -> bool {
    forall|i: int, j: int|
        0 <= i < j < list.len() ==> text_below((#[trigger] list[i]).0@, (#[trigger] list[j]).0@)
}

/// Some entry stands under `id`.
pub open spec fn holds_id(list: Named, id: Seq<char>) -> bool {
    exists|j: int| 0 <= j < list.len() && (#[trigger] list[j]).0@ == id
}

/// The place of the first entry under `id`.
pub open spec fn place_of_id(list: Named, id: Seq<char>) -> int {
    choose|j: int|
        0 <= j < list.len() && (#[trigger] list[j]).0@ == id && forall|k: int|
            0 <= k < j ==> (#[trigger] list[k]).0@ != id
}

/// The list as a map from identifiers to elements.
pub open spec fn as_map(list: Named) -> Map<Seq<char>, BpmnEvent> {
    Map::new(|id: Seq<char>| holds_id(list, id), |id: Seq<char>| list[place_of_id(list, id)].1)
}

/// The number that stands for `id`: the place of the first entry under it,
/// and `-1` where there is none.
pub open spec fn index_of(id: Seq<char>, list: Named) -> i32 {
    if holds_id(list, id) {
        place_of_id(list, id) as i32
    } else {
        -1i32
    }
}

/// The numbers that stand for the identifiers of `connections`.
pub open spec fn indices_of(connections: Seq<Connection>, list: Named) -> Seq<i32> {
    Seq::new(connections.len(), |k: int| index_of(connections[k].id@, list))
}

/// The elements among the first `n` of `events` that are kept, as a map:
/// the flows where `flows` is set and the tasks where it is not, each under
/// its identifier, a later element replacing an earlier one of the same
/// identifier.
pub open spec fn collected(events: Seq<BpmnEvent>, n: nat, flows: bool) -> Map<
    Seq<char>,
    BpmnEvent,
>
    decreases n,
{
    if n == 0 || n > events.len() {
        Map::empty()
    } else {
        let before = collected(events, (n - 1) as nat, flows);
        let event = events[n - 1];
        if (flows && event is SequenceFlow) || (!flows && event.is_task()) {
            before.insert(event.name(), event)
        } else {
            before
        }
    }
}

/// An entry found at a place, with no entry of its identifier before it, is
/// where the identifier is looked up.
pub proof fn lemma_place_of_id(list: Named, id: Seq<char>, j: int)
    requires
        0 <= j < list.len(),
        list[j].0@ == id,
        forall|k: int| 0 <= k < j ==> (#[trigger] list[k]).0@ != id,
    ensures
        holds_id(list, id),
        place_of_id(list, id) == j,
{
    let c = place_of_id(list, id);
    if c < j {
        assert(list[c].0@ != id);
    }
    if j < c {
        assert(list[j].0@ != id);
    }
}

/// In a list whose identifiers rise every identifier stands once, so that
/// each entry is found under its identifier.
pub proof fn lemma_rising_place(list: Named, j: int)
    requires
        keys_rise(list),
        0 <= j < list.len(),
    ensures
        holds_id(list, list[j].0@),
        place_of_id(list, list[j].0@) == j,
        as_map(list)[list[j].0@] == list[j].1,
{
    assert forall|k: int| 0 <= k < j implies (#[trigger] list[k]).0@ != list[j].0@ by {
        lemma_text_order(list[k].0@, list[j].0@, list[j].0@);
    }
    lemma_place_of_id(list, list[j].0@, j);
}

/// The number that stands for `id` in `list`.
pub fn find_index(id: &str, list: &Vec<(String, BpmnEvent)>) -> (r: i32)
    requires
        list@.len() <= i32::MAX,
    ensures
        r == index_of(id@, list@),
        -1 <= r < list@.len(),
{
    let mut i: usize = 0;
    while i < list.len()
        invariant
            i <= list@.len() <= i32::MAX,
            forall|k: int| 0 <= k < i ==> (#[trigger] list@[k]).0@ != id@,
        decreases list@.len() - i,
    {
        if str_equal(list[i].0.as_str(), id) {
            proof {
                lemma_place_of_id(list@, id@, i as int);
            }
            return i as i32;
        }
        i += 1;
    }
    -1
}

/// The numbers that stand for the identifiers of `connections` in `list`.
pub fn find_connections(connections: &Vec<Connection>, list: &Vec<(String, BpmnEvent)>) -> (r: Vec<
    i32,
>)
    requires
        list@.len() <= i32::MAX,
    ensures
        r@ == indices_of(connections@, list@),
{
    let mut out: Vec<i32> = Vec::new();
    let mut k: usize = 0;
    while k < connections.len()
        invariant
            k <= connections@.len(),
            list@.len() <= i32::MAX,
            out@ == indices_of(connections@, list@).take(k as int),
        decreases connections@.len() - k,
    {
        out.push(find_index(connections[k].id.as_str(), list));
        assert(out@ =~= indices_of(connections@, list@).take(k + 1));
        k += 1;
    }
    assert(indices_of(connections@, list@).take(k as int) =~= indices_of(connections@, list@));
    out
}

/// The same elements, last first.
pub fn reversed<T>(list: Vec<T>) -> (r: Vec<T>)
    ensures
        r@ == list@.reverse(),
{
    let mut rest = list;
    let mut out: Vec<T> = Vec::new();
    while rest.len() > 0
        invariant
            rest@.len() <= list@.len(),
            out@.len() + rest@.len() == list@.len(),
            rest@ == list@.take(rest@.len() as int),
            forall|k: int| 0 <= k < out@.len() ==> out@[k] == list@[list@.len() - 1 - k],
        decreases rest@.len(),
    {
        let ghost n = rest@.len();
        let item = rest.pop().unwrap();
        out.push(item);
        assert(rest@ =~= list@.take(n - 1));
    }
    assert(out@ =~= list@.reverse());
    out
}

/// Puts an element into a list whose identifiers rise: in place of the
/// element of the same identifier, or where its identifier belongs.
fn put(list: &mut Vec<(String, BpmnEvent)>, event: BpmnEvent)
    requires
        keys_rise(old(list)@),
        forall|j: int| 0 <= j < old(list)@.len() ==> (#[trigger] old(list)@[j]).1.name() == old(
            list,
        )@[j].0@,
    ensures
        keys_rise(final(list)@),
        forall|j: int| 0 <= j < final(list)@.len() ==> (#[trigger] final(list)@[j]).1.name()
            == final(list)@[j].0@,
        as_map(final(list)@) == as_map(old(list)@).insert(event.name(), event),
        forall|j: int| 0 <= j < final(list)@.len() ==> (#[trigger] final(list)@[j]).1 == event || (
        exists|k: int| 0 <= k < old(list)@.len() && old(list)@[k] == final(list)@[j]),
{
    let id = event.id();
    let ghost before = list@;
    let ghost key = id@;
    let mut i: usize = 0;
    while i < list.len() && str_less(list[i].0.as_str(), id.as_str())
        invariant
            list@ == before,
            key == id@,
            i <= list@.len(),
            forall|k: int| 0 <= k < i ==> text_below((#[trigger] list@[k]).0@, key),
        decreases list@.len() - i,
    {
        i += 1;
    }
    let found = i < list.len() && str_equal(list[i].0.as_str(), id.as_str());
    if found {
        list.set(i, (id, event));
    } else {
        list.insert(i, (id, event));
    }
    proof {
        let after = list@;
        let at = i as int;
        // The entries before `at` come before the new one, those after it behind it.
        assert forall|k: int| at < k < after.len() implies text_below(
            key,
            (#[trigger] after[k]).0@,
        ) by {
            let old_k = if found { k } else { k - 1 };
            assert(after[k] == before[old_k]);
            lemma_text_order(before[at].0@, key, before[old_k].0@);
            lemma_text_order(key, before[at].0@, before[old_k].0@);
            if old_k > at {
                assert(text_below(before[at].0@, before[old_k].0@));
            }
        }
        assert forall|k: int| 0 <= k < at implies text_below((#[trigger] after[k]).0@, key) by {
            assert(after[k] == before[k]);
        }
        assert forall|a: int, b: int| 0 <= a < b < after.len() implies text_below(
            (#[trigger] after[a]).0@,
            (#[trigger] after[b]).0@,
        ) by {
            if a != at && b != at {
                let old_a = if found || a < at { a } else { a - 1 };
                let old_b = if found || b < at { b } else { b - 1 };
                assert(after[a] == before[old_a]);
                assert(after[b] == before[old_b]);
                assert(text_below(before[old_a].0@, before[old_b].0@));
            }
        }
        assert forall|j: int| 0 <= j < after.len() implies (#[trigger] after[j]).1.name()
            == after[j].0@ by {
            if j != at {
                let old_j = if found || j < at { j } else { j - 1 };
                assert(after[j] == before[old_j]);
            }
        }
        assert forall|j: int| 0 <= j < after.len() implies (#[trigger] after[j]).1 == event || (
        exists|k: int| 0 <= k < before.len() && before[k] == after[j]) by {
            if j != at {
                let old_j = if found || j < at { j } else { j - 1 };
                assert(before[old_j] == after[j]);
            }
        }
        let want = as_map(before).insert(key, event);
        assert forall|name: Seq<char>| holds_id(after, name) == want.dom().contains(name) by {
            if holds_id(after, name) {
                let j = choose|j: int| 0 <= j < after.len() && (#[trigger] after[j]).0@ == name;
                if j != at {
                    let old_j = if found || j < at { j } else { j - 1 };
                    assert(before[old_j].0@ == name);
                }
            }
            if name == key {
                assert(after[at].0@ == name);
            } else if holds_id(before, name) {
                let k = choose|k: int| 0 <= k < before.len() && (#[trigger] before[k]).0@ == name;
                if found {
                    assert(after[k].0@ == name);
                } else if k < at {
                    assert(after[k].0@ == name);
                } else {
                    assert(after[k + 1].0@ == name);
                }
            }
        }
        assert forall|name: Seq<char>| holds_id(after, name) implies #[trigger] as_map(after)[name]
            == want[name] by {
            let j = choose|j: int| 0 <= j < after.len() && (#[trigger] after[j]).0@ == name;
            lemma_rising_place(after, j);
            if j != at {
                let old_j = if found || j < at { j } else { j - 1 };
                assert(after[j] == before[old_j]);
                lemma_rising_place(before, old_j);
                lemma_text_order(name, key, key);
            }
        }
        assert(as_map(after) =~= want);
    }
}

/// An identifier that stands somewhere stands at a first place.
pub proof fn lemma_index_of_bounds(id: Seq<char>, list: Named)
    requires
        list.len() <= i32::MAX,
    ensures
        -1 <= index_of(id, list) < list.len(),
        index_of(id, list) >= 0 ==> list[index_of(id, list) as int].0@ == id,
{
    if holds_id(list, id) {
        let w = choose|j: int| 0 <= j < list.len() && (#[trigger] list[j]).0@ == id;
        lemma_first_from(list, id, w);
    }
}

proof fn lemma_first_from(list: Named, id: Seq<char>, w: int)
    requires
        0 <= w < list.len(),
        list[w].0@ == id,
    ensures
        0 <= place_of_id(list, id) < list.len(),
        list[place_of_id(list, id)].0@ == id,
    decreases w,
{
    if exists|k: int| 0 <= k < w && (#[trigger] list[k]).0@ == id {
        let k = choose|k: int| 0 <= k < w && (#[trigger] list[k]).0@ == id;
        lemma_first_from(list, id, k);
    } else {
        lemma_place_of_id(list, id, w);
    }
}

/// The number of the last start event among the first `n` tasks, and `-1`
/// where there is none.
pub open spec fn last_start(tasks: Named, n: nat) -> i32
    decreases n,
{
    if n == 0 || n > tasks.len() {
        -1i32
    } else if tasks[n - 1].1 is StartEvent {
        (n - 1) as i32
    } else {
        last_start(tasks, (n - 1) as nat)
    }
}

/// The default flow of a gateway: the flow it names, or else the first
/// flow that leaves it, or else none.
pub open spec fn default_of(gateway: ExclusiveGateway, flows: Named) -> i32 {
    match gateway.default {
        Some(name) => index_of(name@, flows),
        None => if gateway.outgoing@.len() > 0 {
            index_of(gateway.outgoing@[0].id@, flows)
        } else {
            -1i32
        },
    }
}

/// `task` is what the element `event` becomes as task number `i`.
pub open spec fn describes_task(event: BpmnEvent, flows: Named, task: Task, i: int) -> bool {
    &&& task.id == i
    &&& match event {
        BpmnEvent::StartEvent(e) => task.def matches TaskDef::StartEvent(d) && d.outgoing@
            == indices_of(e.outgoing@, flows),
        BpmnEvent::EndEvent(e) => task.def matches TaskDef::EndEvent(d) && d.incoming@
            == indices_of(e.incoming@, flows),
        BpmnEvent::UserTask(e) => task.def matches TaskDef::UserTask(d) && d.incoming@
            == indices_of(e.incoming@, flows) && d.outgoing@ == indices_of(e.outgoing@, flows),
        BpmnEvent::ExclusiveGateway(e) => task.def matches TaskDef::ExclusiveGateway(d)
            && d.incoming@ == indices_of(e.incoming@, flows) && d.outgoing@ == indices_of(
            e.outgoing@,
            flows,
        ) && d.default == default_of(e, flows),
        _ => false,
    }
}

/// `flow` is what the element `event` becomes as flow number `i`.
pub open spec fn describes_flow(event: BpmnEvent, tasks: Named, flow: Flow, i: int) -> bool {
    event matches BpmnEvent::SequenceFlow(f) && flow.id == i && flow.source_ref == index_of(
        f.source_ref@,
        tasks,
    ) && flow.target_ref == index_of(f.target_ref@, tasks) && flow.condition_expression
        == f.condition_expression
}

/// Every name in `connections` stands for something in `list`.
pub open spec fn all_found(connections: Seq<Connection>, list: Named) -> bool {
    forall|k: int| 0 <= k < connections.len() ==> index_of((#[trigger] connections[k]).id@, list) >= 0
}

/// Every reference of the element stands for something.
pub open spec fn refers_well(event: BpmnEvent, tasks: Named, flows: Named) -> bool {
    match event {
        BpmnEvent::StartEvent(e) => all_found(e.outgoing@, flows),
        BpmnEvent::EndEvent(e) => all_found(e.incoming@, flows),
        BpmnEvent::UserTask(e) => all_found(e.incoming@, flows) && all_found(e.outgoing@, flows),
        BpmnEvent::ExclusiveGateway(e) => all_found(e.incoming@, flows) && all_found(
            e.outgoing@,
            flows,
        ),
        BpmnEvent::SequenceFlow(f) => index_of(f.source_ref@, tasks) >= 0 && index_of(
            f.target_ref@,
            tasks,
        ) >= 0,
        _ => true,
    }
}

impl WorkflowDefinitionBuilder {
    /// The tasks, under their identifiers.
    pub closed spec fn tasks(&self) -> Named {
        self.tasks@
    }

    /// The flows, under their identifiers.
    pub closed spec fn flows(&self) -> Named {
        self.flows@
    }

    /// The name of the process.
    pub closed spec fn name(&self) -> Seq<char> {
        self.id@
    }

    /// The version of the process.
    pub closed spec fn version(&self) -> Seq<char> {
        self.version@
    }

    /// The properties of the process.
    pub closed spec fn options(&self) -> Option<WorkflowProperties> {
        self.options
    }

    /// Both lists are ordered by identifier; the one holds tasks and the
    /// other flows, each under its own identifier.
    pub open spec fn clean(&self) -> bool {
        &&& keys_rise(self.tasks())
        &&& keys_rise(self.flows())
        &&& forall|j: int|
            0 <= j < self.tasks().len() ==> (#[trigger] self.tasks()[j]).1.is_task()
                && self.tasks()[j].1.name() == self.tasks()[j].0@
        &&& forall|j: int|
            0 <= j < self.flows().len() ==> (#[trigger] self.flows()[j]).1 is SequenceFlow
                && self.flows()[j].1.name() == self.flows()[j].0@
    }

    /// There is a start event, and every reference stands for something.
    pub open spec fn resolved(&self) -> bool {
        &&& last_start(self.tasks(), self.tasks().len()) >= 0
        &&& forall|j: int|
            0 <= j < self.tasks().len() ==> refers_well(
                (#[trigger] self.tasks()[j]).1,
                self.tasks(),
                self.flows(),
            )
        &&& forall|j: int|
            0 <= j < self.flows().len() ==> refers_well(
                (#[trigger] self.flows()[j]).1,
                self.tasks(),
                self.flows(),
            )
    }

    /// Orders the elements of a process: its tasks by identifier and its
    /// flows by identifier.  Of elements with one identifier the last stays;
    /// annotations and associations are left out.
    pub fn new(process_definition: ProcessDefinition) -> (builder: WorkflowDefinitionBuilder)
        ensures
            builder.clean(),
            builder.name() == process_definition.id@,
            builder.version() == process_definition.version@,
            builder.options() == process_definition.options,
            as_map(builder.tasks()) == collected(
                process_definition.events@,
                process_definition.events@.len(),
                false,
            ),
            as_map(builder.flows()) == collected(
                process_definition.events@,
                process_definition.events@.len(),
                true,
            ),
    {
        let ghost events = process_definition.events@;
        let ProcessDefinition { id, version, events: list, options } = process_definition;
        let mut rest = reversed(list);
        let mut tasks: Vec<(String, BpmnEvent)> = Vec::new();
        let mut flows: Vec<(String, BpmnEvent)> = Vec::new();
        let ghost mut n: nat = 0;
        proof {
            assert(as_map(tasks@) =~= collected(events, 0, false));
            assert(as_map(flows@) =~= collected(events, 0, true));
        }
        while rest.len() > 0
            invariant
                n + rest@.len() == events.len(),
                rest@ == events.reverse().take(rest@.len() as int),
                keys_rise(tasks@),
                keys_rise(flows@),
                forall|j: int|
                    0 <= j < tasks@.len() ==> (#[trigger] tasks@[j]).1.is_task()
                        && tasks@[j].1.name() == tasks@[j].0@,
                forall|j: int|
                    0 <= j < flows@.len() ==> (#[trigger] flows@[j]).1 is SequenceFlow
                        && flows@[j].1.name() == flows@[j].0@,
                as_map(tasks@) == collected(events, n, false),
                as_map(flows@) == collected(events, n, true),
            decreases rest@.len(),
        {
            let ghost left = rest@.len();
            let event = rest.pop().unwrap();
            proof {
                assert(event == events.reverse()[left - 1]);
                assert(event == events[n as int]);
                assert(rest@ =~= events.reverse().take(left - 1));
            }
            match event {
                BpmnEvent::SequenceFlow(f) => {
                    put(&mut flows, BpmnEvent::SequenceFlow(f));
                },
                BpmnEvent::TextAnnotation(_) => {},
                BpmnEvent::Association(_) => {},
                event => {
                    put(&mut tasks, event);
                },
            }
            proof {
                n = n + 1;
            }
        }
        WorkflowDefinitionBuilder { id, version, tasks, flows, options }
    }

    /// How many tasks there are.
    pub fn task_count(&self) -> (n: usize)
        ensures
            n == self.tasks().len(),
    {
        self.tasks.len()
    }

    /// How many flows there are.
    pub fn flow_count(&self) -> (n: usize)
        ensures
            n == self.flows().len(),
    {
        self.flows.len()
    }

    /// Builds the definition: tasks and flows are numbered in the order of
    /// their identifiers, and every reference by identifier becomes the
    /// number of what it names, or `-1` where it names nothing.  The start
    /// event is the last start event in that order.  Where there is a start
    /// event and every reference names something, the definition is well
    /// formed.
    pub fn build(self) -> (definition: WorkflowDefinition)
        requires
            self.clean(),
            self.tasks().len() <= i32::MAX,
            self.flows().len() <= i32::MAX,
        ensures
            definition.id@ == self.name(),
            definition.version@ == self.version(),
            definition.options == self.options(),
            definition.parent is None,
            definition.children is None,
            definition.start_event == last_start(self.tasks(), self.tasks().len()),
            definition.tasks@.len() == self.tasks().len(),
            definition.task_ids@.len() == self.tasks().len(),
            definition.flows@.len() == self.flows().len(),
            definition.flow_ids@.len() == self.flows().len(),
            forall|i: int|
                0 <= i < self.tasks().len() ==> (#[trigger] definition.task_ids@[i])@
                    == self.tasks()[i].0@,
            forall|i: int|
                0 <= i < self.tasks().len() ==> describes_task(
                    self.tasks()[i].1,
                    self.flows(),
                    #[trigger] definition.tasks@[i],
                    i,
                ),
            forall|i: int|
                0 <= i < self.flows().len() ==> (#[trigger] definition.flow_ids@[i])@
                    == self.flows()[i].0@,
            forall|i: int|
                0 <= i < self.flows().len() ==> describes_flow(
                    self.flows()[i].1,
                    self.tasks(),
                    #[trigger] definition.flows@[i],
                    i,
                ),
            self.resolved() ==> definition.well_formed(),
    {
        let ghost named_tasks = self.tasks@;
        let ghost named_flows = self.flows@;
        let WorkflowDefinitionBuilder { tasks, flows, id, version, options } = self;
        let mut start_event: i32 = -1;
        let mut result_tasks: Vec<Task> = Vec::new();
        let mut result_task_ids: Vec<String> = Vec::new();
        let mut i: usize = 0;
        while i < tasks.len()
            invariant
                tasks@ == named_tasks,
                flows@ == named_flows,
                named_tasks.len() <= i32::MAX,
                named_flows.len() <= i32::MAX,
                forall|j: int| 0 <= j < named_tasks.len() ==> (#[trigger] named_tasks[j]).1.is_task(),
                i <= tasks@.len(),
                start_event == last_start(named_tasks, i as nat),
                result_tasks@.len() == i,
                result_task_ids@.len() == i,
                forall|j: int| 0 <= j < i ==> (#[trigger] result_task_ids@[j])@ == named_tasks[j].0@,
                forall|j: int|
                    0 <= j < i ==> describes_task(
                        named_tasks[j].1,
                        named_flows,
                        #[trigger] result_tasks@[j],
                        j,
                    ),
            decreases tasks@.len() - i,
        {
            let id = i as i32;
            let def = match &tasks[i].1 {
                BpmnEvent::StartEvent(e) => {
                    start_event = id;
                    TaskDef::StartEvent(
                        StartEventDef { outgoing: find_connections(&e.outgoing, &flows) },
                    )
                },
                BpmnEvent::EndEvent(e) => TaskDef::EndEvent(
                    EndEventDef { incoming: find_connections(&e.incoming, &flows) },
                ),
                BpmnEvent::UserTask(e) => TaskDef::UserTask(
                    UserTaskDef {
                        incoming: find_connections(&e.incoming, &flows),
                        outgoing: find_connections(&e.outgoing, &flows),
                    },
                ),
                BpmnEvent::ExclusiveGateway(e) => {
                    let outgoing = find_connections(&e.outgoing, &flows);
                    let default = match &e.default {
                        Some(default_flow) => find_index(default_flow.as_str(), &flows),
                        None => if outgoing.len() > 0 {
                            outgoing[0]
                        } else {
                            -1
                        },
                    };
                    TaskDef::ExclusiveGateway(
                        ExclusiveGatewayDef {
                            incoming: find_connections(&e.incoming, &flows),
                            outgoing,
                            default,
                        },
                    )
                },
                _ => {
                    assert(named_tasks[i as int].1.is_task());
                    TaskDef::EndEvent(EndEventDef { incoming: Vec::new() })
                },
            };
            result_tasks.push(Task { id, def });
            result_task_ids.push(tasks[i].0.clone());
            i += 1;
        }
        let ghost total = flows@.len();
        let mut rest = reversed(flows);
        let mut result_flows: Vec<Flow> = Vec::new();
        let mut result_flow_ids: Vec<String> = Vec::new();
        while rest.len() > 0
            invariant
                tasks@ == named_tasks,
                named_tasks.len() <= i32::MAX,
                named_flows.len() <= i32::MAX,
                total == named_flows.len(),
                forall|j: int|
                    0 <= j < named_flows.len() ==> (#[trigger] named_flows[j]).1 is SequenceFlow,
                result_flows@.len() + rest@.len() == total,
                rest@ == named_flows.reverse().take(rest@.len() as int),
                result_flow_ids@.len() == result_flows@.len(),
                forall|j: int|
                    0 <= j < result_flows@.len() ==> (#[trigger] result_flow_ids@[j])@
                        == named_flows[j].0@,
                forall|j: int|
                    0 <= j < result_flows@.len() ==> describes_flow(
                        named_flows[j].1,
                        named_tasks,
                        #[trigger] result_flows@[j],
                        j,
                    ),
            decreases rest@.len(),
        {
            let ghost left = rest@.len();
            let ghost n = result_flows@.len() as int;
            let (fid, event) = rest.pop().unwrap();
            proof {
                assert((fid, event) == named_flows.reverse()[left - 1]);
                assert((fid, event) == named_flows[n]);
                assert(rest@ =~= named_flows.reverse().take(left - 1));
            }
            let id = result_flows.len() as i32;
            match event {
                BpmnEvent::SequenceFlow(f) => {
                    let source_ref = find_index(f.source_ref.as_str(), &tasks);
                    let target_ref = find_index(f.target_ref.as_str(), &tasks);
                    result_flows.push(
                        Flow {
                            id,
                            source_ref,
                            target_ref,
                            condition_expression: f.condition_expression,
                        },
                    );
                    result_flow_ids.push(fid);
                },
                _ => {
                    assert(named_flows[n].1 is SequenceFlow);
                    result_flows.push(
                        Flow { id, source_ref: -1, target_ref: -1, condition_expression: None },
                    );
                    result_flow_ids.push(fid);
                },
            }
        }
        let definition = WorkflowDefinition {
            id,
            start_event,
            version,
            flows: result_flows,
            flow_ids: result_flow_ids,
            tasks: result_tasks,
            task_ids: result_task_ids,
            parent: None,
            children: None,
            options,
        };
        proof {
            if self.resolved() {
                lemma_built_well_formed(named_tasks, named_flows, definition);
            }
        }
        definition
    }
}

/// The start event found is the number of a start event.
pub proof fn lemma_last_start(tasks: Named, n: nat)
    requires
        n <= tasks.len() <= i32::MAX,
    ensures
        -1 <= last_start(tasks, n) < n,
        last_start(tasks, n) >= 0 ==> tasks[last_start(tasks, n) as int].1 is StartEvent,
    decreases n,
{
    if n > 0 && !(tasks[n - 1].1 is StartEvent) {
        lemma_last_start(tasks, (n - 1) as nat);
    }
}

/// A definition that describes tasks and flows whose references all name
/// something, and that starts at a start event, is well formed.
pub proof fn lemma_built_well_formed(tasks: Named, flows: Named, definition: WorkflowDefinition)
    requires
        tasks.len() <= i32::MAX,
        flows.len() <= i32::MAX,
        definition.tasks@.len() == tasks.len(),
        definition.task_ids@.len() == tasks.len(),
        definition.flows@.len() == flows.len(),
        definition.flow_ids@.len() == flows.len(),
        definition.start_event == last_start(tasks, tasks.len()),
        last_start(tasks, tasks.len()) >= 0,
        forall|i: int|
            0 <= i < tasks.len() ==> describes_task(
                tasks[i].1,
                flows,
                #[trigger] definition.tasks@[i],
                i,
            ),
        forall|i: int|
            0 <= i < flows.len() ==> describes_flow(
                flows[i].1,
                tasks,
                #[trigger] definition.flows@[i],
                i,
            ),
        forall|j: int| 0 <= j < tasks.len() ==> refers_well((#[trigger] tasks[j]).1, tasks, flows),
        forall|j: int| 0 <= j < flows.len() ==> refers_well((#[trigger] flows[j]).1, tasks, flows),
    ensures
        definition.well_formed(),
{
    lemma_last_start(tasks, tasks.len());
    assert forall|i: int| 0 <= i < definition.tasks@.len() implies {
        let task = #[trigger] definition.tasks@[i];
        &&& task.id == i
        &&& definition.flows_named(task.def.outgoing())
        &&& definition.flows_named(task.def.incoming())
        &&& (task.def matches TaskDef::ExclusiveGateway(gw) ==> gw.default == -1 || 0
            <= gw.default < definition.flows@.len())
    } by {
        let task = definition.tasks@[i];
        assert(describes_task(tasks[i].1, flows, task, i));
        assert(refers_well(tasks[i].1, tasks, flows));
        lemma_found_are_named(tasks[i].1, flows, task, definition);
        if let BpmnEvent::ExclusiveGateway(e) = tasks[i].1 {
            match e.default {
                Some(name) => lemma_index_of_bounds(name@, flows),
                None => if e.outgoing@.len() > 0 {
                    lemma_index_of_bounds(e.outgoing@[0].id@, flows);
                },
            }
        }
    }
    assert forall|i: int| 0 <= i < definition.flows@.len() implies {
        let flow = #[trigger] definition.flows@[i];
        &&& flow.id == i
        &&& 0 <= flow.source_ref < definition.tasks@.len()
        &&& 0 <= flow.target_ref < definition.tasks@.len()
    } by {
        let flow = definition.flows@[i];
        assert(describes_flow(flows[i].1, tasks, flow, i));
        assert(refers_well(flows[i].1, tasks, flows));
        let f = flows[i].1->SequenceFlow_0;
        lemma_index_of_bounds(f.source_ref@, tasks);
        lemma_index_of_bounds(f.target_ref@, tasks);
    }
    let start = definition.start_event;
    assert(describes_task(tasks[start as int].1, flows, definition.tasks@[start as int], start as int));
}

/// The flows of a task whose references all name something are all named.
proof fn lemma_found_are_named(
    event: BpmnEvent,
    flows: Named,
    task: Task,
    definition: WorkflowDefinition,
)
    requires
        flows.len() <= i32::MAX,
        definition.flows@.len() == flows.len(),
        describes_task(event, flows, task, task.id as int),
        event.is_task(),
        refers_well(event, Seq::empty(), flows),
    ensures
        definition.flows_named(task.def.outgoing()),
        definition.flows_named(task.def.incoming()),
{
    let out = task.def.outgoing();
    let inc = task.def.incoming();
    assert forall|k: int| 0 <= k < out.len() implies 0 <= #[trigger] out[k] < definition.flows@.len() by {
        match event {
            BpmnEvent::StartEvent(e) => {
                lemma_index_of_bounds(e.outgoing@[k].id@, flows);
            },
            BpmnEvent::UserTask(e) => {
                lemma_index_of_bounds(e.outgoing@[k].id@, flows);
            },
            BpmnEvent::ExclusiveGateway(e) => {
                lemma_index_of_bounds(e.outgoing@[k].id@, flows);
            },
            _ => {},
        }
    }
    assert forall|k: int| 0 <= k < inc.len() implies 0 <= #[trigger] inc[k] < definition.flows@.len() by {
        match event {
            BpmnEvent::EndEvent(e) => {
                lemma_index_of_bounds(e.incoming@[k].id@, flows);
            },
            BpmnEvent::UserTask(e) => {
                lemma_index_of_bounds(e.incoming@[k].id@, flows);
            },
            BpmnEvent::ExclusiveGateway(e) => {
                lemma_index_of_bounds(e.incoming@[k].id@, flows);
            },
            _ => {},
        }
    }
}

} // verus!
