use std::sync::Arc;
use wfrs::engine::Runtime;
use wfrs::engine::STEP_LIMIT;
use wfrs::instance::WorkflowInstance;
use wfrs::jsep::BinaryExpression;
use wfrs::jsep::ConditionalExpression;
use wfrs::jsep::ExpressionIdentifier;
use wfrs::jsep::ExpressionLiteral;
use wfrs::jsep::JsepNode;
use wfrs::jsep::MemberExpression;
use wfrs::jsep::Operator;
use wfrs::json::JsonNumber;
use wfrs::json::JsonObject;
use wfrs::json::JsonValue;
use wfrs::model::ConditionExpression;
use wfrs::model::EndEventDef;
use wfrs::model::ExclusiveGatewayDef;
use wfrs::model::Flow;
use wfrs::model::StartEventDef;
use wfrs::model::Task;
use wfrs::model::TaskDef;
use wfrs::model::UserTaskDef;
use wfrs::model::WorkflowDefinition;
use wfrs::model::WorkflowProperties;
use wfrs::state::holds;
use wfrs::state::position_of;
use wfrs::state::State;
use wfrs::state::WorkflowState;
use wfrs::validator::Binary;
use wfrs::validator::Condition;
use wfrs::validator::ExclusiveGateway;
use wfrs::validator::Member;
use wfrs::validator::Value;

fn start(outgoing: Vec<i32>) -> TaskDef {
    TaskDef::StartEvent(StartEventDef { outgoing })
}

fn end(incoming: Vec<i32>) -> TaskDef {
    TaskDef::EndEvent(EndEventDef { incoming })
}

fn user(incoming: Vec<i32>, outgoing: Vec<i32>) -> TaskDef {
    TaskDef::UserTask(UserTaskDef { incoming, outgoing })
}

fn gateway(incoming: Vec<i32>, outgoing: Vec<i32>, default: i32) -> TaskDef {
    TaskDef::ExclusiveGateway(ExclusiveGatewayDef { incoming, outgoing, default })
}

fn definition(
    defs: Vec<(&str, TaskDef)>,
    links: Vec<(i32, i32, Option<ConditionExpression>)>,
) -> WorkflowDefinition {
    let mut tasks = Vec::new();
    let mut task_ids = Vec::new();
    for (i, (name, def)) in defs.into_iter().enumerate() {
        tasks.push(Task { id: i as i32, def });
        task_ids.push(name.to_string());
    }
    let mut flows = Vec::new();
    let mut flow_ids = Vec::new();
    for (i, (source_ref, target_ref, condition_expression)) in links.into_iter().enumerate() {
        flows.push(Flow { id: i as i32, source_ref, target_ref, condition_expression });
        flow_ids.push(format!("Flow_{}", i));
    }
    WorkflowDefinition {
        version: "3".to_string(),
        id: "process".to_string(),
        start_event: 0,
        parent: None,
        flows,
        flow_ids,
        tasks,
        task_ids,
        children: None,
        options: None,
    }
}

fn fresh(start_event: i32) -> State {
    State {
        active: -1,
        current_tasks: vec![start_event],
        current_flows: vec![],
        visited_tasks: vec![],
        visited_flows: vec![],
        pending_tasks: vec![],
        maybe_future_tasks: vec![],
        maybe_future_flows: vec![],
        maybe_visited_tasks: vec![],
        variables: JsonValue::map(),
        completed: false,
        remote_id: None,
        remote_version: None,
    }
}

fn identifier(name: &str) -> JsepNode {
    JsepNode::Identifier(ExpressionIdentifier { name: name.to_string() })
}

fn member(object: JsepNode, property: JsepNode) -> MemberExpression {
    MemberExpression {
        computed: false,
        optional: false,
        object: Box::new(object),
        property: Box::new(property),
    }
}

fn steps(task: &str, name: &str) -> JsepNode {
    JsepNode::MemberExpression(member(
        JsepNode::MemberExpression(member(identifier("$steps"), identifier(task))),
        identifier(name),
    ))
}

fn literal(value: JsonValue) -> JsepNode {
    JsepNode::Literal(ExpressionLiteral { value })
}

fn text(s: &str) -> JsonValue {
    JsonValue::String(s.to_string())
}

fn whole(n: u64) -> JsonValue {
    JsonValue::Number(JsonNumber::PosInt(n))
}

fn binary(operator: Operator, left: JsepNode, right: JsepNode) -> BinaryExpression {
    BinaryExpression { operator, left: Box::new(left), right: Box::new(right) }
}

fn condition(operator: Operator, left: JsepNode, right: JsepNode) -> ConditionExpression {
    ConditionExpression::Jsep(JsepNode::BinaryExpression(binary(operator, left, right)))
}

fn variables(task: &str, entries: Vec<(&str, JsonValue)>) -> JsonValue {
    let mut inner = JsonObject::new();
    for (k, v) in entries {
        inner.insert(k.to_string(), v);
    }
    let mut root = JsonObject::new();
    root.insert(task.to_string(), JsonValue::Object(inner));
    JsonValue::Object(root)
}

fn holds_under(operator: Operator, left: JsonValue, right: JsonValue) -> bool {
    let expr = binary(operator, literal(left), literal(right));
    Binary(&expr).validate(&JsonValue::map())
}

#[test]
fn members_are_looked_up_under_steps() {
    let vars = variables("UT0", vec![("choice", text("B")), ("count", whole(3))]);
    let found = steps("UT0", "choice");
    assert!(matches!(Value(&found).resolve(&vars), Some(JsonValue::String(s)) if s == "B"));
    let task = member(identifier("$steps"), identifier("UT0"));
    assert!(matches!(Member(&task).resolve(&vars), Some(JsonValue::Object(_))));

    // Every miss stands for null.
    assert!(Value(&steps("UT0", "absent")).resolve(&vars).is_none());
    assert!(Value(&steps("UT9", "choice")).resolve(&vars).is_none());
    assert!(Value(&steps("UT0", "choice")).resolve(&JsonValue::Null).is_none());
    let deeper = JsepNode::MemberExpression(member(steps("UT0", "choice"), identifier("x")));
    assert!(Value(&deeper).resolve(&vars).is_none());
    let other_root =
        JsepNode::MemberExpression(member(identifier("steps"), identifier("UT0")));
    assert!(Value(&other_root).resolve(&vars).is_none());
    let computed = JsepNode::MemberExpression(member(identifier("$steps"), literal(text("UT0"))));
    assert!(Value(&computed).resolve(&vars).is_none());
    assert!(Value(&identifier("$steps")).resolve(&vars).is_none());
    let lit = literal(whole(5));
    assert!(matches!(Value(&lit).resolve(&vars), Some(JsonValue::Number(JsonNumber::PosInt(5)))));
}

#[test]
fn operators_follow_their_table() {
    assert!(holds_under(Operator::Equal, whole(3), whole(3)));
    assert!(!holds_under(Operator::Equal, whole(3), text("3")));
    assert!(holds_under(Operator::Equal, JsonValue::Null, JsonValue::Null));
    assert!(holds_under(Operator::NotEqual, whole(3), text("3")));
    assert!(!holds_under(Operator::NotEqual, text("a"), text("a")));
    assert!(holds_under(Operator::Lower, whole(2), whole(3)));
    assert!(!holds_under(Operator::Lower, whole(3), whole(3)));
    assert!(holds_under(Operator::LowerOrEqual, whole(3), whole(3)));
    assert!(holds_under(Operator::Greater, whole(4), whole(3)));
    assert!(!holds_under(Operator::Greater, whole(3), whole(4)));
    assert!(holds_under(Operator::GreaterOrEqual, whole(3), whole(3)));
    assert!(!holds_under(Operator::GreaterOrEqual, whole(2), whole(3)));
    assert!(holds_under(Operator::Lower, text("a"), text("b")));
    assert!(holds_under(Operator::Greater, text("b"), text("a")));
    assert!(holds_under(Operator::GreaterOrEqual, text("b"), text("b")));
    assert!(holds_under(Operator::Lower, JsonValue::Bool(false), JsonValue::Bool(true)));
    assert!(holds_under(Operator::Greater, JsonValue::Bool(true), JsonValue::Bool(false)));
    assert!(!holds_under(Operator::Greater, JsonValue::Bool(true), JsonValue::Bool(true)));
    assert!(holds_under(Operator::LowerOrEqual, JsonValue::Bool(true), JsonValue::Bool(true)));
    assert!(holds_under(Operator::GreaterOrEqual, JsonValue::Bool(true), JsonValue::Bool(false)));
    // Orderings are defined within one kind only.
    assert!(!holds_under(Operator::Lower, whole(1), text("2")));
    assert!(!holds_under(Operator::LowerOrEqual, JsonValue::Null, JsonValue::Null));
    assert!(!holds_under(Operator::GreaterOrEqual, text("1"), whole(1)));
    assert!(!holds_under(Operator::Greater, JsonValue::Bool(true), whole(0)));
    assert!(holds_under(Operator::And, JsonValue::Bool(true), JsonValue::Bool(true)));
    assert!(!holds_under(Operator::And, JsonValue::Bool(true), JsonValue::Bool(false)));
    assert!(!holds_under(Operator::And, JsonValue::Bool(true), whole(1)));
    assert!(!holds_under(Operator::And, text("x"), JsonValue::Bool(true)));
    assert!(holds_under(Operator::Or, JsonValue::Bool(false), JsonValue::Bool(true)));
    assert!(holds_under(Operator::Or, JsonValue::Bool(true), JsonValue::Null));
    assert!(holds_under(Operator::Or, text("x"), JsonValue::Bool(true)));
    assert!(!holds_under(Operator::Or, JsonValue::Bool(false), JsonValue::Bool(false)));
    assert!(!holds_under(Operator::Or, whole(1), text("true")));
}

#[test]
fn conditions_need_a_binary_expression_at_the_root() {
    let vars = variables("UT0", vec![("choice", text("B"))]);
    let good = condition(Operator::Equal, steps("UT0", "choice"), literal(text("B")));
    assert!(Condition(&good).validate(&vars));
    assert!(!Condition(&good).validate(&JsonValue::map()));
    let bare_literal = ConditionExpression::Jsep(literal(JsonValue::Bool(true)));
    assert!(!Condition(&bare_literal).validate(&vars));
    let bare_member = ConditionExpression::Jsep(steps("UT0", "choice"));
    assert!(!Condition(&bare_member).validate(&vars));
    let conditional = ConditionExpression::Jsep(JsepNode::ConditionalExpression(
        ConditionalExpression {
            test: Box::new(literal(JsonValue::Bool(true))),
            consequent: Box::new(literal(JsonValue::Bool(true))),
            alternate: Box::new(literal(JsonValue::Bool(true))),
        },
    ));
    assert!(!Condition(&conditional).validate(&vars));
    // A nested binary expression is no operand: it stands for null.
    let nested = condition(
        Operator::Equal,
        JsepNode::BinaryExpression(binary(Operator::Equal, literal(whole(1)), literal(whole(1)))),
        literal(JsonValue::Null),
    );
    assert!(Condition(&nested).validate(&vars));
}

fn chooser() -> (WorkflowDefinition, ExclusiveGatewayDef) {
    let is = |v: &str| condition(Operator::Equal, steps("UT0", "choice"), literal(text(v)));
    let definition = definition(
        vec![("Start", start(vec![]))],
        vec![
            (0, 0, None),
            (0, 0, Some(is("A"))),
            (0, 0, Some(is("B"))),
            (0, 0, Some(is("B"))),
            (0, 0, Some(is("C"))),
        ],
    );
    let gw = ExclusiveGatewayDef { incoming: vec![], outgoing: vec![0, 1, 9, -1, 3, 2, 4], default: 0 };
    (definition, gw)
}

#[test]
fn gateway_takes_the_first_flow_that_matches() {
    let (definition, gw) = chooser();
    let choose = |v: &str| {
        ExclusiveGateway(&gw).evaluate(&definition, &variables("UT0", vec![("choice", text(v))]))
    };
    assert_eq!(choose("A"), [1]);
    // Flows 2 and 3 both match; 3 is listed first.
    assert_eq!(choose("B"), [3]);
    assert_eq!(choose("C"), [4]);
    assert_eq!(choose("D"), [0]);
    assert_eq!(ExclusiveGateway(&gw).evaluate(&definition, &JsonValue::map()), [0]);
}

#[test]
fn gateway_without_default_gives_minus_one() {
    let (definition, gw) = chooser();
    let gw = ExclusiveGatewayDef { default: -1, ..gw };
    assert_eq!(ExclusiveGateway(&gw).evaluate(&definition, &JsonValue::map()), [-1]);
    let none = ExclusiveGatewayDef { incoming: vec![], outgoing: vec![], default: 7 };
    assert_eq!(ExclusiveGateway(&none).evaluate(&definition, &JsonValue::map()), [7]);
}

#[test]
fn walk_ignores_a_branch_that_names_no_flow() {
    let definition = definition(
        vec![
            ("Start", start(vec![0])),
            ("GW", gateway(vec![0], vec![1], -1)),
            ("UT", user(vec![1], vec![])),
        ],
        vec![
            (0, 1, None),
            (1, 2, Some(condition(Operator::Equal, literal(whole(1)), literal(whole(2))))),
        ],
    );
    let instance = WorkflowInstance::start(&definition, "e");
    let state = &instance.rt.instance.state().inner;
    assert!(state.pending_tasks.is_empty());
    assert!(state.current_tasks.is_empty());
    assert!(state.current_flows.is_empty());
    assert!(!state.completed);
    assert_eq!(state.active, -1);
    assert_eq!(state.visited_tasks, vec![0]);
    assert_eq!(state.visited_flows, vec![0]);
}

#[test]
fn completion_is_refused_with_a_reason() {
    let definition = definition(
        vec![
            ("Start", start(vec![0])),
            ("UT1", user(vec![0], vec![1])),
            ("GW", gateway(vec![], vec![], -1)),
            ("End", end(vec![1])),
        ],
        vec![(0, 1, None), (1, 3, None)],
    );
    let mut instance = WorkflowInstance::start(&definition, "e");
    assert_eq!(instance.complete(3), Err("task with id 3 not found".to_string()));
    assert_eq!(instance.complete(-4), Err("task with id -4 not found".to_string()));
    assert_eq!(instance.pending_tasks(), &vec![1]);

    instance.rt.instance.push_pending_task(17);
    instance.rt.instance.push_pending_task(2);
    assert_eq!(instance.complete(17), Err("no pending usertask with id 17".to_string()));
    assert_eq!(instance.complete(2), Err("task with id 2 is not a usertask".to_string()));
    assert_eq!(instance.pending_tasks(), &vec![1, 17, 2]);
    assert_eq!(instance.get_active(), 1);

    assert_eq!(instance.complete(1), Ok(()));
    assert_eq!(instance.pending_tasks(), &vec![17, 2]);
    assert!(instance.is_completed());
    assert_eq!(instance.get_active(), 17);
}

#[test]
fn walk_stops_at_the_first_user_task() {
    // The start event has two flows; the one listed last is taken first.
    let definition = definition(
        vec![
            ("Start", start(vec![0, 1])),
            ("A", user(vec![0], vec![2])),
            ("B", user(vec![1], vec![3])),
            ("End", end(vec![2, 3])),
        ],
        vec![(0, 1, None), (0, 2, None), (1, 3, None), (2, 3, None)],
    );
    let mut rt = Runtime::new(&definition, "e".to_string());
    assert_eq!(rt.step_limit, STEP_LIMIT);
    rt.run();
    {
        let state = &rt.instance.state().inner;
        assert_eq!(state.pending_tasks, vec![2]);
        assert_eq!(state.current_flows, vec![0]);
        assert!(state.current_tasks.is_empty());
        assert_eq!(state.visited_tasks, vec![0, 2]);
        assert_eq!(state.visited_flows, vec![1]);
    }
    rt.simulate();
    assert_eq!(rt.instance.state().inner.maybe_visited_tasks, vec![2]);
    assert_eq!(rt.instance.state().inner.pending_tasks, vec![2]);
}

#[test]
fn walk_is_cut_off_on_a_cycle() {
    let definition = definition(
        vec![("Start", start(vec![0])), ("GW", gateway(vec![0, 1], vec![1], 1))],
        vec![(0, 1, None), (1, 1, None)],
    );
    let mut rt = Runtime::new(&definition, "e".to_string()).with_step_limit(11);
    rt.run();
    {
        let state = &rt.instance.state().inner;
        // Start, flow 0, then gateway and flow 1 in turn: the eleventh step
        // is the gateway's, and leaves its flow queued.
        assert_eq!(state.visited_flows, vec![0, 1, 1, 1, 1]);
        assert_eq!(state.visited_tasks, vec![0, 1]);
        assert!(state.current_tasks.is_empty());
        assert_eq!(state.current_flows, vec![1]);
        assert!(state.pending_tasks.is_empty());
        assert!(!state.completed);
    }
    rt.simulate();
    assert!(rt.instance.state().inner.maybe_visited_tasks.is_empty());
    assert!(rt.instance.state().inner.maybe_future_tasks.is_empty());
    assert_eq!(rt.instance.state().inner.maybe_future_flows, vec![1]);

    let looping = definition_with_user_cycle();
    let instance = WorkflowInstance::start_within(&looping, "e", 9);
    assert_eq!(instance.pending_tasks(), &vec![1]);
    // The look-ahead walks past user tasks and round the cycle until cut off.
    assert_eq!(instance.maybe_visited_tasks(), &vec![1, 1, 1]);
}

fn definition_with_user_cycle() -> WorkflowDefinition {
    definition(
        vec![("Start", start(vec![0])), ("UT", user(vec![0, 1], vec![1]))],
        vec![(0, 1, None), (1, 1, None)],
    )
}

#[test]
fn look_ahead_notes_a_task_once_for_each_way_to_it() {
    // Two flows lead from the first user task to the second.
    let definition = definition(
        vec![
            ("Start", start(vec![0])),
            ("A", user(vec![0], vec![1, 2])),
            ("B", user(vec![1, 2], vec![])),
        ],
        vec![(0, 1, None), (1, 2, None), (1, 2, None)],
    );
    let instance = WorkflowInstance::start(&definition, "e");
    assert_eq!(instance.pending_tasks(), &vec![1]);
    assert_eq!(instance.maybe_visited_tasks(), &vec![1, 1]);
}

#[test]
fn previous_user_task_skips_what_is_no_user_task() {
    let definition = definition(
        vec![
            ("Start", start(vec![0])),
            ("UT1", user(vec![0], vec![1])),
            ("GW", gateway(vec![1], vec![2], 2)),
            ("UT2", user(vec![2], vec![3])),
            ("End", end(vec![3])),
        ],
        vec![(0, 1, None), (1, 2, None), (2, 3, None), (3, 4, None)],
    );
    let mut instance = WorkflowInstance::start(&definition, "e");
    assert_eq!(instance.back(), -1);
    assert_eq!(instance.complete(1), Ok(()));
    assert_eq!(instance.visited_tasks(), &vec![0, 1, 2, 3]);
    assert_eq!(instance.rt.get_previous_user_task(3), Some(1));
    assert_eq!(instance.rt.get_previous_user_task(2), Some(1));
    assert_eq!(instance.rt.get_previous_user_task(1), None);
    assert_eq!(instance.rt.get_previous_user_task(0), None);
    assert_eq!(instance.rt.get_previous_user_task(4), None);
    assert_eq!(instance.rt.get_previous_user_task(-1), None);
    assert_eq!(instance.back(), 1);

    // Navigating to the gateway arrives at the user task before it.
    instance.navigate_to(2);
    assert_eq!(instance.pending_tasks(), &vec![1]);
    assert_eq!(instance.get_active(), 1);
    // Navigating to a task that was never visited changes nothing.
    instance.navigate_to(4);
    assert_eq!(instance.pending_tasks(), &vec![1]);
    instance.navigate_to(99);
    assert_eq!(instance.pending_tasks(), &vec![1]);
    assert_eq!(instance.get_active(), 1);
}

#[test]
fn navigation_leaves_a_completed_instance_marked() {
    let definition = definition(
        vec![("Start", start(vec![0])), ("UT1", user(vec![0], vec![1])), ("End", end(vec![1]))],
        vec![(0, 1, None), (1, 2, None)],
    );
    let mut instance = WorkflowInstance::start(&definition, "e");
    assert_eq!(instance.complete(1), Ok(()));
    assert!(instance.is_completed());
    instance.navigate_to(1);
    assert_eq!(instance.pending_tasks(), &vec![1]);
    assert!(instance.is_completed());
}

#[test]
fn definition_answers_for_its_tasks() {
    let mut child = definition(
        vec![
            ("Start", start(vec![0])),
            ("UT1", user(vec![0], vec![1])),
            ("GW", gateway(vec![1], vec![2], 2)),
            ("UT2", user(vec![2], vec![3])),
            ("End", end(vec![3])),
        ],
        vec![(0, 1, None), (1, 2, None), (2, 3, None), (3, 4, None)],
    );
    assert_eq!(child.user_tasks(), vec![1, 3]);
    assert_eq!(child.format_id("42"), "process_42");
    assert_eq!(child.root_start_event(), 0);
    assert!(child.tasks[1].is_user_task());
    assert!(!child.tasks[2].is_user_task());
    assert!(child.is_usertask(3));
    assert!(!child.is_usertask(4));
    assert!(!child.is_usertask(-1));
    assert!(!child.is_usertask(5));
    assert_eq!(child.task(4).map(|t| t.id), Some(4));
    assert!(child.task(5).is_none());
    assert!(child.task(-1).is_none());
    assert_eq!(child.flow(3).map(|f| f.target_ref), Some(4));
    assert!(child.flow(4).is_none());
    assert!(child.flow(i32::MIN).is_none());

    let mut parent = definition(vec![("Start", start(vec![]))], vec![]);
    parent.start_event = 7;
    parent.options = Some(WorkflowProperties { autostart: true });
    child.start_event = 3;
    child.parent = Some(Arc::new(parent));
    assert_eq!(child.root_start_event(), 7);
    let rt = Runtime::new(&child, "e".to_string());
    assert_eq!(rt.instance.state().inner.current_tasks, vec![7]);
}

#[test]
fn state_operations_work_on_their_lists() {
    let mut state = WorkflowState::new(5);
    assert_eq!(state.get_active(), -1);
    assert_eq!(state.pop_current_task(), Some(5));
    assert_eq!(state.pop_current_task(), None);
    state.push_current_task(1);
    state.push_current_flow(2);
    state.push_current_flow(3);
    assert_eq!(state.pop_current_flow(), Some(3));
    state.push_visited_task(4);
    state.push_visited_task(6);
    state.push_visited_task(4);
    assert_eq!(state.state().inner.visited_tasks, vec![4, 6]);
    assert!(state.has_visited(6));
    assert!(!state.has_visited(5));
    assert_eq!(state.pop_visited_task(), Some(6));
    state.push_visited_flow(8);
    assert_eq!(state.pop_visited_flow(), Some(8));
    assert_eq!(state.pop_visited_flow(), None);
    state.push_pending_task(10);
    state.push_pending_task(11);
    state.push_pending_task(12);
    assert_eq!(state.pending_task_by_index(1), 11);
    assert_eq!(state.state().inner.pending_tasks, vec![10, 12]);
    assert_eq!(state.pop_pending_task(), Some(12));
    state.push_maybe_future_task(1);
    state.push_maybe_future_flow(2);
    state.push_maybe_visited_task(3);
    state.push_maybe_visited_task(3);
    assert!(state.has_maybe_visited(3));
    assert!(!state.has_maybe_visited(1));
    assert_eq!(state.state().inner.maybe_visited_tasks, vec![3, 3]);
    assert_eq!(state.pop_maybe_future_task(), Some(1));
    assert_eq!(state.pop_maybe_future_flow(), Some(2));
    assert_eq!(state.pop_maybe_future_flow(), None);
    state.push_maybe_future_flow(9);
    state.clear_future(5);
    assert_eq!(state.state().inner.maybe_future_tasks, vec![5]);
    assert!(state.state().inner.maybe_future_flows.is_empty());
    assert!(state.state().inner.maybe_visited_tasks.is_empty());
    state.set_usertask(10);
    assert_eq!(state.state().inner.pending_tasks, vec![10]);
    assert!(state.state().inner.current_tasks.is_empty());
    assert!(state.state().inner.current_flows.is_empty());
    assert_eq!(state.get_active(), 10);
    state.set_active(3);
    assert_eq!(state.get_active(), 3);
    assert!(!state.state().inner.completed);
    state.set_completed();
    assert!(state.state().inner.completed);
    assert_eq!(state.get_remote_id(), None);
    state.set_remote_id("abc".to_string(), 4);
    assert_eq!(state.get_remote_id(), Some("abc".to_string()));
    assert_eq!(state.state().inner.remote_version, Some(4));
    state.mut_state().inner.active = 77;
    assert_eq!(state.get_active(), 77);

    let mut other = WorkflowState::from_state(fresh(9));
    assert_eq!(other.state().inner.current_tasks, vec![9]);
    other.replace(fresh(0));
    assert_eq!(other.state().inner.current_tasks, vec![0]);

    assert_eq!(position_of(&vec![3, 1, 3], 3), Some(0));
    assert_eq!(position_of(&vec![3, 1, 3], 1), Some(1));
    assert_eq!(position_of(&vec![3, 1, 3], 2), None);
    assert!(holds(&vec![3, 1], 1));
    assert!(!holds(&vec![], 1));
}

#[test]
fn runtime_takes_another_state() {
    let definition = definition(
        vec![("Start", start(vec![0])), ("UT1", user(vec![0], vec![1])), ("End", end(vec![1]))],
        vec![(0, 1, None), (1, 2, None)],
    );
    let mut first = Runtime::new(&definition, "a".to_string());
    first.run();
    first.set_default_active_task();
    assert_eq!(first.instance.get_active(), 1);
    let mut state = fresh(0);
    state.current_tasks.clear();
    state.pending_tasks.push(1);
    let mut second = Runtime::new(&definition, "b".to_string()).with_state(state);
    assert_eq!(second.entity_id, "b");
    assert_eq!(second.instance.state().inner.pending_tasks, vec![1]);
    assert_eq!(second.complete(1), Ok(()));
    assert!(second.instance.state().inner.completed);
    second.set_default_active_task();
    assert_eq!(second.instance.get_active(), -1);
    second.replace(fresh(0));
    assert_eq!(second.instance.state().inner.current_tasks, vec![0]);
    assert!(!second.instance.state().inner.completed);
}
