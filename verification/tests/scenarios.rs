use wfrs::float::Float64;
use wfrs::instance::Variable;
use wfrs::instance::WorkflowInstance;
use wfrs::jsep::BinaryExpression;
use wfrs::jsep::ExpressionIdentifier;
use wfrs::jsep::ExpressionLiteral;
use wfrs::jsep::JsepNode;
use wfrs::jsep::MemberExpression;
use wfrs::jsep::Operator;
use wfrs::json::JsonNumber;
use wfrs::json::JsonObject;
use wfrs::json::JsonValue;
use wfrs::model::ConditionExpression;
use wfrs::model::EndEventDef;
use wfrs::model::ExclusiveGatewayDef;
use wfrs::model::Flow;
use wfrs::model::StartEventDef;
use wfrs::model::Task;
use wfrs::model::TaskDef;
use wfrs::model::UserTaskDef;
use wfrs::model::WorkflowDefinition;

fn start(outgoing: Vec<i32>) -> TaskDef {
    TaskDef::StartEvent(StartEventDef { outgoing })
}

fn end(incoming: Vec<i32>) -> TaskDef {
    TaskDef::EndEvent(EndEventDef { incoming })
}

fn user(incoming: Vec<i32>, outgoing: Vec<i32>) -> TaskDef {
    TaskDef::UserTask(UserTaskDef { incoming, outgoing })
}

fn gateway(incoming: Vec<i32>, outgoing: Vec<i32>, default: i32) -> TaskDef {
    TaskDef::ExclusiveGateway(ExclusiveGatewayDef { incoming, outgoing, default })
}

fn definition(
    defs: Vec<(&str, TaskDef)>,
    links: Vec<(i32, i32, Option<ConditionExpression>)>,
) -> WorkflowDefinition {
    let mut tasks = Vec::new();
    let mut task_ids = Vec::new();
    for (i, (name, def)) in defs.into_iter().enumerate() {
        tasks.push(Task { id: i as i32, def });
        task_ids.push(name.to_string());
    }
    let mut flows = Vec::new();
    let mut flow_ids = Vec::new();
    for (i, (source_ref, target_ref, condition_expression)) in links.into_iter().enumerate() {
        flows.push(Flow { id: i as i32, source_ref, target_ref, condition_expression });
        flow_ids.push(format!("Flow_{}", i));
    }
    WorkflowDefinition {
        version: "1".to_string(),
        id: "process".to_string(),
        start_event: 0,
        parent: None,
        flows,
        flow_ids,
        tasks,
        task_ids,
        children: None,
        options: None,
    }
}

fn identifier(name: &str) -> Box<JsepNode> {
    Box::new(JsepNode::Identifier(ExpressionIdentifier { name: name.to_string() }))
}

fn member(object: Box<JsepNode>, property: &str) -> Box<JsepNode> {
    Box::new(JsepNode::MemberExpression(MemberExpression {
        computed: false,
        optional: false,
        object,
        property: identifier(property),
    }))
}

fn text(s: &str) -> Box<JsepNode> {
    Box::new(JsepNode::Literal(ExpressionLiteral { value: JsonValue::String(s.to_string()) }))
}

fn choice_is_b() -> ConditionExpression {
    ConditionExpression::Jsep(JsepNode::BinaryExpression(BinaryExpression {
        operator: Operator::Equal,
        left: member(member(identifier("$steps"), "UT0"), "choice"),
        right: text("B"),
    }))
}

fn linear() -> WorkflowDefinition {
    definition(
        vec![("Start", start(vec![0])), ("UT1", user(vec![0], vec![1])), ("End", end(vec![1]))],
        vec![(0, 1, None), (1, 2, None)],
    )
}

fn two_steps() -> WorkflowDefinition {
    definition(
        vec![
            ("Start", start(vec![0])),
            ("UT1", user(vec![0], vec![1])),
            ("UT2", user(vec![1], vec![2])),
            ("End", end(vec![2])),
        ],
        vec![(0, 1, None), (1, 2, None), (2, 3, None)],
    )
}

fn three_steps() -> WorkflowDefinition {
    definition(
        vec![
            ("Start", start(vec![0])),
            ("UT1", user(vec![0], vec![1])),
            ("UT2", user(vec![1], vec![2])),
            ("UT3", user(vec![2], vec![3])),
            ("End", end(vec![3])),
        ],
        vec![(0, 1, None), (1, 2, None), (2, 3, None), (3, 4, None)],
    )
}

const UT_LEFT: i32 = 2;
const UT_RIGHT: i32 = 3;

fn branching() -> WorkflowDefinition {
    definition(
        vec![
            ("Start", start(vec![0])),
            ("GW", gateway(vec![0], vec![1, 2], 1)),
            ("UT_left", user(vec![1], vec![3])),
            ("UT_right", user(vec![2], vec![4])),
            ("End", end(vec![3, 4])),
        ],
        vec![
            (0, 1, None),
            (1, UT_LEFT, None),
            (1, UT_RIGHT, Some(choice_is_b())),
            (UT_LEFT, 4, None),
            (UT_RIGHT, 4, None),
        ],
    )
}

fn number(x: f64) -> Variable {
    Variable::Number(Float64::from_bits(x.to_bits()))
}

#[test]
fn linear_start_then_complete() {
    let definition = linear();
    let mut instance = WorkflowInstance::start(&definition, "e");
    assert_eq!(instance.rt.entity_id, "process_e");
    assert_eq!(instance.pending_tasks(), &vec![1]);
    assert_eq!(instance.get_active(), 1);
    assert_eq!(instance.maybe_visited_tasks(), &vec![1]);
    assert!(!instance.is_completed());

    assert_eq!(instance.complete(1), Ok(()));
    assert!(instance.pending_tasks().is_empty());
    assert_eq!(instance.get_active(), -1);
    assert!(instance.is_completed());
    assert_eq!(instance.visited_tasks(), &vec![0, 1]);
    assert_eq!(instance.rt.instance.state().inner.visited_flows, vec![0, 1]);
}

#[test]
fn gateway_takes_default_branch() {
    let definition = branching();
    let instance = WorkflowInstance::start(&definition, "e");
    assert_eq!(instance.pending_tasks(), &vec![UT_LEFT]);
    assert!(instance.maybe_visited_tasks().contains(&UT_LEFT));
    assert!(!instance.maybe_visited_tasks().contains(&UT_RIGHT));
}

#[test]
fn gateway_takes_branch_whose_condition_holds() {
    let definition = branching();
    let mut instance = WorkflowInstance::start(&definition, "e");
    let mut answers = JsonObject::new();
    answers.insert("choice".to_string(), JsonValue::String("B".to_string()));
    let mut root = JsonObject::new();
    root.insert("UT0".to_string(), JsonValue::Object(answers));
    instance.rt.instance.mut_state().inner.variables = JsonValue::Object(root);

    instance.rt.simulate();
    assert!(instance.maybe_visited_tasks().contains(&UT_RIGHT));
    assert!(!instance.maybe_visited_tasks().contains(&UT_LEFT));
    assert_eq!(instance.pending_tasks(), &vec![UT_LEFT]);
}

#[test]
fn navigation_goes_back_to_a_visited_task() {
    let definition = two_steps();
    let mut instance = WorkflowInstance::start(&definition, "e");
    assert_eq!(instance.complete(1), Ok(()));
    assert_eq!(instance.pending_tasks(), &vec![2]);
    assert_eq!(instance.get_active(), 2);

    instance.navigate_to(1);
    assert_eq!(instance.pending_tasks(), &vec![1]);
    assert_eq!(instance.get_active(), 1);
    assert!(!instance.is_completed());
}

#[test]
fn variables_keep_their_kind() {
    let definition = linear();
    let mut instance = WorkflowInstance::start(&definition, "e");
    let values = vec![
        ("a".to_string(), number(3.0)),
        ("b".to_string(), number(-2.0)),
        ("c".to_string(), number(1.5)),
        ("d".to_string(), Variable::Text("x".to_string())),
        ("e".to_string(), Variable::Flag(true)),
        ("f".to_string(), Variable::Other),
    ];
    instance.set_variables(1, &values);

    let stored = instance.get_variables(1).expect("variables of the pending task");
    let object = stored.as_object().expect("an object");
    assert_eq!(object.len(), 5);
    assert!(matches!(object.get("a"), Some(JsonValue::Number(JsonNumber::PosInt(3)))));
    assert!(matches!(object.get("b"), Some(JsonValue::Number(JsonNumber::NegInt(-2)))));
    match object.get("c") {
        Some(JsonValue::Number(JsonNumber::Float(f))) => {
            assert_eq!(f64::from_bits(f.to_bits()), 1.5)
        }
        other => panic!("not a float: {:?}", other),
    }
    match object.get("d") {
        Some(JsonValue::String(s)) => assert_eq!(s, "x"),
        other => panic!("not a string: {:?}", other),
    }
    assert!(matches!(object.get("e"), Some(JsonValue::Bool(true))));
    assert!(object.get("f").is_none());
}

#[test]
fn variables_are_kept_for_pending_tasks_only() {
    let definition = two_steps();
    let mut instance = WorkflowInstance::start(&definition, "e");
    instance.set_variables(2, &vec![("a".to_string(), number(1.0))]);
    assert!(instance.get_variables(2).is_none());
    assert!(instance.get_variables(1).is_none());
    assert!(instance.get_variables(-1).is_none());
    assert_eq!(instance.rt.instance.state().inner.variables.as_object().unwrap().len(), 0);

    instance.set_variables(1, &vec![("a".to_string(), number(1.0))]);
    instance.set_variables(1, &vec![("a".to_string(), number(2.0)), ("b".to_string(), number(7.0))]);
    let stored = instance.get_variables(1).unwrap().as_object().unwrap();
    assert_eq!(stored.len(), 2);
    assert!(matches!(stored.get("a"), Some(JsonValue::Number(JsonNumber::PosInt(2)))));
    assert!(matches!(stored.get("b"), Some(JsonValue::Number(JsonNumber::PosInt(7)))));
    assert_eq!(instance.rt.instance.state().inner.variables.as_object().unwrap().len(), 1);
}

#[test]
fn stored_state_goes_on_as_the_first() {
    let definition = three_steps();
    let mut first = WorkflowInstance::start(&definition, "e");
    assert_eq!(first.complete(1), Ok(()));
    first.set_variables(2, &vec![("n".to_string(), number(4.0))]);
    assert_eq!(first.complete(2), Ok(()));

    let bytes = first.state().expect("bytes");
    let mut copy = WorkflowInstance::load(&definition, "e", Some(bytes.as_slice())).expect("a state");
    assert_eq!(copy.pending_tasks(), first.pending_tasks());
    assert_eq!(copy.pending_tasks(), &vec![3]);

    assert_eq!(first.complete(3), Ok(()));
    assert_eq!(copy.complete(3), Ok(()));
    let a = &first.rt.instance.state().inner;
    let b = &copy.rt.instance.state().inner;
    assert_eq!(a.active, b.active);
    assert_eq!(a.current_tasks, b.current_tasks);
    assert_eq!(a.current_flows, b.current_flows);
    assert_eq!(a.visited_tasks, b.visited_tasks);
    assert_eq!(a.visited_flows, b.visited_flows);
    assert_eq!(a.pending_tasks, b.pending_tasks);
    assert_eq!(a.maybe_future_tasks, b.maybe_future_tasks);
    assert_eq!(a.maybe_future_flows, b.maybe_future_flows);
    assert_eq!(a.maybe_visited_tasks, b.maybe_visited_tasks);
    assert!(a.variables.same_as(&b.variables));
    assert_eq!(a.completed, b.completed);
    assert!(b.completed);
    assert_eq!(b.visited_tasks, vec![0, 1, 2, 3]);
}

#[test]
fn operations_leave_a_settled_state() {
    let definition = three_steps();
    let mut instance = WorkflowInstance::start(&definition, "e");
    let settled = |instance: &WorkflowInstance| {
        let state = &instance.rt.instance.state().inner;
        assert!(state.current_tasks.is_empty());
        assert!(state.current_flows.is_empty());
        let mut seen = state.visited_tasks.clone();
        seen.sort();
        seen.dedup();
        assert_eq!(seen.len(), state.visited_tasks.len());
        assert!(state.active == -1 || state.pending_tasks.contains(&state.active));
        assert!(!state.completed || state.pending_tasks.is_empty());
        for task in state.pending_tasks.iter() {
            assert!(state.maybe_visited_tasks.contains(task));
        }
    };
    settled(&instance);
    assert_eq!(instance.complete(1), Ok(()));
    settled(&instance);
    instance.set_variables(2, &vec![("k".to_string(), Variable::Flag(false))]);
    settled(&instance);
    assert_eq!(instance.complete(2), Ok(()));
    settled(&instance);
    instance.navigate_to(1);
    settled(&instance);
    assert_eq!(instance.pending_tasks(), &vec![1]);
    assert_eq!(instance.complete(1), Ok(()));
    settled(&instance);
    assert_eq!(instance.complete(2), Ok(()));
    assert_eq!(instance.complete(3), Ok(()));
    settled(&instance);
    assert!(instance.is_completed());
}

#[test]
fn restore_notes_the_remote_correlation() {
    let definition = two_steps();
    let mut first = WorkflowInstance::start(&definition, "e");
    assert_eq!(first.complete(1), Ok(()));
    assert!(first.get_remote_id().is_none());
    let bytes = first.state().expect("bytes");

    let restored =
        WorkflowInstance::restore(&definition, "other", "remote-7".to_string(), 12, &bytes)
            .expect("a state");
    assert_eq!(restored.rt.entity_id, "process_other");
    assert_eq!(restored.get_remote_id(), Some(("remote-7".to_string(), 12)));
    assert_eq!(restored.pending_tasks(), &vec![2]);
    assert_eq!(restored.get_active(), 2);
    assert_eq!(restored.back(), 1);

    first.set_remote_id("r".to_string(), -1);
    assert_eq!(first.get_remote_id(), Some(("r".to_string(), -1)));
}

#[test]
fn load_without_stored_state_has_not_run() {
    let definition = linear();
    let instance = WorkflowInstance::load(&definition, "e", None).expect("an instance");
    let state = &instance.rt.instance.state().inner;
    assert_eq!(state.current_tasks, vec![0]);
    assert!(state.pending_tasks.is_empty());
    assert_eq!(state.active, -1);
    assert!(!state.completed);
}
