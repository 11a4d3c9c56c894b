use std::sync::Arc;
use wfrs::archive::code_of_operator;
use wfrs::archive::definition_from_frame;
use wfrs::archive::deserialize;
use wfrs::archive::flattened_node;
use wfrs::archive::flow_of_row;
use wfrs::archive::flow_row;
use wfrs::archive::frame_from_definition;
use wfrs::archive::operator_of_code;
use wfrs::archive::parse_node;
use wfrs::archive::serialize;
use wfrs::archive::stored_and_read;
use wfrs::archive::task_of_row;
use wfrs::archive::task_row;
use wfrs::archive::unflattened_node;
use wfrs::archive::weigh_definition_frame;
use wfrs::archive::weigh_flows;
use wfrs::archive::weigh_names;
use wfrs::archive::weigh_tasks;
use wfrs::archive::DefinitionFrame;
use wfrs::codec::ARCHIVE_LIMIT;
use wfrs::codec::CodecError;
use wfrs::float::Float64;
use wfrs::instance::WorkflowInstance;
use wfrs::jsep::BinaryExpression;
use wfrs::jsep::ConditionalExpression;
use wfrs::jsep::ExpressionIdentifier;
use wfrs::jsep::ExpressionLiteral;
use wfrs::jsep::JsepNode;
use wfrs::jsep::MemberExpression;
use wfrs::jsep::Operator;
use wfrs::json::JsonNumber;
use wfrs::json::JsonObject;
use wfrs::json::JsonValue;
use wfrs::model::ConditionExpression;
use wfrs::model::EndEventDef;
use wfrs::model::ExclusiveGatewayDef;
use wfrs::model::Flow;
use wfrs::model::StartEventDef;
use wfrs::model::Task;
use wfrs::model::TaskDef;
use wfrs::model::UserTaskDef;
use wfrs::model::WorkflowDefinition;
use wfrs::model::WorkflowProperties;

fn identifier(name: &str) -> JsepNode {
    JsepNode::Identifier(ExpressionIdentifier { name: name.to_string() })
}

fn member(computed: bool, optional: bool, object: JsepNode, property: JsepNode) -> JsepNode {
    JsepNode::MemberExpression(MemberExpression {
        computed,
        optional,
        object: Box::new(object),
        property: Box::new(property),
    })
}

fn literal(value: JsonValue) -> JsepNode {
    JsepNode::Literal(ExpressionLiteral { value })
}

fn binary(operator: Operator, left: JsepNode, right: JsepNode) -> JsepNode {
    JsepNode::BinaryExpression(BinaryExpression {
        operator,
        left: Box::new(left),
        right: Box::new(right),
    })
}

fn rich_value() -> JsonValue {
    let mut o = JsonObject::new();
    o.insert("k".to_string(), JsonValue::Array(vec![JsonValue::Null, JsonValue::Bool(true)]));
    o.insert(
        "f".to_string(),
        JsonValue::Number(JsonNumber::Float(Float64::from_bits(0.5f64.to_bits()))),
    );
    JsonValue::Object(o)
}

fn rich_node() -> JsepNode {
    JsepNode::ConditionalExpression(ConditionalExpression {
        test: Box::new(binary(
            Operator::Or,
            binary(
                Operator::GreaterOrEqual,
                member(false, true, member(true, false, identifier("$steps"), identifier("UT0")), identifier("n")),
                literal(JsonValue::Number(JsonNumber::NegInt(-3))),
            ),
            member(true, true, identifier("a"), literal(JsonValue::String("b".to_string()))),
        )),
        consequent: Box::new(literal(rich_value())),
        alternate: Box::new(identifier("")),
    })
}

fn same_value(a: &JsonValue, b: &JsonValue) -> bool {
    match (a, b) {
        (JsonValue::Null, JsonValue::Null) => true,
        (JsonValue::Bool(x), JsonValue::Bool(y)) => x == y,
        (JsonValue::Number(JsonNumber::PosInt(x)), JsonValue::Number(JsonNumber::PosInt(y))) => x == y,
        (JsonValue::Number(JsonNumber::NegInt(x)), JsonValue::Number(JsonNumber::NegInt(y))) => x == y,
        (JsonValue::Number(JsonNumber::Float(x)), JsonValue::Number(JsonNumber::Float(y))) => {
            x.to_bits() == y.to_bits()
        }
        (JsonValue::String(x), JsonValue::String(y)) => x == y,
        (JsonValue::Array(x), JsonValue::Array(y)) => {
            x.len() == y.len() && x.iter().zip(y.iter()).all(|(p, q)| same_value(p, q))
        }
        (JsonValue::Object(x), JsonValue::Object(y)) => {
            x.entries.len() == y.entries.len()
                && x.entries
                    .iter()
                    .zip(y.entries.iter())
                    .all(|(p, q)| p.0 == q.0 && same_value(&p.1, &q.1))
        }
        _ => false,
    }
}

fn same_node(a: &JsepNode, b: &JsepNode) -> bool {
    match (a, b) {
        (JsepNode::ConditionalExpression(x), JsepNode::ConditionalExpression(y)) => {
            same_node(&x.test, &y.test)
                && same_node(&x.consequent, &y.consequent)
                && same_node(&x.alternate, &y.alternate)
        }
        (JsepNode::BinaryExpression(x), JsepNode::BinaryExpression(y)) => {
            x.operator == y.operator && same_node(&x.left, &y.left) && same_node(&x.right, &y.right)
        }
        (JsepNode::Identifier(x), JsepNode::Identifier(y)) => x.name == y.name,
        (JsepNode::Literal(x), JsepNode::Literal(y)) => same_value(&x.value, &y.value),
        (JsepNode::MemberExpression(x), JsepNode::MemberExpression(y)) => {
            x.computed == y.computed
                && x.optional == y.optional
                && same_node(&x.object, &y.object)
                && same_node(&x.property, &y.property)
        }
        _ => false,
    }
}

fn same_def(a: &TaskDef, b: &TaskDef) -> bool {
    match (a, b) {
        (TaskDef::StartEvent(x), TaskDef::StartEvent(y)) => x.outgoing == y.outgoing,
        (TaskDef::EndEvent(x), TaskDef::EndEvent(y)) => x.incoming == y.incoming,
        (TaskDef::UserTask(x), TaskDef::UserTask(y)) => {
            x.incoming == y.incoming && x.outgoing == y.outgoing
        }
        (TaskDef::ExclusiveGateway(x), TaskDef::ExclusiveGateway(y)) => {
            x.incoming == y.incoming && x.outgoing == y.outgoing && x.default == y.default
        }
        _ => false,
    }
}

fn same_flow(a: &Flow, b: &Flow) -> bool {
    a.id == b.id
        && a.source_ref == b.source_ref
        && a.target_ref == b.target_ref
        && match (&a.condition_expression, &b.condition_expression) {
            (Some(ConditionExpression::Jsep(x)), Some(ConditionExpression::Jsep(y))) => {
                same_node(x, y)
            }
            (None, None) => true,
            _ => false,
        }
}

fn same_definition(a: &WorkflowDefinition, b: &WorkflowDefinition) -> bool {
    a.version == b.version
        && a.id == b.id
        && a.start_event == b.start_event
        && a.parent.is_none() == b.parent.is_none()
        && a.children.is_none() == b.children.is_none()
        && a.flow_ids == b.flow_ids
        && a.task_ids == b.task_ids
        && a.options.as_ref().map(|o| o.autostart) == b.options.as_ref().map(|o| o.autostart)
        && a.tasks.len() == b.tasks.len()
        && a.tasks.iter().zip(b.tasks.iter()).all(|(x, y)| x.id == y.id && same_def(&x.def, &y.def))
        && a.flows.len() == b.flows.len()
        && a.flows.iter().zip(b.flows.iter()).all(|(x, y)| same_flow(x, y))
}

fn sample() -> WorkflowDefinition {
    WorkflowDefinition {
        version: "1.2".to_string(),
        id: "Prozess ü".to_string(),
        start_event: 0,
        parent: None,
        flows: vec![
            Flow { id: 0, source_ref: 0, target_ref: 1, condition_expression: None },
            Flow {
                id: 1,
                source_ref: 1,
                target_ref: 2,
                condition_expression: Some(ConditionExpression::Jsep(rich_node())),
            },
            Flow {
                id: 7,
                source_ref: -1,
                target_ref: i32::MAX,
                condition_expression: Some(ConditionExpression::Jsep(identifier("x"))),
            },
        ],
        flow_ids: vec!["F0".to_string(), "F1".to_string(), "".to_string()],
        tasks: vec![
            Task { id: 0, def: TaskDef::StartEvent(StartEventDef { outgoing: vec![0] }) },
            Task {
                id: 1,
                def: TaskDef::ExclusiveGateway(ExclusiveGatewayDef {
                    incoming: vec![0],
                    outgoing: vec![1, 2],
                    default: -1,
                }),
            },
            Task {
                id: 2,
                def: TaskDef::UserTask(UserTaskDef { incoming: vec![1], outgoing: vec![] }),
            },
            Task { id: 9, def: TaskDef::EndEvent(EndEventDef { incoming: vec![2, 2] }) },
        ],
        task_ids: vec!["S".to_string(), "G".to_string(), "U".to_string()],
        children: None,
        options: Some(WorkflowProperties { autostart: true }),
    }
}

#[test]
fn definition_comes_back_from_its_bytes() {
    let definition = sample();
    let bytes = serialize(&definition).expect("bytes");
    let read = deserialize(&bytes).expect("a definition");
    assert!(same_definition(&definition, &read));
    let again = stored_and_read(&definition).expect("a definition");
    assert!(same_definition(&definition, &again));
    assert_eq!(serialize(&read), Ok(bytes));

    let mut plain = sample();
    plain.flows.clear();
    plain.tasks.clear();
    plain.task_ids.clear();
    plain.flow_ids.clear();
    plain.options = None;
    let read = stored_and_read(&plain).expect("a definition");
    assert!(same_definition(&plain, &read));
    assert!(!same_definition(&definition, &read));
}

#[test]
fn definition_read_from_bytes_runs() {
    let definition = WorkflowDefinition {
        version: "1".to_string(),
        id: "p".to_string(),
        start_event: 0,
        parent: None,
        flows: vec![
            Flow { id: 0, source_ref: 0, target_ref: 1, condition_expression: None },
            Flow { id: 1, source_ref: 1, target_ref: 2, condition_expression: None },
            Flow {
                id: 2,
                source_ref: 1,
                target_ref: 3,
                condition_expression: Some(ConditionExpression::Jsep(binary(
                    Operator::Lower,
                    literal(JsonValue::Number(JsonNumber::PosInt(1))),
                    literal(JsonValue::Number(JsonNumber::Float(Float64::from_bits(
                        1.5f64.to_bits(),
                    )))),
                ))),
            },
        ],
        flow_ids: vec!["a".to_string(), "b".to_string(), "c".to_string()],
        tasks: vec![
            Task { id: 0, def: TaskDef::StartEvent(StartEventDef { outgoing: vec![0] }) },
            Task {
                id: 1,
                def: TaskDef::ExclusiveGateway(ExclusiveGatewayDef {
                    incoming: vec![0],
                    outgoing: vec![1, 2],
                    default: 1,
                }),
            },
            Task { id: 2, def: TaskDef::UserTask(UserTaskDef { incoming: vec![1], outgoing: vec![] }) },
            Task { id: 3, def: TaskDef::UserTask(UserTaskDef { incoming: vec![2], outgoing: vec![] }) },
        ],
        task_ids: vec!["S".to_string(), "G".to_string(), "L".to_string(), "R".to_string()],
        children: None,
        options: None,
    };
    let read = deserialize(&serialize(&definition).expect("bytes")).expect("a definition");
    let instance = WorkflowInstance::start(&read, "e");
    assert_eq!(instance.pending_tasks(), &vec![3]);
}

#[test]
fn definition_with_parent_or_children_is_not_stored() {
    let mut child = sample();
    child.parent = Some(Arc::new(sample()));
    assert_eq!(serialize(&child), Err(CodecError::Shape));
    assert!(frame_from_definition(&child).is_none());
    let mut parent = sample();
    parent.children = Some(vec![]);
    assert_eq!(serialize(&parent), Err(CodecError::Shape));
    assert_eq!(stored_and_read(&parent).err(), Some(CodecError::Shape));
}

#[test]
fn bytes_that_hold_no_definition_are_refused() {
    assert_eq!(deserialize(&[]).err(), Some(CodecError::Schema));
    assert_eq!(deserialize(&[7; 40]).err(), Some(CodecError::Schema));
    let bytes = serialize(&sample()).expect("bytes");
    assert_eq!(deserialize(&bytes[..bytes.len() - 3]).err(), Some(CodecError::Schema));

    let mut frame = frame_from_definition(&sample()).expect("a frame");
    assert!(same_definition(&sample(), &definition_from_frame(&frame).expect("a definition")));
    frame.1[0].1 = 4;
    assert_eq!(definition_from_frame(&frame).err(), Some(CodecError::Shape));
    let mut frame = frame_from_definition(&sample()).expect("a frame");
    frame.3[1].3.pop();
    assert_eq!(definition_from_frame(&frame).err(), Some(CodecError::Shape));
}

#[test]
fn rows_hold_tasks_and_flows() {
    let definition = sample();
    let rows: Vec<_> = definition.tasks.iter().map(task_row).collect();
    assert_eq!(rows[0], (0, 0, 0, vec![], vec![0]));
    assert_eq!(rows[1], (1, 3, -1, vec![0], vec![1, 2]));
    assert_eq!(rows[2], (2, 2, 0, vec![1], vec![]));
    assert_eq!(rows[3], (9, 1, 0, vec![2, 2], vec![]));
    for (row, task) in rows.iter().zip(definition.tasks.iter()) {
        let read = task_of_row(row).expect("a task");
        assert!(read.id == task.id && same_def(&read.def, &task.def));
    }
    let refused = vec![
        (0, 0, 1, vec![], vec![0]),
        (0, 0, 0, vec![1], vec![0]),
        (0, 1, 0, vec![0], vec![1]),
        (0, 1, 5, vec![0], vec![]),
        (0, 2, 5, vec![], vec![]),
        (0, 4, 0, vec![], vec![]),
        (0, 255, 0, vec![], vec![]),
    ];
    for row in refused {
        assert!(task_of_row(&row).is_none(), "{:?}", row);
    }

    for flow in definition.flows.iter() {
        let row = flow_row(flow);
        assert_eq!(row.3.is_empty(), flow.condition_expression.is_none());
        assert!(same_flow(flow, &flow_of_row(&row).expect("a flow")));
    }
    assert!(flow_of_row(&(0, 0, 0, vec![(0, 0, String::new())])).is_none());
    assert!(flow_of_row(&(0, 0, 0, vec![(12, 0, "x".to_string()), (12, 0, "y".to_string())]))
        .is_none());
}

#[test]
fn expressions_come_back_from_their_tokens() {
    let node = rich_node();
    let tokens = flattened_node(&node);
    assert_eq!(tokens[0], (10, 0, String::new()));
    assert_eq!(tokens[1], (11, 7, String::new()));
    assert_eq!(tokens[2], (11, 3, String::new()));
    assert_eq!(tokens[3], (14, 2, String::new()));
    assert_eq!(tokens[4], (14, 1, String::new()));
    assert_eq!(tokens[5], (12, 0, "$steps".to_string()));
    let read = unflattened_node(&tokens).expect("an expression");
    assert!(same_node(&node, &read));
    let (inner, next) = parse_node(&tokens, 4).expect("an expression");
    assert!(matches!(inner, JsepNode::MemberExpression(m) if m.computed && !m.optional));
    assert_eq!(next, 7);
    assert!(parse_node(&tokens, tokens.len()).is_none());

    let blank = String::new;
    let refused: Vec<Vec<(u8, u64, String)>> = vec![
        vec![],
        vec![(12, 1, "x".to_string())],
        vec![(13, 0, blank())],
        vec![(13, 0, blank()), (9, 0, blank())],
        vec![(13, 1, blank()), (0, 0, blank())],
        vec![(13, 0, "x".to_string()), (0, 0, blank())],
        vec![(11, 8, blank()), (12, 0, blank()), (12, 0, blank())],
        vec![(11, 0, blank()), (12, 0, blank())],
        vec![(11, 0, "x".to_string()), (12, 0, blank()), (12, 0, blank())],
        vec![(10, 0, blank()), (12, 0, blank()), (12, 0, blank())],
        vec![(10, 1, blank()), (12, 0, blank()), (12, 0, blank()), (12, 0, blank())],
        vec![(14, 4, blank()), (12, 0, blank()), (12, 0, blank())],
        vec![(14, 0, blank()), (12, 0, blank())],
        vec![(12, 0, blank()), (12, 0, blank())],
        vec![(0, 0, blank())],
        vec![(15, 0, blank())],
    ];
    for tokens in refused {
        assert!(unflattened_node(&tokens).is_none(), "{:?}", tokens);
    }
    let accepted: Vec<Vec<(u8, u64, String)>> = vec![
        vec![(12, 0, blank())],
        vec![(13, 0, blank()), (0, 0, blank())],
        vec![(11, 0, blank()), (12, 0, blank()), (12, 0, blank())],
        vec![(14, 3, blank()), (12, 0, blank()), (13, 0, blank()), (6, 0, blank())],
        vec![(10, 0, blank()), (12, 0, blank()), (12, 0, blank()), (12, 0, blank())],
    ];
    for tokens in accepted {
        let node = unflattened_node(&tokens).expect("an expression");
        assert_eq!(flattened_node(&node), tokens);
    }
}

#[test]
fn operators_have_their_numbers() {
    let all = [
        Operator::Equal,
        Operator::NotEqual,
        Operator::Greater,
        Operator::GreaterOrEqual,
        Operator::Lower,
        Operator::LowerOrEqual,
        Operator::And,
        Operator::Or,
    ];
    for (i, op) in all.iter().enumerate() {
        assert_eq!(code_of_operator(op), i as u64);
        assert_eq!(operator_of_code(i as u64), Some(*op));
    }
    assert_eq!(operator_of_code(8), None);
    assert_eq!(operator_of_code(u64::MAX), None);
}

#[test]
fn definition_frame_weighs_its_rows_and_names() {
    let frame: DefinitionFrame = (
        ("1.0".to_string(), "pé".to_string(), 0, None),
        vec![(0, 0, 0, vec![], vec![0]), (1, 2, 0, vec![0, 1], vec![])],
        vec!["S".to_string(), "Task".to_string()],
        vec![(0, 0, 1, vec![]), (1, 1, 0, vec![(12, 0, "x".to_string())])],
        vec!["F".to_string()],
    );
    // 256, the two names of 3 bytes, two task rows of 64 and two lists each,
    // two identifiers, two flow rows of 64 and one token, one identifier.
    let tasks = (64 + 16 + 16 + 4) + (64 + 16 + 8 + 16);
    let task_ids = (16 + 1) + (16 + 4);
    let flows = 64 + (64 + 32 + 1);
    let flow_ids = 16 + 1;
    assert_eq!(weigh_definition_frame(&frame), Some(256 + 3 + 3 + tasks + task_ids + flows + flow_ids));
    assert_eq!(weigh_tasks(&frame.1, 0), Some(tasks));
    assert_eq!(weigh_names(&frame.2, 0), Some(task_ids));
    assert_eq!(weigh_flows(&frame.3, 0), Some(flows));
    assert_eq!(weigh_names(&frame.4, ARCHIVE_LIMIT - 17), Some(ARCHIVE_LIMIT));
    assert_eq!(weigh_names(&frame.4, ARCHIVE_LIMIT - 16), None);
    assert_eq!(weigh_tasks(&vec![], ARCHIVE_LIMIT + 1), None);

    let definition = sample();
    let weight = weigh_definition_frame(&frame_from_definition(&definition).expect("a frame"))
        .expect("a weight");
    let bytes = serialize(&definition).expect("bytes");
    assert!(bytes.len() <= weight, "{} > {}", bytes.len(), weight);
}

#[test]
fn definition_too_heavy_to_archive_is_refused() {
    let mut heavy = sample();
    heavy.version = "v".repeat(ARCHIVE_LIMIT);
    assert_eq!(serialize(&heavy), Err(CodecError::Archive));
    assert_eq!(stored_and_read(&heavy).err(), Some(CodecError::Archive));
    // The shape is looked at first.
    heavy.children = Some(vec![]);
    assert_eq!(serialize(&heavy), Err(CodecError::Shape));
}
