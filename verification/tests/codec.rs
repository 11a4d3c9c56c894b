use wfrs::codec::bits_of_signed;
use wfrs::codec::decode;
use wfrs::codec::encode;
use wfrs::codec::flattened;
use wfrs::codec::frame_from_state;
use wfrs::codec::parse_value;
use wfrs::codec::signed_of_bits;
use wfrs::codec::state_from_frame;
use wfrs::codec::stored_and_read;
use wfrs::codec::unflattened;
use wfrs::codec::weigh_frame;
use wfrs::codec::weigh_list;
use wfrs::codec::weigh_lists;
use wfrs::codec::weigh_more;
use wfrs::codec::weigh_text;
use wfrs::codec::weigh_tokens;
use wfrs::codec::Frame;
use wfrs::codec::ARCHIVE_LIMIT;
use wfrs::codec::CodecError;
use wfrs::float::Float64;
use wfrs::instance::WorkflowInstance;
use wfrs::json::JsonNumber;
use wfrs::json::JsonObject;
use wfrs::json::JsonValue;
use wfrs::model::WorkflowDefinition;
use wfrs::state::State;

fn sample_value() -> JsonValue {
    let mut inner = JsonObject::new();
    inner.insert("text".to_string(), JsonValue::String("héllo ✓".to_string()));
    inner.insert("empty".to_string(), JsonValue::String(String::new()));
    inner.insert("pos".to_string(), JsonValue::Number(JsonNumber::PosInt(u64::MAX)));
    inner.insert("neg".to_string(), JsonValue::Number(JsonNumber::NegInt(i64::MIN)));
    inner.insert("minus".to_string(), JsonValue::Number(JsonNumber::NegInt(-1)));
    inner.insert(
        "float".to_string(),
        JsonValue::Number(JsonNumber::Float(Float64::from_bits(1.5f64.to_bits()))),
    );
    inner.insert(
        "nan".to_string(),
        JsonValue::Number(JsonNumber::Float(Float64::from_bits(f64::NAN.to_bits()))),
    );
    inner.insert("flag".to_string(), JsonValue::Bool(true));
    inner.insert("off".to_string(), JsonValue::Bool(false));
    inner.insert("nothing".to_string(), JsonValue::Null);
    inner.insert(
        "list".to_string(),
        JsonValue::Array(vec![
            JsonValue::Array(vec![]),
            JsonValue::map(),
            JsonValue::Array(vec![JsonValue::Null, JsonValue::Array(vec![JsonValue::Bool(false)])]),
        ]),
    );
    let mut root = JsonObject::new();
    root.insert("UT1".to_string(), JsonValue::Object(inner));
    root.insert("".to_string(), JsonValue::Null);
    JsonValue::Object(root)
}

fn sample_state() -> State {
    State {
        active: 4,
        current_tasks: vec![1, -1],
        current_flows: vec![2],
        visited_tasks: vec![0, 3, 4],
        visited_flows: vec![5, 5, 6],
        pending_tasks: vec![4],
        maybe_future_tasks: vec![],
        maybe_future_flows: vec![i32::MIN, i32::MAX],
        maybe_visited_tasks: vec![4, 7, 4],
        variables: sample_value(),
        completed: true,
        remote_id: Some("remote/ü".to_string()),
        remote_version: Some(-9),
    }
}

fn same(a: &JsonValue, b: &JsonValue) -> bool {
    match (a, b) {
        (JsonValue::Null, JsonValue::Null) => true,
        (JsonValue::Bool(x), JsonValue::Bool(y)) => x == y,
        (JsonValue::Number(JsonNumber::PosInt(x)), JsonValue::Number(JsonNumber::PosInt(y))) => x == y,
        (JsonValue::Number(JsonNumber::NegInt(x)), JsonValue::Number(JsonNumber::NegInt(y))) => x == y,
        (JsonValue::Number(JsonNumber::Float(x)), JsonValue::Number(JsonNumber::Float(y))) => {
            x.to_bits() == y.to_bits()
        }
        (JsonValue::String(x), JsonValue::String(y)) => x == y,
        (JsonValue::Array(x), JsonValue::Array(y)) => {
            x.len() == y.len() && x.iter().zip(y.iter()).all(|(p, q)| same(p, q))
        }
        (JsonValue::Object(x), JsonValue::Object(y)) => {
            x.entries.len() == y.entries.len()
                && x.entries.iter().zip(y.entries.iter()).all(|(p, q)| p.0 == q.0 && same(&p.1, &q.1))
        }
        _ => false,
    }
}

fn same_state(a: &State, b: &State) -> bool {
    a.active == b.active
        && a.current_tasks == b.current_tasks
        && a.current_flows == b.current_flows
        && a.visited_tasks == b.visited_tasks
        && a.visited_flows == b.visited_flows
        && a.pending_tasks == b.pending_tasks
        && a.maybe_future_tasks == b.maybe_future_tasks
        && a.maybe_future_flows == b.maybe_future_flows
        && a.maybe_visited_tasks == b.maybe_visited_tasks
        && same(&a.variables, &b.variables)
        && a.completed == b.completed
        && a.remote_id == b.remote_id
        && a.remote_version == b.remote_version
}

#[test]
fn state_comes_back_from_its_bytes() {
    let state = sample_state();
    let bytes = encode(&state).expect("bytes");
    assert!(!bytes.is_empty());
    let read = decode(&bytes).expect("a state");
    assert!(same_state(&state, &read));
    let again = stored_and_read(&state).expect("a state");
    assert!(same_state(&state, &again));

    let plain = State {
        active: -1,
        current_tasks: vec![],
        current_flows: vec![],
        visited_tasks: vec![],
        visited_flows: vec![],
        pending_tasks: vec![],
        maybe_future_tasks: vec![],
        maybe_future_flows: vec![],
        maybe_visited_tasks: vec![],
        variables: JsonValue::map(),
        completed: false,
        remote_id: None,
        remote_version: None,
    };
    let read = decode(&encode(&plain).expect("bytes")).expect("a state");
    assert!(same_state(&plain, &read));
    assert!(!same_state(&state, &read));
}

#[test]
fn bytes_are_the_same_for_the_same_state() {
    assert_eq!(encode(&sample_state()), encode(&sample_state()));
    let mut other = sample_state();
    other.active = 5;
    assert_ne!(encode(&sample_state()), encode(&other));
}

#[test]
fn bytes_read_from_any_place_in_memory() {
    let bytes = encode(&sample_state()).expect("bytes");
    let mut shifted = vec![0u8; bytes.len() + 3];
    for offset in 0..3 {
        shifted[offset..offset + bytes.len()].copy_from_slice(&bytes);
        let read = decode(&shifted[offset..offset + bytes.len()]).expect("a state");
        assert!(same_state(&sample_state(), &read));
    }
}

#[test]
fn bytes_that_hold_no_frame_are_refused() {
    assert_eq!(decode(&[]).err(), Some(CodecError::Schema));
    assert_eq!(decode(&[1, 2, 3]).err(), Some(CodecError::Schema));
    assert_eq!(decode(&[0xff; 64]).err(), Some(CodecError::Schema));
    let bytes = encode(&sample_state()).expect("bytes");
    assert_eq!(decode(&bytes[..bytes.len() - 1]).err(), Some(CodecError::Schema));
    assert_eq!(decode(&bytes[..bytes.len() / 2]).err(), Some(CodecError::Schema));
}

#[test]
fn frames_that_hold_no_state_are_refused() {
    let state = sample_state();
    let frame = frame_from_state(&state);
    assert_eq!(frame.2.len(), 8);
    assert_eq!(frame.0, (4, true, Some(-9)));
    assert_eq!(frame.1, Some("remote/ü".to_string()));
    assert!(same_state(&state, &state_from_frame(frame).expect("a state")));

    let mut short = frame_from_state(&state);
    short.2.pop();
    assert_eq!(state_from_frame(short).err(), Some(CodecError::Shape));
    let mut long = frame_from_state(&state);
    long.2.push(vec![]);
    assert_eq!(state_from_frame(long).err(), Some(CodecError::Shape));
    let mut cut = frame_from_state(&state);
    cut.3.pop();
    assert_eq!(state_from_frame(cut).err(), Some(CodecError::Shape));
    let mut more = frame_from_state(&state);
    more.3.push((0, 0, String::new()));
    assert_eq!(state_from_frame(more).err(), Some(CodecError::Shape));
    let mut none = frame_from_state(&state);
    none.3.clear();
    assert_eq!(state_from_frame(none).err(), Some(CodecError::Shape));
}

#[test]
fn values_come_back_from_their_tokens() {
    let value = sample_value();
    let tokens = flattened(&value);
    assert_eq!(tokens[0], (7, 2, String::new()));
    assert_eq!(tokens[1], (8, 0, "UT1".to_string()));
    assert_eq!(tokens[2], (7, 11, String::new()));
    let read = unflattened(&tokens).expect("a value");
    assert!(same(&value, &read));
    let (first, next) = parse_value(&tokens, 0).expect("a value");
    assert!(same(&value, &first));
    assert_eq!(next, tokens.len());
    let (text, next) = parse_value(&tokens, 4).expect("a value");
    assert!(matches!(text, JsonValue::String(s) if s == "héllo ✓"));
    assert_eq!(next, 5);
    assert!(parse_value(&tokens, tokens.len()).is_none());
    assert!(parse_value(&tokens, 1).is_none());

    assert_eq!(flattened(&JsonValue::Null), vec![(0, 0, String::new())]);
    assert_eq!(flattened(&JsonValue::Bool(true)), vec![(1, 1, String::new())]);
    assert_eq!(
        flattened(&JsonValue::Number(JsonNumber::NegInt(-1))),
        vec![(3, u64::MAX, String::new())]
    );
    assert_eq!(
        flattened(&JsonValue::Array(vec![JsonValue::String("x".to_string())])),
        vec![(6, 1, String::new()), (5, 0, "x".to_string())]
    );
}

#[test]
fn tokens_that_no_value_flattens_to_are_refused() {
    let blank = String::new;
    let refused: Vec<Vec<(u8, u64, String)>> = vec![
        vec![],
        vec![(0, 1, blank())],
        vec![(0, 0, "x".to_string())],
        vec![(1, 2, blank())],
        vec![(1, 0, "x".to_string())],
        vec![(2, 5, "x".to_string())],
        vec![(3, 5, "x".to_string())],
        vec![(4, 5, "x".to_string())],
        vec![(5, 1, "x".to_string())],
        vec![(6, 1, blank())],
        vec![(6, 0, "x".to_string())],
        vec![(6, 2, blank()), (0, 0, blank())],
        vec![(6, u64::MAX, blank()), (0, 0, blank())],
        vec![(7, 1, blank())],
        vec![(7, 1, blank()), (0, 0, blank())],
        vec![(7, 1, blank()), (8, 0, "k".to_string())],
        vec![(7, 1, blank()), (8, 1, "k".to_string()), (0, 0, blank())],
        vec![(7, 1, blank()), (5, 0, "k".to_string()), (0, 0, blank())],
        vec![(8, 0, "k".to_string())],
        vec![(9, 0, blank())],
        vec![(255, 0, blank())],
        vec![(0, 0, blank()), (0, 0, blank())],
    ];
    for tokens in refused {
        assert!(unflattened(&tokens).is_none(), "{:?}", tokens);
    }
    let accepted: Vec<Vec<(u8, u64, String)>> = vec![
        vec![(0, 0, blank())],
        vec![(1, 0, blank())],
        vec![(2, 5, blank())],
        vec![(3, u64::MAX, blank())],
        vec![(4, 5, blank())],
        vec![(5, 0, blank())],
        vec![(6, 0, blank())],
        vec![(7, 0, blank())],
        vec![(7, 1, blank()), (8, 0, blank()), (6, 1, blank()), (0, 0, blank())],
    ];
    for tokens in accepted {
        let value = unflattened(&tokens).expect("a value");
        assert_eq!(flattened(&value), tokens);
    }
}

#[test]
fn signed_integers_keep_their_bits() {
    for n in [0i64, 1, -1, 2, -2, i64::MAX, i64::MIN, i64::MIN + 1, 1 << 40, -(1 << 40)] {
        assert_eq!(bits_of_signed(n), n as u64);
        assert_eq!(signed_of_bits(n as u64), n);
    }
}

#[test]
fn instance_takes_a_state_from_bytes() {
    let definition = WorkflowDefinition {
        version: "1".to_string(),
        id: "p".to_string(),
        start_event: 0,
        parent: None,
        flows: vec![],
        flow_ids: vec![],
        tasks: vec![],
        task_ids: vec![],
        children: None,
        options: None,
    };
    let mut instance = WorkflowInstance::load(&definition, "e", None).expect("an instance");
    let bytes = encode(&sample_state()).expect("bytes");
    assert_eq!(instance.set_state(&bytes), Ok(()));
    assert!(same_state(&sample_state(), &instance.rt.instance.state().inner));
    assert_eq!(instance.state(), Ok(bytes.clone()));

    assert_eq!(instance.set_state(&[9, 9, 9]), Err(CodecError::Schema));
    assert!(same_state(&sample_state(), &instance.rt.instance.state().inner));
    assert_eq!(
        WorkflowInstance::load(&definition, "e", Some(&[1u8][..])).err(),
        Some(CodecError::Schema)
    );
    assert_eq!(
        WorkflowInstance::restore(&definition, "e", "r".to_string(), 1, &[]).err(),
        Some(CodecError::Schema)
    );
}

#[test]
fn frame_weighs_its_numbers_texts_and_parts() {
    let frame: Frame = (
        (0, false, None),
        Some("abc".to_string()),
        vec![vec![1, 2], vec![]],
        vec![(5, 0, "hé".to_string()), (0, 0, String::new())],
    );
    // 256 for the frame, 3 for the name, 16 + 8 and 16 for the lists,
    // 32 + 3 and 32 for the tokens.
    assert_eq!(weigh_frame(&frame), Some(256 + 3 + 24 + 16 + 35 + 32));
    let bare: Frame = ((0, false, None), None, vec![], vec![]);
    assert_eq!(weigh_frame(&bare), Some(256));

    assert_eq!(weigh_more(1, 2), Some(3));
    assert_eq!(weigh_more(ARCHIVE_LIMIT, 0), Some(ARCHIVE_LIMIT));
    assert_eq!(weigh_more(ARCHIVE_LIMIT, 1), None);
    assert_eq!(weigh_more(ARCHIVE_LIMIT + 1, 0), None);
    assert_eq!(weigh_more(usize::MAX, usize::MAX), None);
    assert_eq!(weigh_text("día", 10), Some(14));
    assert_eq!(weigh_text("", ARCHIVE_LIMIT), Some(ARCHIVE_LIMIT));
    assert_eq!(weigh_text("a", ARCHIVE_LIMIT), None);
    assert_eq!(weigh_list(&vec![7, 8, 9], 100), Some(128));
    assert_eq!(weigh_list(&vec![], ARCHIVE_LIMIT - 16), Some(ARCHIVE_LIMIT));
    assert_eq!(weigh_list(&vec![1], ARCHIVE_LIMIT - 19), None);
    assert_eq!(weigh_lists(&vec![vec![1], vec![2, 3]], 0), Some(20 + 24));
    assert_eq!(weigh_lists(&vec![], 5), Some(5));
    assert_eq!(weigh_tokens(&vec![(1, 1, "ab".to_string())], 1), Some(35));
    assert_eq!(weigh_tokens(&vec![], ARCHIVE_LIMIT + 1), None);
}

#[test]
fn archive_takes_no_more_than_the_frame_weighs() {
    let mut states = vec![sample_state()];
    let mut long = sample_state();
    long.visited_flows = (0..10_000).collect();
    long.remote_id = Some("r".repeat(5_000));
    long.variables = JsonValue::Array(
        (0..2_000).map(|i| JsonValue::String("t".repeat(i % 23))).collect(),
    );
    states.push(long);
    let mut bare = sample_state();
    bare.remote_id = None;
    bare.variables = JsonValue::Null;
    bare.visited_tasks.clear();
    states.push(bare);
    for state in states {
        let weight = weigh_frame(&frame_from_state(&state)).expect("a weight");
        let bytes = encode(&state).expect("bytes");
        assert!(bytes.len() <= weight, "{} > {}", bytes.len(), weight);
        assert!(same_state(&state, &decode(&bytes).expect("a state")));
    }
}

#[test]
fn state_too_heavy_to_archive_is_refused() {
    let mut heavy = sample_state();
    heavy.remote_id = Some("x".repeat(ARCHIVE_LIMIT - 255));
    heavy.variables = JsonValue::Null;
    assert_eq!(weigh_frame(&frame_from_state(&heavy)), None);
    assert_eq!(encode(&heavy), Err(CodecError::Archive));
    assert_eq!(stored_and_read(&heavy).err(), Some(CodecError::Archive));
}
