use wfrs::float::Float64;
use wfrs::jsep::Operator;
use wfrs::json::number_of_parts;
use wfrs::json::JsonKey;
use wfrs::json::JsonNumber;
use wfrs::json::JsonObject;
use wfrs::json::JsonValue;
use wfrs::text::bytes_equal;
use wfrs::text::bytes_less;
use wfrs::text::decimal;
use wfrs::text::str_equal;
use wfrs::text::str_less;

fn s(text: &str) -> JsonValue {
    JsonValue::String(text.to_string())
}

fn n(x: u64) -> JsonValue {
    JsonValue::Number(JsonNumber::PosInt(x))
}

fn fl(x: f64) -> JsonValue {
    JsonValue::Number(JsonNumber::Float(Float64::from_bits(x.to_bits())))
}

fn object(entries: Vec<(&str, JsonValue)>) -> JsonValue {
    let mut o = JsonObject::new();
    for (k, v) in entries {
        o.insert(k.to_string(), v);
    }
    JsonValue::Object(o)
}

#[test]
fn operators_are_read_from_their_spelling() {
    assert_eq!(Operator::parse("=="), Ok(Operator::Equal));
    assert_eq!(Operator::parse("!="), Ok(Operator::NotEqual));
    assert_eq!(Operator::parse(">"), Ok(Operator::Greater));
    assert_eq!(Operator::parse(">="), Ok(Operator::GreaterOrEqual));
    assert_eq!(Operator::parse("<"), Ok(Operator::Lower));
    assert_eq!(Operator::parse("<="), Ok(Operator::LowerOrEqual));
    assert_eq!(Operator::parse("&&"), Ok(Operator::And));
    assert_eq!(Operator::parse("||"), Ok(Operator::Or));
    assert_eq!(Operator::parse("+"), Err("Invalid operator '+'".to_string()));
    assert_eq!(Operator::parse(""), Err("Invalid operator ''".to_string()));
    assert_eq!(Operator::parse("==="), Err("Invalid operator '==='".to_string()));
    assert_eq!("<=".parse::<Operator>(), Ok(Operator::LowerOrEqual));
    assert_eq!("=".parse::<Operator>(), Err("Invalid operator '='".to_string()));
}

#[test]
fn numbers_are_printed_in_decimal() {
    for x in [0, 1, 9, 10, 11, 99, 100, 12345, i32::MAX, -1, -9, -10, -12345, i32::MIN] {
        assert_eq!(decimal(x), x.to_string());
    }
}

#[test]
fn strings_are_compared_by_their_bytes() {
    let samples = ["", "a", "A", "ab", "abc", "abd", "b", "é", "e", "z", "日本", "\u{10348}", "aa"];
    for a in samples {
        for b in samples {
            assert_eq!(str_equal(a, b), a == b, "{:?} == {:?}", a, b);
            assert_eq!(str_less(a, b), a < b, "{:?} < {:?}", a, b);
            assert_eq!(bytes_equal(a.as_bytes(), b.as_bytes()), a == b);
            assert_eq!(bytes_less(a.as_bytes(), b.as_bytes()), a.as_bytes() < b.as_bytes());
        }
    }
}

#[test]
fn accessors_tell_the_kinds_apart() {
    let values = vec![
        JsonValue::Null,
        JsonValue::Bool(true),
        n(7),
        JsonValue::Number(JsonNumber::NegInt(-7)),
        fl(0.25),
        s("text"),
        JsonValue::Array(vec![n(1), n(2)]),
        object(vec![("k", n(1))]),
    ];
    let kinds: Vec<[bool; 9]> = values
        .iter()
        .map(|v| {
            [
                v.is_null(),
                v.as_bool().is_some(),
                v.as_number().is_some(),
                v.as_u64().is_some(),
                v.as_i64().is_some(),
                v.as_f64().is_some(),
                v.as_str().is_some(),
                v.is_array() && v.as_array().is_some(),
                v.is_object() && v.as_object().is_some(),
            ]
        })
        .collect();
    assert_eq!(kinds[0], [true, false, false, false, false, false, false, false, false]);
    assert_eq!(kinds[1], [false, true, false, false, false, false, false, false, false]);
    assert_eq!(kinds[2], [false, false, true, true, false, false, false, false, false]);
    assert_eq!(kinds[3], [false, false, true, false, true, false, false, false, false]);
    assert_eq!(kinds[4], [false, false, true, false, false, true, false, false, false]);
    assert_eq!(kinds[5], [false, false, false, false, false, false, true, false, false]);
    assert_eq!(kinds[6], [false, false, false, false, false, false, false, true, false]);
    assert_eq!(kinds[7], [false, false, false, false, false, false, false, false, true]);
    assert_eq!(values[1].as_bool(), Some(true));
    assert_eq!(values[2].as_u64(), Some(7));
    assert_eq!(values[3].as_i64(), Some(-7));
    assert_eq!(values[4].as_f64().map(|f| f.to_bits()), Some(0.25f64.to_bits()));
    assert_eq!(values[5].as_str(), Some("text"));
    assert_eq!(values[6].as_array().map(|a| a.len()), Some(2));
    assert_eq!(values[7].as_object().map(|o| o.len()), Some(1));
    assert!(JsonValue::map().as_object().unwrap().len() == 0);
    assert_eq!(JsonKey("key".to_string()).as_ref(), "key");
}

#[test]
fn objects_keep_one_value_per_key() {
    let mut o = JsonObject::new();
    assert!(!o.insert("a".to_string(), n(1)));
    assert!(!o.insert("b".to_string(), n(2)));
    assert!(o.insert("a".to_string(), n(3)));
    assert_eq!(o.len(), 2);
    assert_eq!(o.position("a"), Some(0));
    assert_eq!(o.position("b"), Some(1));
    assert_eq!(o.position("c"), None);
    assert!(o.contains_key("b"));
    assert!(!o.contains_key("B"));
    assert_eq!(o.get("a").and_then(|v| v.as_u64()), Some(3));
    assert_eq!(o.get("b").and_then(|v| v.as_u64()), Some(2));
    assert!(o.get("c").is_none());

    let mut v = JsonValue::Object(o);
    v.as_object_mut().unwrap().insert("c".to_string(), s("x"));
    assert_eq!(v.as_object().unwrap().len(), 3);
    assert!(n(1).as_object_mut().is_none());

    let twice = JsonObject { entries: vec![("k".to_string(), n(1)), ("k".to_string(), n(2))] };
    assert_eq!(twice.get("k").and_then(|v| v.as_u64()), Some(1));
}

#[test]
fn values_are_the_same_by_content() {
    assert!(JsonValue::Null.same_as(&JsonValue::Null));
    assert!(JsonValue::Bool(true).same_as(&JsonValue::Bool(true)));
    assert!(!JsonValue::Bool(true).same_as(&JsonValue::Bool(false)));
    assert!(n(3).same_as(&fl(3.0)));
    assert!(n(3).same_as(&JsonValue::Number(JsonNumber::NegInt(3))));
    assert!(!n(3).same_as(&n(4)));
    assert!(!fl(f64::NAN).same_as(&fl(f64::NAN)));
    assert!(fl(0.0).same_as(&fl(-0.0)));
    assert!(s("B").same_as(&s("B")));
    assert!(!s("B").same_as(&s("b")));
    assert!(!s("1").same_as(&n(1)));
    assert!(!JsonValue::Null.same_as(&JsonValue::Bool(false)));
    assert!(!JsonValue::Bool(false).same_as(&n(0)));
    assert!(JsonValue::Array(vec![n(1), s("x")]).same_as(&JsonValue::Array(vec![fl(1.0), s("x")])));
    assert!(!JsonValue::Array(vec![n(1), s("x")]).same_as(&JsonValue::Array(vec![s("x"), n(1)])));
    assert!(!JsonValue::Array(vec![n(1)]).same_as(&JsonValue::Array(vec![n(1), n(1)])));
    assert!(JsonValue::Array(vec![]).same_as(&JsonValue::Array(vec![])));
    assert!(!JsonValue::Array(vec![]).same_as(&JsonValue::map()));
    let a = object(vec![("x", n(1)), ("y", object(vec![("z", s("deep"))]))]);
    let b = object(vec![("y", object(vec![("z", s("deep"))])), ("x", fl(1.0))]);
    let c = object(vec![("x", n(1)), ("y", object(vec![("z", s("other"))]))]);
    let d = object(vec![("x", n(1))]);
    let e = object(vec![("x", n(1)), ("w", n(2))]);
    assert!(a.same_as(&b));
    assert!(b.same_as(&a));
    assert!(!a.same_as(&c));
    assert!(!a.same_as(&d));
    assert!(!d.same_as(&a));
    assert!(!a.same_as(&e));
}

#[test]
fn values_are_ordered_within_their_kind() {
    assert!(n(2).less_than(&n(3)));
    assert!(!n(3).less_than(&n(3)));
    assert!(n(3).at_most(&n(3)));
    assert!(JsonValue::Number(JsonNumber::NegInt(-2)).less_than(&n(3)));
    assert!(fl(2.5).less_than(&n(3)));
    assert!(!fl(f64::NAN).at_most(&fl(f64::NAN)));
    assert!(s("a").less_than(&s("b")));
    assert!(s("a").less_than(&s("ab")));
    assert!(!s("b").less_than(&s("a")));
    assert!(s("b").at_most(&s("b")));
    assert!(!s("b").at_most(&s("a")));
    assert!(JsonValue::Bool(false).less_than(&JsonValue::Bool(true)));
    assert!(!JsonValue::Bool(true).less_than(&JsonValue::Bool(true)));
    assert!(JsonValue::Bool(true).at_most(&JsonValue::Bool(true)));
    assert!(!JsonValue::Bool(true).at_most(&JsonValue::Bool(false)));
    // Values of different kinds, nulls, arrays and objects have no order.
    assert!(!n(1).less_than(&s("2")));
    assert!(!s("1").less_than(&n(2)));
    assert!(!n(1).at_most(&s("1")));
    assert!(!JsonValue::Bool(false).less_than(&n(1)));
    assert!(!JsonValue::Null.at_most(&JsonValue::Null));
    assert!(!JsonValue::Null.less_than(&n(1)));
    assert!(!JsonValue::Array(vec![]).at_most(&JsonValue::Array(vec![])));
    assert!(!JsonValue::map().at_most(&JsonValue::map()));
}

#[test]
fn repeated_keys_are_told() {
    let twice = JsonObject { entries: vec![("a".to_string(), n(1)), ("a".to_string(), n(2))] };
    let apart = JsonObject { entries: vec![("a".to_string(), n(1)), ("b".to_string(), n(2))] };
    assert!(!twice.has_distinct_keys());
    assert!(apart.has_distinct_keys());
    assert!(JsonObject::new().has_distinct_keys());
    let late = JsonObject {
        entries: vec![
            ("a".to_string(), n(1)),
            ("b".to_string(), n(2)),
            ("c".to_string(), n(3)),
            ("b".to_string(), n(4)),
        ],
    };
    assert!(!late.has_distinct_keys());

    assert!(JsonValue::Null.is_well_keyed());
    assert!(s("x").is_well_keyed());
    assert!(JsonValue::Array(vec![]).is_well_keyed());
    assert!(object(vec![("x", object(vec![("y", n(1))]))]).is_well_keyed());
    let inner = JsonValue::Object(JsonObject {
        entries: vec![("a".to_string(), n(1)), ("a".to_string(), n(2))],
    });
    assert!(!inner.is_well_keyed());
    assert!(!JsonValue::Array(vec![n(1), object(vec![("deep", inner)])]).is_well_keyed());

    // Inserting keeps the keys distinct.
    let mut o = JsonObject::new();
    for key in ["a", "b", "a", "c", "b"] {
        o.insert(key.to_string(), n(0));
        assert!(o.has_distinct_keys());
    }
    assert_eq!(o.len(), 3);
}

#[test]
fn sameness_takes_no_side_where_keys_are_distinct() {
    let values = vec![
        JsonValue::Null,
        n(3),
        fl(3.0),
        s("3"),
        JsonValue::Array(vec![n(1), s("x")]),
        JsonValue::Array(vec![fl(1.0), s("x")]),
        object(vec![("x", n(1)), ("y", s("z"))]),
        object(vec![("y", s("z")), ("x", fl(1.0))]),
        object(vec![("x", n(1)), ("w", s("z"))]),
        object(vec![("x", n(1))]),
    ];
    for a in values.iter() {
        for b in values.iter() {
            assert!(a.is_well_keyed() && b.is_well_keyed());
            assert_eq!(a.same_as(b), b.same_as(a));
        }
    }
    // With a key held twice the side matters.
    let twice = JsonValue::Object(JsonObject {
        entries: vec![("a".to_string(), n(1)), ("a".to_string(), n(1))],
    });
    let apart = object(vec![("a", n(1)), ("b", n(1))]);
    assert!(twice.same_as(&apart));
    assert!(!apart.same_as(&twice));
}

#[test]
fn literal_numbers_keep_the_form_they_can_be_read_in() {
    let half = Float64::from_bits(0.5f64.to_bits());
    assert!(matches!(number_of_parts(Some(3), Some(3), Some(half)), JsonNumber::PosInt(3)));
    assert!(matches!(number_of_parts(Some(u64::MAX), None, None), JsonNumber::PosInt(u64::MAX)));
    assert!(matches!(number_of_parts(None, Some(-2), Some(half)), JsonNumber::NegInt(-2)));
    match number_of_parts(None, None, Some(half)) {
        JsonNumber::Float(f) => assert_eq!(f.to_bits(), 0.5f64.to_bits()),
        other => panic!("{:?}", other),
    }
    assert!(matches!(number_of_parts(None, None, None), JsonNumber::PosInt(0)));
}
