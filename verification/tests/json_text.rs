use loupe::json::{FiniteF64, JsonNumber, JsonValue, quote_json_string};
use loupe::number::{f64_pattern_of, number_order_key};
use loupe::order::{compare_strings, compare_values};
use std::cmp::Ordering;

fn s(t: &str) -> JsonValue {
    JsonValue::Str(t.to_string())
}

fn n(u: u64) -> JsonValue {
    JsonValue::Number(JsonNumber::PosInt(u))
}

fn neg(i: i64) -> JsonValue {
    JsonValue::Number(JsonNumber::NegInt(i))
}

fn float(f: f64) -> JsonValue {
    JsonValue::Number(JsonNumber::Float { bits: FiniteF64::from_bits(f.to_bits()).unwrap(), text: serde_json::Number::from_f64(f).unwrap().to_string() })
}

fn obj(entries: Vec<(&str, JsonValue)>) -> JsonValue {
    JsonValue::Object(entries.into_iter().map(|(k, v)| (k.to_string(), v)).collect())
}

#[test]
fn text_of_nested_value_matches_serde_json() {
    let v = obj(vec![
        ("a", JsonValue::Array(vec![n(1), s("x"), JsonValue::Null, JsonValue::Bool(true)])),
        ("b", neg(-3)),
        ("c", float(1.5)),
        ("d", JsonValue::Object(vec![])),
    ]);
    let expected: serde_json::Value = serde_json::from_str(r#"{"a": [1, "x", null, true], "b": -3, "c": 1.5, "d": {}}"#).unwrap();
    assert_eq!(v.to_json_text(), expected.to_string());
    assert_eq!(v.to_json_text(), r#"{"a":[1,"x",null,true],"b":-3,"c":1.5,"d":{}}"#);
}

#[test]
fn string_literals_are_escaped() {
    assert_eq!(quote_json_string("plain"), "\"plain\"");
    assert_eq!(quote_json_string("a\"b\\c\n"), "\"a\\\"b\\\\c\\n\"");
    assert_eq!(quote_json_string(""), "\"\"");
}

#[test]
fn accessors_follow_serde_json() {
    let v = obj(vec![("code", n(0)), ("big", n(u64::MAX)), ("neg", neg(-5)), ("name", s("c1"))]);
    assert_eq!(v.field("code").as_i64(), Some(0));
    assert_eq!(v.field("big").as_i64(), None);
    assert_eq!(v.field("neg").as_i64(), Some(-5));
    assert!(matches!(v.field("missing"), JsonValue::Null));
    assert_eq!(v.field("name").as_str().map(|x| x.as_str()), Some("c1"));
    assert!(matches!(s("x").field("a"), JsonValue::Null));
    let arr = JsonValue::Array(vec![n(7)]);
    assert_eq!(arr.element_at(0).as_i64(), Some(7));
    assert!(matches!(arr.element_at(3), JsonValue::Null));
}

#[test]
fn integer_patterns_match_f64_conversion() {
    let samples: Vec<u64> = vec![
        0, 1, 2, 3, 10, 255, 1 << 52, (1 << 53) - 1, 1 << 53, (1 << 53) + 1, (1 << 53) + 2, (1 << 53) + 3,
        (1 << 54) + 2, (1 << 54) + 6, 123_456_789_012_345_678, 9_007_199_254_740_993, u64::MAX - 1024,
        u64::MAX - 1023, u64::MAX, 1 << 63, (1 << 63) + 1, 0x8000_0000_0000_0400, 0x8000_0000_0000_0c00,
    ];
    for u in samples {
        assert_eq!(f64_pattern_of(u), (u as f64).to_bits(), "pattern of {u}");
    }
}

#[test]
fn number_keys_order_like_f64() {
    let values = vec![neg(-1_000_000), float(-2.5), float(-0.0), n(0), float(0.25), n(1), float(1.5), n(u64::MAX)];
    for (i, a) in values.iter().enumerate() {
        for (j, b) in values.iter().enumerate() {
            let fa = a.to_json_text().parse::<f64>().unwrap();
            let fb = b.to_json_text().parse::<f64>().unwrap();
            assert_eq!(compare_values(a, b), fa.partial_cmp(&fb).unwrap(), "{i} vs {j}");
        }
    }
    // -0.0 and 0 are equal, large integers round like f64 does
    assert_eq!(compare_values(&float(-0.0), &n(0)), Ordering::Equal);
    assert_eq!(compare_values(&n((1 << 53) + 1), &n(1 << 53)), Ordering::Equal);
    // a JSON float is finite, as serde_json's numbers are
    assert!(FiniteF64::from_bits(f64::NAN.to_bits()).is_none());
    assert!(FiniteF64::from_bits(f64::INFINITY.to_bits()).is_none());
    assert!(FiniteF64::from_bits(f64::NEG_INFINITY.to_bits()).is_none());
    assert_eq!(FiniteF64::from_bits((-2.5f64).to_bits()).unwrap().to_bits(), (-2.5f64).to_bits());
    let half = JsonNumber::Float { bits: FiniteF64::from_bits(0.5f64.to_bits()).unwrap(), text: "0.5".to_string() };
    assert_eq!(number_order_key(&half), 0.5f64.to_bits() as i128);
    let minus_half = JsonNumber::Float { bits: FiniteF64::from_bits((-0.5f64).to_bits()).unwrap(), text: "-0.5".to_string() };
    assert_eq!(number_order_key(&minus_half), -(0.5f64.to_bits() as i128));
}

#[test]
fn kinds_order_numbers_strings_bools_others_nulls() {
    let ordered = vec![
        n(99),
        s("a"),
        JsonValue::Bool(false),
        JsonValue::Bool(true),
        JsonValue::Array(vec![n(1)]),
        JsonValue::Null,
    ];
    for i in 0..ordered.len() {
        for j in 0..ordered.len() {
            assert_eq!(compare_values(&ordered[i], &ordered[j]), i.cmp(&j), "{i} vs {j}");
        }
    }
    // same-kind compound values compare by their JSON text
    assert_eq!(compare_values(&JsonValue::Array(vec![n(2)]), &JsonValue::Array(vec![n(10)])), Ordering::Greater);
    assert_eq!(compare_values(&JsonValue::Array(vec![]), &obj(vec![])), Ordering::Less);
    assert_eq!(compare_values(&JsonValue::Null, &JsonValue::Null), Ordering::Equal);
}

#[test]
fn strings_compare_like_string_ord() {
    let words = ["", "a", "ab", "b", "Z", "é", "z", "ä"];
    for a in words {
        for b in words {
            assert_eq!(compare_strings(a, b), a.cmp(b), "{a} vs {b}");
        }
    }
}
