use rp_core::index::push_decimal;
use rp_core::json::json_equal;
use rp_core::report_json::{parse_report_json, JsonValue, ReportJsonError, ReportJsonLimits};

fn parse(input: &str) -> Result<JsonValue, ReportJsonError> {
    parse_report_json(input.as_bytes(), &ReportJsonLimits::default())
}

fn to_serde(v: &JsonValue) -> serde_json::Value {
    match v {
        JsonValue::Null => serde_json::Value::Null,
        JsonValue::Bool(b) => serde_json::Value::Bool(*b),
        JsonValue::Number(n) => serde_json::from_str(n).unwrap(),
        JsonValue::Text(t) => serde_json::Value::String(t.clone()),
        JsonValue::Array(items) => serde_json::Value::Array(items.iter().map(to_serde).collect()),
        JsonValue::Object(entries) => {
            let mut map = serde_json::Map::new();
            for (k, v) in entries {
                map.insert(k.clone(), to_serde(v));
            }
            serde_json::Value::Object(map)
        }
    }
}

#[test]
fn accepts_json_controls_and_preserves_serde_json_number_semantics() {
    let input = r#" {"numbers":[-9223372036854775808,18446744073709551615,18446744073709551616,333333333.33333329,1E30,4.50,2e-3,-0,1e-999],"text":"€\u0000\n\t\"\\\/\ud83d\ude00","values":[null,true,false,{},[]]} "#;
    let actual = to_serde(&parse(input).unwrap());
    let expected: serde_json::Value = serde_json::from_str(input).unwrap();
    assert_eq!(actual, expected);
    assert_eq!(serde_jcs::to_string(&actual).unwrap(), serde_jcs::to_string(&expected).unwrap());
    assert_eq!(parse(" \r\n\t{} \r\n\t").unwrap(), JsonValue::Object(vec![]));
    assert!(parse(r#"{"a":{"x":1},"b":{"x":2},"é":0,"e\u0301":1,"A":2}"#).is_ok());
    assert!(parse(r#"{"text":"NaN Infinity --- # // /* {} [] \ufeff"}"#).is_ok());
}

#[test]
fn members_paths_and_pointers_follow_object_members() {
    let v = parse(r#"{"id":"n1","revision":{"parents":[{"id":"p"}],"kind":"question"},"n":7}"#).unwrap();
    assert_eq!(v.get("id").and_then(|x| x.as_str()), Some("n1"));
    assert!(v.get("missing").is_none());
    assert_eq!(
        v.at_path(&["revision", "kind"]).and_then(|x| x.as_str()),
        Some("question")
    );
    assert!(v.at_path(&["revision", "kind", "deeper"]).is_none());
    assert_eq!(v.at_path(&[]), Some(&v));
    assert_eq!(v.at_pointer(""), Some(&v));
    assert_eq!(
        v.at_pointer("/revision/kind").and_then(|x| x.as_str()),
        Some("question")
    );
    assert!(v.at_pointer("revision").is_none());
    let parents = v.at_pointer("/revision/parents").and_then(|x| x.as_array()).unwrap();
    assert_eq!(parents.len(), 1);
    assert_eq!(parents[0].get("id").and_then(|x| x.as_str()), Some("p"));
    assert!(v.get("n").unwrap().as_str().is_none());
    assert!(v.get("id").unwrap().as_array().is_none());
    assert!(JsonValue::Null.get("id").is_none());
}

#[test]
fn equality_compares_numbers_by_value_and_members_as_sets() {
    let a = parse(r#"{"x":1.0,"y":[true,"t",null]}"#).unwrap();
    let b = parse(r#"{"y":[true,"t",null],"x":1.00}"#).unwrap();
    let c = parse(r#"{"x":1.5,"y":[true,"t",null]}"#).unwrap();
    let d = parse(r#"{"x":1.0,"y":[true,"t"]}"#).unwrap();
    let e = parse(r#"{"x":1.0}"#).unwrap();
    assert!(json_equal(&a, &b));
    assert!(json_equal(&b, &a));
    assert!(!json_equal(&a, &c));
    assert!(!json_equal(&a, &d));
    assert!(!json_equal(&a, &e));
    assert!(!json_equal(&e, &a));
    assert!(json_equal(&JsonValue::Number("2e3".to_string()), &JsonValue::Number("2000.0".to_string())));
    assert!(!json_equal(&JsonValue::Number("1".to_string()), &JsonValue::Number("1.0".to_string())));
    assert!(!json_equal(&JsonValue::Text("1".to_string()), &JsonValue::Number("1".to_string())));
}

#[test]
fn decimals_are_written_without_padding() {
    for (n, expected) in [(0usize, "0"), (7, "7"), (10, "10"), (4096, "4096"), (usize::MAX, "18446744073709551615")] {
        let mut s = String::from("/items/");
        push_decimal(&mut s, n);
        assert_eq!(s, format!("/items/{expected}"));
    }
}
