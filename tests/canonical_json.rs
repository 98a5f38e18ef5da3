use ruma_canonical::{CanonicalJsonError, CanonicalJsonValue, JsonNumber, JsonValue};

fn from_serde(v: &serde_json::Value) -> JsonValue {
    match v {
        serde_json::Value::Null => JsonValue::Null,
        serde_json::Value::Bool(b) => JsonValue::Bool(*b),
        serde_json::Value::Number(n) => JsonValue::Number(if let Some(u) = n.as_u64() {
            JsonNumber::PosInt(u)
        } else if let Some(i) = n.as_i64() {
            JsonNumber::NegInt(i)
        } else {
            JsonNumber::Float
        }),
        serde_json::Value::String(s) => JsonValue::String(s.clone()),
        serde_json::Value::Array(a) => JsonValue::Array(a.iter().map(from_serde).collect()),
        serde_json::Value::Object(m) => JsonValue::Object(
            m.iter().map(|(k, v)| (k.clone(), from_serde(v))).collect(),
        ),
    }
}

fn parse(text: &str) -> JsonValue {
    from_serde(&serde_json::from_str::<serde_json::Value>(text).unwrap())
}

fn convert_text(text: &str) -> Result<CanonicalJsonValue, CanonicalJsonError> {
    CanonicalJsonValue::try_from_json(&parse(text))
}

fn number(n: u64) -> JsonValue {
    JsonValue::Number(JsonNumber::PosInt(n))
}

#[test]
fn key_ordering() {
    let doc = JsonValue::Object(vec![("b".to_string(), number(1)), ("a".to_string(), number(2))]);
    let v = CanonicalJsonValue::try_from_json(&doc).unwrap();
    assert_eq!(v.to_canonical_string(), "{\"a\":2,\"b\":1}");
}

#[test]
fn key_ordering_from_text() {
    let v = convert_text("{\"b\":1,\"a\":2}").unwrap();
    assert_eq!(v.to_canonical_string(), "{\"a\":2,\"b\":1}");
}

#[test]
fn keys_sort_by_bytes() {
    let doc = JsonValue::Object(vec![
        ("b".to_string(), number(1)),
        ("B".to_string(), number(2)),
        ("ab".to_string(), number(3)),
        ("a".to_string(), number(4)),
        ("é".to_string(), number(5)),
        ("".to_string(), number(6)),
    ]);
    let v = CanonicalJsonValue::try_from_json(&doc).unwrap();
    assert_eq!(
        v.to_canonical_string(),
        "{\"\":6,\"B\":2,\"a\":4,\"ab\":3,\"b\":1,\"é\":5}"
    );
}

#[test]
fn duplicate_key_later_wins() {
    let doc = JsonValue::Object(vec![
        ("k".to_string(), number(1)),
        ("z".to_string(), number(2)),
        ("k".to_string(), number(3)),
    ]);
    let v = CanonicalJsonValue::try_from_json(&doc).unwrap();
    assert_eq!(
        v,
        CanonicalJsonValue::Object(vec![
            ("k".to_string(), CanonicalJsonValue::Integer(3)),
            ("z".to_string(), CanonicalJsonValue::Integer(2)),
        ])
    );
    assert_eq!(v.to_canonical_string(), "{\"k\":3,\"z\":2}");
}

#[test]
fn integer_bound() {
    assert_eq!(convert_text("9223372036854775808"), Err(CanonicalJsonError::IntConvert));
    assert_eq!(convert_text("42"), Ok(CanonicalJsonValue::Integer(42)));
}

#[test]
fn integer_safe_range_edges() {
    assert_eq!(
        convert_text("9007199254740991"),
        Ok(CanonicalJsonValue::Integer(9007199254740991))
    );
    assert_eq!(
        convert_text("-9007199254740991"),
        Ok(CanonicalJsonValue::Integer(-9007199254740991))
    );
    assert_eq!(convert_text("9007199254740992"), Err(CanonicalJsonError::IntConvert));
    assert_eq!(convert_text("-9007199254740992"), Err(CanonicalJsonError::IntConvert));
    let big_negative = JsonValue::Number(JsonNumber::NegInt(i64::MIN));
    assert_eq!(
        CanonicalJsonValue::try_from_json(&big_negative),
        Err(CanonicalJsonError::IntConvert)
    );
}

#[test]
fn fractional_number_fails() {
    assert_eq!(convert_text("1.5"), Err(CanonicalJsonError::IntConvert));
    assert_eq!(
        CanonicalJsonValue::try_from_json(&JsonValue::Number(JsonNumber::Float)),
        Err(CanonicalJsonError::IntConvert)
    );
}

#[test]
fn one_bad_number_voids_everything() {
    assert_eq!(convert_text("[1, 2, 3.25, 4]"), Err(CanonicalJsonError::IntConvert));
    assert_eq!(
        convert_text("{\"a\": {\"b\": [true, 18446744073709551615]}, \"c\": 1}"),
        Err(CanonicalJsonError::IntConvert)
    );
}

#[test]
fn exact_rendering() {
    let v = convert_text("{\"city\":\"London\",\"street\":\"10 Downing Street\"}").unwrap();
    assert_eq!(
        v.to_canonical_string(),
        "{\"city\":\"London\",\"street\":\"10 Downing Street\"}"
    );
}

#[test]
fn rendering_has_no_whitespace() {
    let v = convert_text("{ \"x\" : [ 1 , -2 , null , true , false , \"s\" ] , \"e\" : { } , \"f\" : [ ] }")
        .unwrap();
    assert_eq!(
        v.to_canonical_string(),
        "{\"e\":{},\"f\":[],\"x\":[1,-2,null,true,false,\"s\"]}"
    );
}

#[test]
fn scalars_render() {
    assert_eq!(CanonicalJsonValue::Null.to_canonical_string(), "null");
    assert_eq!(CanonicalJsonValue::Bool(true).to_canonical_string(), "true");
    assert_eq!(CanonicalJsonValue::Bool(false).to_canonical_string(), "false");
    assert_eq!(CanonicalJsonValue::Integer(0).to_canonical_string(), "0");
    assert_eq!(CanonicalJsonValue::Integer(-17).to_canonical_string(), "-17");
    assert_eq!(
        CanonicalJsonValue::Integer(-9007199254740991).to_canonical_string(),
        "-9007199254740991"
    );
    assert_eq!(CanonicalJsonValue::Integer(1200).to_canonical_string(), "1200");
}

#[test]
fn strings_are_quoted_and_escaped() {
    let v = CanonicalJsonValue::String("a\"b\\c\nd".to_string());
    assert_eq!(v.to_canonical_string(), "\"a\\\"b\\\\c\\nd\"");
    let w = CanonicalJsonValue::String("plain".to_string());
    assert_eq!(w.to_canonical_string(), "\"plain\"");
}

#[test]
fn conversion_of_each_kind() {
    assert_eq!(convert_text("null"), Ok(CanonicalJsonValue::Null));
    assert_eq!(convert_text("true"), Ok(CanonicalJsonValue::Bool(true)));
    assert_eq!(
        convert_text("\"a string\""),
        Ok(CanonicalJsonValue::String("a string".to_string()))
    );
    assert_eq!(
        convert_text("[\"an\", \"array\"]"),
        Ok(CanonicalJsonValue::Array(vec![
            CanonicalJsonValue::String("an".to_string()),
            CanonicalJsonValue::String("array".to_string()),
        ]))
    );
    assert_eq!(
        convert_text("{\"an\": \"object\"}"),
        Ok(CanonicalJsonValue::Object(vec![(
            "an".to_string(),
            CanonicalJsonValue::String("object".to_string())
        )]))
    );
}

#[test]
fn round_trip_through_text() {
    let text = "{\"z\":[1,{\"y\":\"q\\\"uote\",\"b\":null}],\"a\":{\"n\":-5,\"t\":true},\"m\":\"\\u00e9\\n\"}";
    let v = convert_text(text).unwrap();
    let rendered = v.to_canonical_string();
    let again = convert_text(&rendered).unwrap();
    assert_eq!(again, v);
    assert_eq!(again.to_canonical_string(), rendered);
}
