use security_monitor::schema::{event_schema, EventSchema, SchemaFault};
use serde_json::Value;

fn json(text: &str) -> Value {
    serde_json::from_str(text).unwrap()
}

fn fault(text: &str) -> SchemaFault {
    match event_schema(text) {
        Ok(_) => panic!("compiled"),
        Err(fault) => fault,
    }
}

#[test]
fn text_that_is_no_schema() {
    assert_eq!(fault(""), SchemaFault::NotJson);
    assert_eq!(fault("{"), SchemaFault::NotJson);
    assert_eq!(fault("5"), SchemaFault::NotASchema);
    assert_eq!(fault(r#"{"type":"strange"}"#), SchemaFault::NotASchema);
    assert_eq!(fault(r#"{"minimum":"0"}"#), SchemaFault::NotASchema);
}

#[test]
fn references_are_found_however_they_are_written() {
    assert_eq!(fault(r##"{"$ref":"#"}"##), SchemaFault::Refers);
    assert_eq!(fault(r##"{"\u0024ref":"#"}"##), SchemaFault::Refers);
    assert_eq!(
        fault(r##"{"properties":{"a":[{"$ref":"#/definitions/b"}]}}"##),
        SchemaFault::Refers
    );
    assert!(event_schema(r#"{"title":"$ref"}"#).is_err());
    assert!(event_schema(r#"{"title":"the $ref of it"}"#).is_ok());
}

#[test]
fn regular_expressions_are_refused() {
    for text in [
        r#"{"pattern":"(?(1)"}"#,
        r#"{"pattern":"a{4294967296}"}"#,
        r#"{"pattern":"aa{18446744073709551615}"}"#,
        r#"{"patternProperties":{"(?(1)":true}}"#,
        r#"{"format":"regex"}"#,
        r#"{"properties":{"a":{"\u0070attern":"^b"}}}"#,
    ] {
        assert_eq!(fault(text), SchemaFault::Patterned);
        match EventSchema::compile(&json(text)) {
            Ok(_) => panic!("compiled"),
            Err(fault) => assert_eq!(fault, SchemaFault::Patterned),
        }
    }
    // A reference is found first.
    assert_eq!(fault(r##"{"pattern":"a","items":{"$ref":"#"}}"##), SchemaFault::Refers);
    assert!(event_schema(r#"{"title":"a pattern","format":"date"}"#).is_ok());
}

#[test]
fn multiples_and_repeated_items() {
    let multiples = event_schema(r#"{"multipleOf":0.5}"#).unwrap();
    assert!(multiples.validate(&json("1.5")).is_empty());
    assert_eq!(multiples.validate(&json("1.2")), vec!["1.2 is not a multiple of 0.5"]);
    let unlike = event_schema(r#"{"uniqueItems":true}"#).unwrap();
    assert!(unlike.validate(&json("[1,2,3]")).is_empty());
    assert_eq!(unlike.validate(&json("[1,2,1]")), vec!["[1,2,1] has non-unique elements"]);
    // How numbers are written decides what may be claimed of them.
    assert_eq!(json("-0").to_string(), "-0.0");
    assert_eq!(json("1.5e300").to_string(), "1.5e+300");
    assert_eq!(json("1e16").to_string(), "1e+16");
    assert_eq!(Value::from(1e-200).to_string(), "1e-200");
    assert_eq!(Value::from(5e-324).to_string(), "5e-324");
    assert_eq!(Value::from(u64::MAX).to_string(), "18446744073709551615");
}

#[test]
fn schema_of_a_document() {
    let document = json(r#"{"type":"object","required":["a"]}"#);
    let schema = EventSchema::compile(&document).unwrap();
    assert!(schema.validate(&json(r#"{"a":1}"#)).is_empty());
    assert_eq!(schema.validate(&json("{}")), vec!["\"a\" is a required property"]);
    assert_eq!(schema.validate(&json("[1, 2]")), vec!["[1,2] is not of type \"object\""]);
    match EventSchema::compile(&json(r##"{"allOf":[{"$ref":"#"}]}"##)) {
        Ok(_) => panic!("compiled"),
        Err(fault) => assert_eq!(fault, SchemaFault::Refers),
    }
}

#[test]
fn every_objection_is_handed_out() {
    let schema = event_schema(
        r#"{
            "additionalProperties": false,
            "properties": { "a": { "maximum": 3 }, "b": { "maxLength": 2 } },
            "uniqueItems": true
        }"#,
    )
    .unwrap();
    let mut errors = schema.validate(&json(r#"{"a":4,"b":"long","c":0}"#));
    errors.sort();
    assert_eq!(
        errors,
        vec![
            "\"long\" is longer than 2 characters",
            "4 is greater than the maximum of 3",
            "Additional properties are not allowed ('c' was unexpected)",
        ]
    );
    assert!(event_schema("true").unwrap().validate(&json("null")).is_empty());
    assert_eq!(
        event_schema("false").unwrap().validate(&json("null")),
        vec!["False schema does not allow null"]
    );
}
