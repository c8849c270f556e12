use rustytree::attrs::{clone_attrs, json_to_attr, number_value, AttrValue};
use serde_json::Value;

fn parsed(text: &str) -> Value {
    serde_json::from_str(text).expect("json")
}

#[test]
fn scalars_keep_their_kind() {
    assert!(matches!(json_to_attr(&parsed("null")), AttrValue::Null));
    assert!(matches!(json_to_attr(&parsed("true")), AttrValue::Bool(true)));
    assert!(matches!(json_to_attr(&parsed("\"m\"")), AttrValue::Text(s) if s == "m"));
}

#[test]
fn numbers_settle_on_the_first_form_that_fits() {
    assert!(matches!(json_to_attr(&parsed("-3")), AttrValue::Int(-3)));
    assert!(matches!(
        json_to_attr(&parsed("9223372036854775807")),
        AttrValue::Int(9_223_372_036_854_775_807)
    ));
    assert!(matches!(
        json_to_attr(&parsed("9223372036854775808")),
        AttrValue::Float(bits) if f64::from_bits(bits) == 9_223_372_036_854_775_808.0
    ));
    assert!(matches!(
        json_to_attr(&parsed("9223372036854775809")),
        AttrValue::Float(bits) if f64::from_bits(bits) == 9_223_372_036_854_775_808.0
    ));
    assert!(matches!(
        json_to_attr(&parsed("18446744073709551615")),
        AttrValue::Float(bits) if f64::from_bits(bits) == 18_446_744_073_709_551_616.0
    ));
    assert!(matches!(
        json_to_attr(&parsed("-9223372036854775808")),
        AttrValue::Int(-9_223_372_036_854_775_808)
    ));
    assert!(matches!(
        json_to_attr(&parsed("2.5")),
        AttrValue::Float(bits) if f64::from_bits(bits) == 2.5
    ));
    // Past 64 bits a number is a double, and so is one with a fraction of zero.
    assert!(matches!(
        json_to_attr(&parsed("18446744073709551616")),
        AttrValue::Float(bits) if f64::from_bits(bits) == 18_446_744_073_709_551_616.0
    ));
    assert!(matches!(
        json_to_attr(&parsed("1.0")),
        AttrValue::Float(bits) if f64::from_bits(bits) == 1.0
    ));
}

#[test]
fn a_number_without_a_form_is_refused() {
    match number_value(None, None, "1e999") {
        Err(m) => assert_eq!(m, "unrepresentable JSON number: 1e999"),
        Ok(_) => panic!("expected a refusal"),
    }
    assert!(matches!(number_value(Some(1), Some(9), "1"), Ok(AttrValue::Int(1))));
    assert!(matches!(number_value(None, Some(9), "1"), Ok(AttrValue::Float(9))));
}

#[test]
fn nested_values_keep_their_order() {
    match json_to_attr(&parsed(r#"{"b": [1, "x"], "a": {"k": null}}"#)) {
        AttrValue::Dict(entries) => {
            assert_eq!(entries[0].0, "b");
            assert!(matches!(
                &entries[0].1,
                AttrValue::List(items) if items.len() == 2
                    && matches!(items[0], AttrValue::Int(1))
                    && matches!(&items[1], AttrValue::Text(s) if s == "x")
            ));
            assert_eq!(entries[1].0, "a");
            assert!(matches!(
                &entries[1].1,
                AttrValue::Dict(inner) if inner.len() == 1 && inner[0].0 == "k"
            ));
        }
        _ => panic!("expected an object"),
    }
}

#[test]
fn attributes_come_in_the_order_of_their_names() {
    let entries = vec![
        ("units".to_string(), Value::from("m")),
        ("axis".to_string(), Value::from(1)),
        ("units".to_string(), Value::from("km")),
        ("Zone".to_string(), Value::from(true)),
    ];
    let attrs = clone_attrs(&entries);
    let names: Vec<&str> = attrs.iter().map(|(name, _)| name.as_str()).collect();
    assert_eq!(names, ["Zone", "axis", "units"]);
    // The last value for a name counts.
    assert!(matches!(&attrs[2].1, AttrValue::Text(s) if s == "km"));
    assert!(clone_attrs(&Vec::new()).is_empty());
}

#[test]
fn the_order_of_the_document_does_not_matter() {
    let names = |text: &str| -> Vec<String> {
        match parsed(text) {
            Value::Object(map) => {
                clone_attrs(&map.into_iter().collect()).into_iter().map(|(name, _)| name).collect()
            }
            _ => panic!("expected an object"),
        }
    };
    assert_eq!(names(r#"{"b": 1, "a": 2, "c": 3}"#), ["a", "b", "c"]);
    assert_eq!(names(r#"{"c": 3, "b": 1, "a": 2}"#), ["a", "b", "c"]);
}
