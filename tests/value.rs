use jsafe::value::{Number, Value};

#[test]
fn auto_vivification_builds_nested_objects() {
    let mut r = Value::obj();
    *r.get_mut("a").get_mut("b") = Value::from_i64(5);
    assert!(r.get("a").is_object());
    let n = r.get("a").get("b").as_number().unwrap();
    assert_eq!(n.as_str(), "5");
    assert_eq!(r.to_string(), "{\"a\":{\"b\":5}}");
}

#[test]
fn array_growth_pads_with_null() {
    let mut a = Value::arr();
    *a.at_mut(3) = Value::from_text("x");
    assert_eq!(a.len(), 4);
    assert_eq!(a.at(3).as_text(), "x");
    for i in 0..3 {
        assert!(a.at(i).is_null());
    }
    assert_eq!(a.to_string(), "[null,null,null,\"x\"]");
}

#[test]
fn write_into_scalar_discards_it() {
    let mut v = Value::from_i64(7);
    *v.get_mut("k") = Value::Bool(true);
    assert_eq!(v.to_string(), "{\"k\":true}");
    let mut w = Value::Text(String::from("t"));
    *w.at_mut(0) = Value::Null;
    assert_eq!(w.to_string(), "[null]");
}

#[test]
fn missing_key_write_inserts_empty_object() {
    let mut v = Value::obj();
    let slot = v.get_mut("n");
    assert!(slot.is_object());
    assert_eq!(slot.len(), 0);
    assert!(v.has("n"));
}

#[test]
fn reads_of_wrong_kind_are_invalid() {
    let v = Value::from_i64(1);
    assert!(v.get("a").is_invalid());
    assert!(v.at(0).is_invalid());
    let a = Value::arr();
    assert!(a.at(0).is_invalid());
    let o = Value::obj();
    assert!(o.get("a").is_invalid());
    assert!(!o.has("a"));
    assert!(!v.has("a"));
}

#[test]
fn len_counts_children_and_scalars_have_none() {
    let mut o = Value::obj();
    o.add("x", Value::Null);
    o.add("y", Value::Null);
    assert_eq!(o.len(), 2);
    let mut a = Value::arr();
    a.append(Value::Null);
    assert_eq!(a.len(), 1);
    assert_eq!(Value::from_i64(3).len(), 0);
    assert_eq!(Value::Null.len(), 0);
}

#[test]
fn add_replaces_existing_key_in_place() {
    let mut o = Value::obj();
    o.add("a", Value::from_i64(1));
    o.add("b", Value::from_i64(2));
    o.add("a", Value::from_i64(3));
    assert_eq!(o.len(), 2);
    assert_eq!(o.to_string(), "{\"a\":3,\"b\":2}");
}

#[test]
fn append_and_add_on_wrong_kind_do_nothing() {
    let mut o = Value::obj();
    o.append(Value::Null);
    assert_eq!(o.to_string(), "{}");
    let mut a = Value::arr();
    a.add("k", Value::Null);
    assert_eq!(a.to_string(), "[]");
    let mut n = Value::Null;
    n.append(Value::Null);
    assert_eq!(n.to_string(), "null");
}

#[test]
fn pre_alloc_changes_nothing() {
    let mut a = Value::arr();
    a.append(Value::from_i64(1));
    a.pre_alloc(100);
    assert_eq!(a.to_string(), "[1]");
    let mut o = Value::obj();
    o.pre_alloc(10);
    assert_eq!(o.to_string(), "{}");
}

#[test]
fn compact_text_of_each_kind() {
    assert_eq!(Value::Invalid.to_string(), "INVALID");
    assert_eq!(Value::Null.to_string(), "null");
    assert_eq!(Value::Bool(true).to_string(), "true");
    assert_eq!(Value::Bool(false).to_string(), "false");
    assert_eq!(Value::from_i64(-42).to_string(), "-42");
    assert_eq!(Value::from_text("a b").to_string(), "\"a b\"");
    let mut a = Value::arr();
    a.append(Value::from_i64(2));
    a.append(Value::from_i64(3));
    let mut o = Value::obj();
    o.add("a", Value::from_i64(1));
    o.add("b", a);
    assert_eq!(o.to_string(), "{\"a\":1,\"b\":[2,3]}");
}

#[test]
fn numbers_from_integers() {
    assert_eq!(Number::from_i64(0).as_str(), "0");
    assert_eq!(Number::from_i64(1234567890).as_str(), "1234567890");
    assert_eq!(Number::from_i64(i64::MIN).as_str(), "-9223372036854775808");
    assert_eq!(Number::from_i64(i64::MAX).as_str(), "9223372036854775807");
}

#[test]
fn number_literals_are_checked() {
    assert!(Number::parse("12").is_some());
    assert!(Number::parse("-1.5e+3").is_some());
    assert!(Number::parse("1.").is_some());
    assert!(Number::parse("-.5").is_some());
    assert!(Number::parse("-5.").is_some());
    assert!(Number::parse("-.").is_none());
    assert!(Number::parse(".").is_none());
    assert!(Number::parse("-.e5").is_none());
    assert!(Number::parse("2E7").is_some());
    assert!(Number::parse("").is_none());
    assert!(Number::parse("-").is_none());
    assert!(Number::parse(".5").is_none());
    assert!(Number::parse("1e").is_none());
    assert!(Number::parse("1x").is_none());
    assert!(Number::parse("+1").is_none());
    assert_eq!(Number::parse("3.25").unwrap().as_str(), "3.25");
    assert_eq!(Number::parse("7").unwrap().copy().as_str(), "7");
}

#[test]
fn typed_reads_default_on_other_kinds() {
    assert_eq!(Value::Null.as_text(), "");
    assert!(!Value::Null.as_bool());
    assert!(Value::Bool(true).as_bool());
    assert!(Value::Null.as_number().is_none());
    assert!(Value::from_i64(1).is_number());
    assert!(Value::from_text("q").is_text());
    assert!(Value::arr().is_array());
    assert!(!Value::arr().is_object());
}

#[test]
fn as_ref_and_as_mut_reach_the_same_value() {
    let mut v = Value::arr();
    v.as_mut().append(Value::Null);
    assert_eq!(v.as_ref().len(), 1);
}
