use jsafe::parse::{parse, parse_array, parse_object, parse_value};
use jsafe::text::remove_whitespace;
use jsafe::value::Value;

#[test]
fn malformed_input_is_invalid() {
    assert!(parse("{\"a\": }").is_invalid());
    assert!(parse("[1,2").is_invalid());
    assert!(parse("nul").is_invalid());
}

#[test]
fn more_malformed_input_is_invalid() {
    assert!(parse("").is_invalid());
    assert!(parse("[1,]").is_invalid());
    assert!(parse("[1]]").is_invalid());
    assert!(parse("{\"a\":1").is_invalid());
    assert!(parse("\"abc").is_invalid());
    assert!(parse("[\"a]").is_invalid());
    assert!(parse("fals").is_invalid());
    assert!(parse("tru").is_invalid());
    assert!(parse("{a:1}").is_invalid());
    assert!(parse("{\"a\"}").is_invalid());
    assert!(parse("[1,[2,x]]").is_invalid());
    assert!(parse("x").is_invalid());
    assert!(parse("1e").is_invalid());
}

#[test]
fn scalars_parse() {
    assert!(parse("null").is_null());
    assert!(parse("true").as_bool());
    assert_eq!(parse("false").to_string(), "false");
    assert_eq!(parse("-12.5e3").as_number().unwrap().as_str(), "-12.5e3");
    assert_eq!(parse("-.5").as_number().unwrap().as_str(), "-.5");
    assert!(parse(".5").is_invalid());
    assert_eq!(parse("\"hi there\"").as_text(), "hi there");
}

#[test]
fn whitespace_outside_strings_is_ignored() {
    let v = parse(" {\n \"a b\" : [ 1 , true ,\tnull ] } ");
    assert!(v.is_object());
    let a = v.get("a b");
    assert_eq!(a.len(), 3);
    assert_eq!(a.at(0).as_number().unwrap().as_str(), "1");
    assert!(a.at(1).as_bool());
    assert!(a.at(2).is_null());
    assert_eq!(v.to_string(), "{\"a b\":[1,true,null]}");
}

#[test]
fn empty_containers_parse() {
    assert_eq!(parse("[]").to_string(), "[]");
    assert_eq!(parse("{ }").to_string(), "{}");
    assert_eq!(parse("[[],{}]").to_string(), "[[],{}]");
}

#[test]
fn later_duplicate_key_wins_in_first_place() {
    let v = parse("{\"a\":1,\"b\":2,\"a\":3}");
    assert_eq!(v.len(), 2);
    assert_eq!(v.to_string(), "{\"a\":3,\"b\":2}");
}

#[test]
fn escaped_quotes_and_separators_stay_in_strings() {
    let v = parse("[\"a\\\"b\",\"x,y:{[\"]");
    assert_eq!(v.len(), 2);
    assert_eq!(v.at(0).as_text(), "a\\\"b");
    assert_eq!(v.at(1).as_text(), "x,y:{[");
}

#[test]
fn round_trip_of_a_built_tree() {
    let mut v = Value::obj();
    *v.get_mut("name") = Value::from_text("a, b: {c}");
    *v.get_mut("list").at_mut(2) = Value::from_i64(-3);
    *v.get_mut("deep").get_mut("x").get_mut("y") = Value::Bool(false);
    let text = v.to_string();
    let back = parse(&text);
    assert_eq!(back.to_string(), text);
    assert!(back.get("list").at(0).is_null());
}

#[test]
fn reading_twice_changes_nothing() {
    for text in ["{\"a\" : [1, 2.50, {\"b\":null}]}", "[1,2", "\"q\"", "  -0 "] {
        let once = parse(&parse(text).to_string());
        let twice = parse(&once.to_string());
        assert_eq!(once.to_string(), twice.to_string());
    }
}

#[test]
fn invalid_reads_back_as_invalid() {
    let v = parse("[1,2");
    assert_eq!(v.to_string(), "INVALID");
    assert!(parse(&v.to_string()).is_invalid());
}

#[test]
fn entry_points_by_kind() {
    assert!(parse_object("[1]").is_invalid());
    assert!(parse_object(" {\"a\":1}").is_object());
    assert!(parse_array("{\"a\":1}").is_invalid());
    assert_eq!(parse_array(" [1, 2]").len(), 2);
    assert!(Value::from_str("{}").is_object());
    assert!(Value::from_str("5").is_invalid());
    assert!(parse_value("5").is_number());
}

#[test]
fn whitespace_removal_keeps_quoted_text() {
    let cs: Vec<char> = " { \"a b\" : 1 } ".chars().collect();
    let out: String = remove_whitespace(&cs).into_iter().collect();
    assert_eq!(out, "{\"a b\":1}");
}

#[test]
fn whitespace_class_matches_std() {
    for u in 0u32..0x3100 {
        if let Some(c) = char::from_u32(u) {
            assert_eq!(jsafe::text::is_whitespace(c), c.is_whitespace(), "{:x}", u);
        }
    }
}

#[test]
fn unicode_whitespace_is_stripped_outside_strings() {
    let v = parse("[\u{3000}1,\u{a0}\"\u{2003}x\"]");
    assert_eq!(v.len(), 2);
    assert_eq!(v.at(1).as_text(), "\u{2003}x");
}
