use jsafe::arena::Arena;
use jsafe::value::Value;

fn text_of(a: &Arena, s: u64) -> String {
    a.string_text(s).unwrap()
}

#[test]
fn building_through_handles() {
    let mut a = Arena::new();
    let h = a.new_root();
    assert!(h != 0);
    a.set_property(h, "n", Some(Value::from_i64(1)));
    a.set_property(h, "z", None);
    a.get_property(h, "list");
    a.add(h, Some(Value::from_text("x")));
    a.add(h, None);
    let s = a.to_string(h);
    assert_eq!(text_of(&a, s), "{}");
    a.set_property(h, "q", Some(Value::Bool(true)));
    let s2 = a.to_string(h);
    assert_eq!(text_of(&a, s2), "{\"q\":true}");
}

#[test]
fn cursor_moves_and_writes_at_cursor() {
    let mut a = Arena::new();
    let h = a.from_str("{\"a\":[10,20,{\"b\":\"t\"}]}");
    a.get_property(h, "a");
    assert!(a.is_arr(h));
    assert_eq!(a.get_len(h), 3);
    a.add(h, Some(Value::from_i64(30)));
    assert_eq!(a.get_len(h), 4);
    a.get_index(h, 9);
    assert!(a.is_arr(h));
    a.get_index(h, 2);
    assert!(a.is_obj(h));
    assert!(a.has_key(h, "b"));
    a.get_property(h, "b");
    assert!(a.is_text(h));
    let t = a.get_text(h);
    assert_eq!(text_of(&a, t), "t");
    let other = a.from_str("[1]");
    let s = a.to_string(other);
    assert_eq!(text_of(&a, s), "[1]");
}

#[test]
fn typed_reads_at_cursor() {
    let mut a = Arena::new();
    let h = a.from_str("[2.5,true,null]");
    a.get_index(h, 0);
    assert!(a.is_num(h));
    assert_eq!(a.get_num(h).unwrap().as_str(), "2.5");
    assert!(!a.get_bool(h));
    assert_eq!(a.get_text(h), 0);
    let h2 = a.from_str("[2.5,true,null]");
    a.get_index(h2, 1);
    assert!(a.get_bool(h2));
    let h3 = a.from_str("[2.5,true,null]");
    a.get_index(h3, 2);
    assert!(a.is_null(h3));
    assert!(a.is_valid(h3));
    let bad = a.from_str("[1,");
    assert!(!a.is_valid(bad));
}

#[test]
fn pretty_text_at_cursor() {
    let mut a = Arena::new();
    let h = a.from_str("{\"a\":[1]}");
    let s = a.to_pretty(h, 2);
    assert_eq!(text_of(&a, s), "{\n  \"a\":[\n    1\n  ]\n}");
    let t = a.to_pretty(h, 0);
    assert_eq!(text_of(&a, t), "{\n\t\"a\":[\n\t\t1\n\t]\n}");
}

#[test]
fn freed_handle_gives_neutral_results() {
    let mut a = Arena::new();
    let h = a.from_str("{\"a\":[1,2]}");
    let g = a.from_str("[true]");
    a.free_value(h);
    assert_eq!(a.get_len(h), 0);
    assert!(!a.has_key(h, "a"));
    assert!(!a.is_valid(h));
    assert!(!a.is_obj(h));
    assert!(!a.is_null(h));
    assert!(!a.get_bool(h));
    assert!(a.get_num(h).is_none());
    assert_eq!(a.get_text(h), 0);
    a.get_property(h, "a");
    a.set_property(h, "b", None);
    a.add(h, None);
    a.get_index(h, 0);
    a.prealloc(h, 5);
    let s = a.to_string(h);
    assert_eq!(text_of(&a, s), "Null");
    let p = a.to_pretty(h, 2);
    assert_eq!(text_of(&a, p), "");
    let s2 = a.to_string(g);
    assert_eq!(text_of(&a, s2), "[true]");
    a.free_value(h);
    assert!(a.is_arr(g));
}

#[test]
fn freed_string_is_gone_and_others_stay() {
    let mut a = Arena::new();
    let h = a.new_root();
    let s1 = a.to_string(h);
    let s2 = a.to_string(h);
    a.free_string(s1);
    assert!(a.string_text(s1).is_none());
    assert_eq!(text_of(&a, s2), "{}");
    assert!(a.is_obj(h));
}

#[test]
fn cleanup_invalidates_every_handle() {
    let mut a = Arena::new();
    let h = a.new_root();
    let g = a.from_str("[1]");
    let s = a.to_string(g);
    a.cleanup();
    assert!(!a.is_valid(h));
    assert!(!a.is_valid(g));
    assert!(a.string_text(s).is_none());
    let n = a.new_root();
    assert!(n != h && n != g && n != s);
    assert!(a.is_obj(n));
    let t = a.to_string(h);
    assert_eq!(text_of(&a, t), "Null");
}

#[test]
fn handle_zero_holds_nothing() {
    let mut a = Arena::new();
    assert!(!a.is_valid(0));
    assert!(a.string_text(0).is_none());
    a.free_value(0);
    a.free_string(0);
    let h = a.new_root();
    assert!(a.is_valid(h));
}
