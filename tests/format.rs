use jsafe::format::indent;
use jsafe::parse::parse;
use jsafe::value::Value;

#[test]
fn pretty_printing_indents_by_level() {
    let v = parse("{\"a\":1,\"b\":[2,3]}");
    let out = jsafe::format::format(v, 2, true);
    assert_eq!(out, "{\n  \"a\":1,\n  \"b\":[\n    2,\n    3\n  ]\n}");
    let lines: Vec<&str> = out.lines().collect();
    let lead = |s: &str| s.len() - s.trim_start_matches(' ').len();
    for i in 0..lines.len() {
        let l = lines[i].trim_end();
        if l.ends_with('{') || l.ends_with('[') {
            assert_eq!(lead(lines[i + 1]), lead(lines[i]) + 2);
            let closer = if l.ends_with('{') { '}' } else { ']' };
            let mut depth = 0i32;
            for j in (i + 1)..lines.len() {
                let t = lines[j].trim();
                if t.ends_with('{') || t.ends_with('[') {
                    depth += 1;
                }
                if t.starts_with('}') || t.starts_with(']') {
                    if depth == 0 {
                        assert!(t.starts_with(closer));
                        assert_eq!(lead(lines[j]), lead(lines[i]));
                        break;
                    }
                    depth -= 1;
                }
            }
        }
    }
}

#[test]
fn pretty_printing_with_tabs() {
    let v = parse("[1,{\"k\":null}]");
    assert_eq!(jsafe::format::format(v, 4, false), "[\n\t1,\n\t{\n\t\t\"k\":null\n\t}\n]");
}

#[test]
fn brackets_and_commas_in_strings_are_copied() {
    let v = parse("[\"{a,b}\"]");
    assert_eq!(jsafe::format::format(v, 1, true), "[\n \"{a,b}\"\n]");
}

#[test]
fn scalars_print_as_compact_text() {
    assert_eq!(jsafe::format::format(Value::from_i64(12), 2, true), "12");
    assert_eq!(jsafe::format::format(Value::Null, 2, true), "null");
}

#[test]
fn empty_containers_print_with_blank_indented_line() {
    assert_eq!(jsafe::format::format(Value::obj(), 2, true), "{\n  \n}");
}

#[test]
fn indentation_units() {
    let mut out: Vec<char> = Vec::new();
    indent(&mut out, 2, 3, true);
    assert_eq!(out.len(), 6);
    assert!(out.iter().all(|c| *c == ' '));
    let mut tabs: Vec<char> = Vec::new();
    indent(&mut tabs, 2, 3, false);
    assert_eq!(tabs, vec!['\t', '\t', '\t']);
}
