use props_rs::{parse, to_map, ParseError, Property};

fn entry(key: &str, value: &str) -> Property {
    Property { key: String::from(key), value: String::from(value) }
}

#[test]
pub fn test_parse_simple() {
    let v = br"
property=test
property2=test
";
    let res = parse(v);
    assert_eq!(2, res.unwrap().len());
}

#[test]
pub fn test_broken_parse() {
    let v = br"=test
";
    assert_eq!(true, parse(v).is_err());
}

#[test]
pub fn test_map_conversion() {
    let v = br"
property=test
property2=test
property=t
";
    let res = to_map(parse(v).unwrap());
    assert_eq!(2, res.len());
    assert_eq!("t", res.get("property").unwrap());
    assert_eq!("test", res.get("property2").unwrap());
}

#[test]
fn simple_input_gives_entries_in_order() {
    let v = b"\nproperty=test\nproperty2=test\n";
    let props = parse(v).unwrap();
    assert_eq!(props, vec![entry("property", "test"), entry("property2", "test")]);
    let map = to_map(props);
    assert_eq!(2, map.len());
    assert_eq!("test", map.get("property").unwrap());
    assert_eq!("test", map.get("property2").unwrap());
}

#[test]
fn dotted_keys_and_trailing_blank_line() {
    let prop = br"key.1=value1
key.two=value2

";
    let props = parse(prop).unwrap();
    assert_eq!(2, props.len());
    assert_eq!(props[0].key, "key.1");
    assert_eq!(props[0].value, "value1");
    assert_eq!(props[1].key, "key.two");
    assert_eq!(props[1].value, "value2");
}

#[test]
fn comments_and_blank_lines_give_nothing() {
    let v = b"# a comment\n\n   \t\n  ! another: one=two\n\r\n#last";
    assert_eq!(parse(v), Ok(vec![]));
    assert_eq!(parse(b""), Ok(vec![]));
}

#[test]
fn bare_separator_is_an_error_at_the_start() {
    assert_eq!(parse(b"=test\n"), Err(ParseError { offset: 0 }));
    assert_eq!(parse(b"  :test\n"), Err(ParseError { offset: 0 }));
}

#[test]
fn error_offset_points_at_the_failing_line() {
    assert_eq!(parse(b"a=1\n=2\n"), Err(ParseError { offset: 4 }));
}

#[test]
fn escaped_colons_stay_in_the_key() {
    let props = parse(br"key\:with\:colons=value").unwrap();
    assert_eq!(props, vec![entry("key:with:colons", "value")]);
}

#[test]
fn continued_key_is_joined() {
    let props = parse(b"abc\\\n   def=v\n").unwrap();
    assert_eq!(props, vec![entry("abcdef", "v")]);
}

#[test]
fn separators_and_whitespace() {
    let props = parse(b"a = 1\nb:2\nc 3\n  d\t=\t 4  \ne\n").unwrap();
    assert_eq!(
        props,
        vec![entry("a", "1"), entry("b", "2"), entry("c", "3"), entry("d", "4  "), entry("e", "")]
    );
}

#[test]
fn only_one_separator_is_taken() {
    let props = parse(b"k==v\n").unwrap();
    assert_eq!(props, vec![entry("k", "=v")]);
}

#[test]
fn line_endings_of_each_kind() {
    let props = parse(b"a=1\r\nb=2\rc=3\nd=4").unwrap();
    assert_eq!(props, vec![entry("a", "1"), entry("b", "2"), entry("c", "3"), entry("d", "4")]);
}

#[test]
fn continued_value_is_joined() {
    let props = parse(b"k=one \\\n    two\\\n\nx=y\n").unwrap();
    assert_eq!(props, vec![entry("k", "one two"), entry("x", "y")]);
}

#[test]
fn high_bytes_read_as_latin1() {
    let props = parse(&[b'k', b'=', 0xA9]).unwrap();
    assert_eq!(props, vec![entry("k", "\u{a9}")]);
}

#[test]
fn escapes_in_values() {
    let props = parse(br"k=a\tb\nc\\d\qe").unwrap();
    assert_eq!(props, vec![entry("k", "a\tb\nc\\dqe")]);
}

#[test]
fn unicode_escape_is_not_read() {
    assert_eq!(parse(b"k=\\u0041"), Err(ParseError { offset: 0 }));
}

#[test]
fn repeated_keys_are_kept_by_parse() {
    let props = parse(b"a=1\na=2\n").unwrap();
    assert_eq!(props, vec![entry("a", "1"), entry("a", "2")]);
}

#[test]
fn map_of_nothing_is_empty() {
    let map = to_map(vec![]);
    assert_eq!(0, map.len());
    assert_eq!(None, map.get("a"));
}

#[test]
fn map_keeps_last_value_and_counts_distinct_keys() {
    let map = to_map(vec![entry("a", "1"), entry("b", "2"), entry("a", "3"), entry("c", "4"), entry("b", "5")]);
    assert_eq!(3, map.len());
    assert_eq!("3", map.get("a").unwrap());
    assert_eq!("5", map.get("b").unwrap());
    assert_eq!("4", map.get("c").unwrap());
    assert_eq!(None, map.get("d"));
}
