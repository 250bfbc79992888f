use props_rs::parser::{consume_key, consume_value, escaped_char_to_char, kv_line, Property};

/// The key read at the start of `input`, and what is left after it.
fn key_of(input: &[u8]) -> (String, &[u8]) {
    let (k, end) = consume_key(input, 0).unwrap();
    (k, &input[end..])
}

/// The value read at the start of `input`, and what is left after it.
fn value_of(input: &[u8]) -> (String, &[u8]) {
    let (v, end) = consume_value(input, 0);
    (v, &input[end..])
}

fn done(s: &str) -> (String, &'static [u8]) {
    (String::from(s), &b""[..])
}

#[test]
fn test_key() {
    assert_eq!(key_of(b"hello"), done("hello"));

    assert_eq!(key_of(b"hello world"), (String::from("hello"), &b" world"[..]));
    assert_eq!(key_of(b"hello:world"), (String::from("hello"), &b":world"[..]));
    assert_eq!(key_of(b"hello=world"), (String::from("hello"), &b"=world"[..]));
    assert_eq!(key_of(b"hello\nworld"), (String::from("hello"), &b"\nworld"[..]));
    assert_eq!(key_of(b"hello\rworld"), (String::from("hello"), &b"\rworld"[..]));

    assert_eq!(
        key_of(b"@#$%^&*()_+-`~?/.>,<|][{};\""),
        done("@#$%^&*()_+-`~?/.>,<|][{};\"")
    );

    assert_eq!(key_of(br"key\ with\ spaces"), done("key with spaces"));
    assert_eq!(key_of(br"key\:with\:colons"), done("key:with:colons"));
    assert_eq!(key_of(br"key\=with\=equals"), done("key=with=equals"));
    assert_eq!(
        key_of(br"now\nwith\rsome\fspecial\tcharacters\\"),
        done("now\nwith\rsome\u{c}special\tcharacters\\")
    );
    assert_eq!(
        key_of(br"w\iths\omeran\domch\arse\sca\pe\d"),
        done("withsomerandomcharsescaped")
    );

    assert!(consume_key(b"", 0).is_none());

    assert_eq!(key_of(b"abc\\\n   def"), done("abcdef"));
    assert_eq!(key_of(b"gh\\\n    \\\r    \\\r\nij\\\n\t kl"), done("ghijkl"));
}

#[test]
fn test_value() {
    assert_eq!(value_of(b"hello"), done("hello"));
    assert_eq!(value_of(b"h:l=o"), done("h:l=o"));
    assert_eq!(value_of(b"hello world  "), done("hello world  "));
    assert_eq!(
        value_of(b"/~`!@#$%^&*()-_=+[{]};:'\",<.>/?|"),
        done("/~`!@#$%^&*()-_=+[{]};:'\",<.>/?|")
    );

    assert_eq!(value_of(b"hello\nworld"), (String::from("hello"), &b"\nworld"[..]));
    assert_eq!(value_of(b"hello\rworld"), (String::from("hello"), &b"\rworld"[..]));

    assert_eq!(
        value_of(br"now\nwith\rsome\fspecial\tcharacters\\"),
        done("now\nwith\rsome\u{c}special\tcharacters\\")
    );
    assert_eq!(
        value_of(br"w\iths\omeran\domch\arse\sca\pe\d"),
        done("withsomerandomcharsescaped")
    );

    assert_eq!(value_of(b""), done(""));

    assert_eq!(value_of(b"abc\\\n   def"), done("abcdef"));
    assert_eq!(value_of(b"gh\\\n    \\\r    \\\r\nij\\\n\t kl"), done("ghijkl"));
}

#[test]
fn test_kv_line() {
    let parsed = kv_line(b"key=value", 0);
    assert_eq!(
        parsed.unwrap().0,
        Property { key: String::from("key"), value: String::from("value") }
    );
}

#[test]
fn key_rule_needs_a_character_first() {
    assert!(consume_key(b"=x", 0).is_none());
    assert!(consume_key(b"\\\nabc", 0).is_none());
    assert_eq!(consume_key(b"ab\\\n  =", 0), Some((String::from("ab"), 2)));
}

#[test]
fn value_rule_keeps_trailing_continuation() {
    assert_eq!(consume_value(b"ab\\\n  ", 0), (String::from("ab"), 6));
}

#[test]
fn kv_line_reports_where_it_ends() {
    let (p, end) = kv_line(b"  k : v\nnext", 0).unwrap();
    assert_eq!(p, Property { key: String::from("k"), value: String::from("v") });
    assert_eq!(end, 8);
    assert!(kv_line(b"k=v\\u", 0).is_none());
}

#[test]
fn escape_table() {
    assert_eq!(escaped_char_to_char(b't'), b'\t');
    assert_eq!(escaped_char_to_char(b'n'), b'\n');
    assert_eq!(escaped_char_to_char(b'f'), 0x0c);
    assert_eq!(escaped_char_to_char(b'r'), b'\r');
    assert_eq!(escaped_char_to_char(b'\\'), b'\\');
    assert_eq!(escaped_char_to_char(b'q'), b'q');
    assert_eq!(escaped_char_to_char(b':'), b':');
}
