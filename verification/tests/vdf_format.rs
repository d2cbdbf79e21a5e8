use lib::lexer::{tokenize, Token};
use lib::parser::parse;
use lib::text::{compare_keys, is_space_char, KeyOrder};
use lib::value::{VdfMap, VdfValue};
use lib::writer::{escaped_len, size_hint_map};

fn s(x: &str) -> String {
    x.to_string()
}

fn str_of<'a>(m: &'a VdfMap, key: &str) -> Option<&'a str> {
    m.get(key).and_then(|v| v.get_str())
}

fn keys_of(m: &VdfMap) -> Vec<String> {
    let mut out = Vec::new();
    for i in 0..m.len() {
        out.push(m.key_at(i).clone());
    }
    out
}

#[test]
fn parse_flat_pairs() {
    let m = parse("\"a\" \"b\"\n\"c\"\t\"d\"").unwrap();
    assert_eq!(m.len(), 2);
    assert_eq!(str_of(&m, "a"), Some("b"));
    assert_eq!(str_of(&m, "c"), Some("d"));
    assert!(m.get("b").is_none());
}

#[test]
fn parse_nested_blocks_and_comments() {
    let text = "// loginusers\n\"users\"\n{\n\t\"765\"\n\t{\n\t\t\"AccountName\"\t\t\"bob\" // the login\n\t}\n}\n";
    let m = parse(text).unwrap();
    let users = m.get("users").unwrap();
    let user = users.get("765").unwrap();
    assert_eq!(user.get("AccountName").and_then(|v| v.get_str()), Some("bob"));
    assert!(users.get_str().is_none());
    assert!(user.get_obj().is_some());
}

#[test]
fn parse_bare_words() {
    let m = parse("key value\nother{inner x}").unwrap();
    assert_eq!(str_of(&m, "key"), Some("value"));
    let other = m.get("other").unwrap().get_obj().unwrap();
    assert_eq!(str_of(other, "inner"), Some("x"));
}

#[test]
fn parse_escapes_take_next_char() {
    let m = parse("\"k\\\"q\" \"a\\nb\\\\c\"").unwrap();
    assert_eq!(str_of(&m, "k\"q"), Some("anb\\c"));
}

#[test]
fn parse_later_key_wins() {
    let m = parse("\"a\" \"1\" \"b\" \"2\" \"a\" \"3\"").unwrap();
    assert_eq!(m.len(), 2);
    assert_eq!(str_of(&m, "a"), Some("3"));
    assert_eq!(keys_of(&m), vec![s("a"), s("b")]);
}

#[test]
fn parse_empty_input() {
    let m = parse("  \n // nothing here\n").unwrap();
    assert_eq!(m.len(), 0);
}

#[test]
fn parse_error_eof_after_key() {
    assert_eq!(parse("\"a\"").unwrap_err(), "expected value for key 'a', reached EOF");
}

#[test]
fn parse_error_unclosed_block() {
    assert_eq!(
        parse("\"a\" { \"b\" \"c\"").unwrap_err(),
        "expected '}' to close block for key 'a'"
    );
}

#[test]
fn parse_error_close_as_value() {
    assert_eq!(
        parse("\"x\" { \"a\" } }").unwrap_err(),
        "unexpected '}' as value for key 'a'"
    );
}

#[test]
fn parse_error_open_as_key() {
    assert_eq!(parse("{ }").unwrap_err(), "unexpected '{' where key was expected");
}

#[test]
fn parse_error_trailing_close() {
    assert_eq!(
        parse("\"a\" \"b\" }").unwrap_err(),
        "unexpected tokens after parsing root map completed"
    );
}

#[test]
fn parse_error_single_slash() {
    assert_eq!(parse("\"a\" /b").unwrap_err(), "unexpected single slash '/'");
}

#[test]
fn parse_error_unterminated_quote() {
    assert_eq!(parse("\"a\" \"b").unwrap_err(), "unterminated double quote");
    assert_eq!(parse("\"a\\\"").unwrap_err(), "unterminated double quote");
}

#[test]
fn tokenize_gives_tokens() {
    let ts = tokenize("\"a b\" { c } // x\r\nd").unwrap();
    assert_eq!(
        ts,
        vec![
            Token::Str(s("a b")),
            Token::OpenBrace,
            Token::Str(s("c")),
            Token::CloseBrace,
            Token::Str(s("d")),
        ]
    );
    assert_eq!(tokenize("x/").unwrap_err(), "unexpected single slash '/'");
}

#[test]
fn whitespace_matches_char_is_whitespace() {
    for u in 0u32..=0x10FFFF {
        if let Some(c) = char::from_u32(u) {
            assert_eq!(is_space_char(c), c.is_whitespace(), "char {:#x}", u);
        }
    }
}

#[test]
fn key_order_matches_string_order() {
    let samples = ["", "a", "b", "ab", "aa", "B", "é", "z", "Zebra", "zebra", "\u{1F600}", "a\u{0}"];
    for x in samples.iter() {
        for y in samples.iter() {
            let xs: Vec<char> = x.chars().collect();
            let ys: Vec<char> = y.chars().collect();
            let expected = match x.to_string().cmp(&y.to_string()) {
                std::cmp::Ordering::Less => KeyOrder::Less,
                std::cmp::Ordering::Equal => KeyOrder::Equal,
                std::cmp::Ordering::Greater => KeyOrder::Greater,
            };
            assert_eq!(compare_keys(&xs, &ys), expected, "{:?} vs {:?}", x, y);
        }
    }
}

#[test]
fn map_insert_get_remove() {
    let mut m = VdfMap::new();
    m.insert(s("b"), VdfValue::Str(s("2")));
    m.insert(s("a"), VdfValue::Str(s("1")));
    m.insert(s("c"), VdfValue::Obj(VdfMap::new()));
    assert_eq!(keys_of(&m), vec![s("a"), s("b"), s("c")]);
    m.insert(s("b"), VdfValue::Str(s("two")));
    assert_eq!(m.len(), 3);
    assert_eq!(str_of(&m, "b"), Some("two"));
    let removed = m.remove("a").unwrap();
    assert_eq!(removed.get_str(), Some("1"));
    assert!(m.get("a").is_none());
    assert!(m.remove("a").is_none());
    assert_eq!(keys_of(&m), vec![s("b"), s("c")]);
}

#[test]
fn map_get_mut_changes_value() {
    let mut m = parse("\"a\" { \"x\" \"1\" }").unwrap();
    {
        let a = m.get_mut("a").unwrap();
        let inner = a.get_obj_mut().unwrap();
        inner.insert(s("y"), VdfValue::Str(s("2")));
        let x = inner.get_mut("x").unwrap();
        *x = VdfValue::Str(s("one"));
    }
    assert_eq!(lib::writer::stringify(&m), "\"a\"\n{\n\t\"x\"\t\t\"one\"\n\t\"y\"\t\t\"2\"\n}\n");
    assert!(m.get_mut("zz").is_none());
}

#[test]
fn entry_or_insert_obj_creates_and_keeps() {
    let mut m = VdfMap::new();
    {
        let v = m.entry_or_insert_obj("k");
        v.get_obj_mut().unwrap().insert(s("a"), VdfValue::Str(s("b")));
    }
    {
        let v = m.entry_or_insert_obj("k");
        assert_eq!(v.get("a").and_then(|x| x.get_str()), Some("b"));
    }
    let mut n = parse("\"k\" \"str\"").unwrap();
    assert_eq!(n.entry_or_insert_obj("k").get_str(), Some("str"));
}

#[test]
fn value_accessors() {
    let mut v = VdfValue::Str(s("text"));
    assert_eq!(v.get_str(), Some("text"));
    assert!(v.get("a").is_none());
    assert!(v.get_obj().is_none());
    assert!(v.get_obj_mut().is_none());
    assert!(v.get_mut("a").is_none());
    let mut inner = VdfMap::new();
    inner.insert(s("a"), VdfValue::Str(s("b")));
    let mut o = VdfValue::Obj(inner);
    assert!(o.get_str().is_none());
    assert_eq!(o.get("a").and_then(|x| x.get_str()), Some("b"));
    assert_eq!(o.get_obj().unwrap().len(), 1);
    *o.get_mut("a").unwrap() = VdfValue::Str(s("c"));
    assert_eq!(o.get("a").and_then(|x| x.get_str()), Some("c"));
    o.get_obj_mut().unwrap().insert(s("d"), VdfValue::Str(s("e")));
    assert_eq!(o.get_obj().unwrap().len(), 2);
}

#[test]
fn stringify_layout() {
    let mut inner = VdfMap::new();
    inner.insert(s("d"), VdfValue::Str(s("e")));
    let mut m = VdfMap::new();
    m.insert(s("c"), VdfValue::Obj(inner));
    m.insert(s("a"), VdfValue::Str(s("b")));
    assert_eq!(lib::writer::stringify(&m), "\"a\"\t\t\"b\"\n\"c\"\n{\n\t\"d\"\t\t\"e\"\n}\n");
    assert_eq!(lib::writer::stringify(&VdfMap::new()), "");
}

#[test]
fn stringify_escapes() {
    let mut m = VdfMap::new();
    m.insert(s("k\"ey"), VdfValue::Str(s("x\\y\nz\r\t")));
    assert_eq!(lib::writer::stringify(&m), "\"k\\\"ey\"\t\t\"x\\\\y\\nz\\r\\t\"\n");
}

#[test]
fn stringify_deep_indent() {
    let m = parse("a { b { c d } }").unwrap();
    assert_eq!(
        lib::writer::stringify(&m),
        "\"a\"\n{\n\t\"b\"\n\t{\n\t\t\"c\"\t\t\"d\"\n\t}\n}\n"
    );
}

#[test]
fn parse_after_stringify_gives_same_map() {
    let text = "\"users\" { \"2\" { \"AccountName\" \"q\\\"uote\" \"Path\" \"C:\\\\Steam\" } \"1\" { } } \"Root\" \"v\"";
    let m = parse(text).unwrap();
    let out = lib::writer::stringify(&m);
    let again = parse(&out).unwrap();
    assert_eq!(lib::writer::stringify(&again), out);
    assert_eq!(
        again.get("users").unwrap().get("2").unwrap().get("AccountName").unwrap().get_str(),
        Some("q\"uote")
    );
    assert_eq!(
        again.get("users").unwrap().get("2").unwrap().get("Path").unwrap().get_str(),
        Some("C:\\Steam")
    );
}

#[test]
fn newline_in_value_does_not_survive() {
    let mut m = VdfMap::new();
    m.insert(s("a"), VdfValue::Str(s("x\ny")));
    let again = parse(&lib::writer::stringify(&m)).unwrap();
    assert_eq!(str_of(&again, "a"), Some("xny"));
}

#[test]
fn escaped_len_counts() {
    assert_eq!(escaped_len(""), 0);
    assert_eq!(escaped_len("abc"), 3);
    assert_eq!(escaped_len("a\"\\\n\r\t"), 11);
    assert_eq!(escaped_len("é"), 2);
    assert_eq!(escaped_len("€"), 3);
    assert_eq!(escaped_len("\u{1F600}"), 4);
}

#[test]
fn size_hint_values() {
    let mut m = VdfMap::new();
    m.insert(s("a"), VdfValue::Str(s("b")));
    assert_eq!(size_hint_map(&m, 0), 9);
    assert_eq!(size_hint_map(&m, 0), lib::writer::stringify(&m).len());
    assert_eq!(size_hint_map(&m, 2), 11);
    let n = parse("c { d e }").unwrap();
    assert_eq!(size_hint_map(&n, 0), 18);
    assert_eq!(size_hint_map(&n, 0), lib::writer::stringify(&n).len());
    assert_eq!(size_hint_map(&VdfMap::new(), 5), 0);
}

#[test]
fn escaped_len_is_bytes_plus_escapes() {
    for x in ["", "plain", "q\"b\\n\nr\rt\t", "\u{e9}\u{20ac}\u{1F600}\"", "a\u{0}b"] {
        let escapes = x.chars().filter(|c| matches!(c, '"' | '\\' | '\n' | '\r' | '\t')).count();
        assert_eq!(escaped_len(x), x.len() + escapes);
    }
}

#[test]
fn nested_text_is_indented_text() {
    let inner = parse("k v\nsub { a b }").unwrap();
    let flat = lib::writer::stringify(&inner);
    let mut outer = VdfMap::new();
    outer.insert(s("x"), VdfValue::Obj(inner));
    let mut expected = String::from("\"x\"\n{\n");
    for line in flat.lines() {
        expected.push('\t');
        expected.push_str(line);
        expected.push('\n');
    }
    expected.push_str("}\n");
    assert_eq!(lib::writer::stringify(&outer), expected);
}
