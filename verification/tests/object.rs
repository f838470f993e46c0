use draft::object::{Error, Key, Number, Object, ObjectMap};
use draft::{Compile, ObjectSyntax};

fn map_of(entries: Vec<(&str, Object)>) -> Object {
    let mut m = ObjectMap::new();
    for (k, v) in entries {
        m.insert(Key(k.to_string()), v);
    }
    Object::Mapping(m)
}

fn num(s: &str) -> Object {
    Object::Number(Number { literal: s.to_string() })
}

#[test]
fn parses_words() {
    assert!(matches!(Object::new("null"), Ok(Object::Null)));
    assert!(matches!(Object::new("true"), Ok(Object::Bool(true))));
    assert!(matches!(Object::new("false"), Ok(Object::Bool(false))));
}

#[test]
fn parses_quoted_strings() {
    match Object::new("'hi there'") {
        Ok(Object::String(s)) => assert_eq!(s, "hi there"),
        other => panic!("unexpected {:?}", other),
    }
    match Object::new("\"a\\\"b\"") {
        Ok(Object::String(s)) => assert_eq!(s, "a\"b"),
        other => panic!("unexpected {:?}", other),
    }
    match Object::new("'a\\\\b\\'c'") {
        Ok(Object::String(s)) => assert_eq!(s, "a\\b'c"),
        other => panic!("unexpected {:?}", other),
    }
}

#[test]
fn multi_line_string_is_unindented() {
    match Object::new("'\n    one\n    two'") {
        Ok(Object::String(s)) => assert_eq!(s, "one\ntwo"),
        other => panic!("unexpected {:?}", other),
    }
    match Object::new("'\n    one\n    two\n'") {
        Ok(Object::String(s)) => assert_eq!(s, "one\ntwo"),
        other => panic!("unexpected {:?}", other),
    }
}

#[test]
fn number_alone_reads_back() {
    let o = Object::new("-2.5e3").unwrap();
    assert_eq!(o.to_string(), "-2.5e3");
    assert_eq!(Object::new(&o.to_string()).unwrap().to_string(), "-2.5e3");
}

#[test]
fn number_spans_the_rest_of_the_line() {
    match Object::new("{a: 1.5\n}") {
        Ok(Object::Mapping(m)) => match m.get("a") {
            Some(Object::Number(n)) => assert_eq!(n.literal, "1.5"),
            other => panic!("unexpected {:?}", other),
        },
        other => panic!("unexpected {:?}", other),
    }
}

#[test]
fn number_runs_to_the_end_of_input() {
    match Object::new("12") {
        Ok(Object::Number(n)) => assert_eq!(n.literal, "12"),
        other => panic!("unexpected {:?}", other),
    }
    match Object::new("-2.5e3") {
        Ok(Object::Number(n)) => assert_eq!(n.literal, "-2.5e3"),
        other => panic!("unexpected {:?}", other),
    }
}

#[test]
fn invalid_number_literal() {
    match Object::new("1x\n") {
        Err(Error::InvalidNumber { pos, cause }) => {
            assert_eq!(pos, 0);
            assert_eq!(cause, "invalid float literal");
        }
        other => panic!("unexpected {:?}", other),
    }
}

#[test]
fn nan_is_refused() {
    match Object::new("{a: NaN\n}") {
        Err(Error::IllegalCharacter { ch, pos }) => {
            assert_eq!(ch, b'N');
            assert_eq!(pos, 4);
        }
        other => panic!("unexpected {:?}", other),
    }
    match Object::new("+NaN\n") {
        Err(Error::NumberIsNan { pos }) => assert_eq!(pos, 0),
        other => panic!("unexpected {:?}", other),
    }
}

#[test]
fn inf_words_are_numbers() {
    match Object::new("inf") {
        Ok(Object::Number(n)) => assert_eq!(n.literal, "inf"),
        other => panic!("unexpected {:?}", other),
    }
    match Object::new("{a: infinity, b: inf}") {
        Ok(Object::Mapping(m)) => {
            match m.get("a") {
                Some(Object::Number(n)) => assert_eq!(n.literal, "infinity"),
                other => panic!("unexpected {:?}", other),
            }
            match m.get("b") {
                Some(Object::Number(n)) => assert_eq!(n.literal, "inf"),
                other => panic!("unexpected {:?}", other),
            }
        }
        other => panic!("unexpected {:?}", other),
    }
    match Object::new("-inf\n") {
        Ok(Object::Number(n)) => assert_eq!(n.literal, "-inf"),
        other => panic!("unexpected {:?}", other),
    }
}

#[test]
fn list_allows_trailing_comma() {
    match Object::new("[true, false,]") {
        Ok(Object::List(items)) => {
            assert_eq!(items.len(), 2);
            assert!(matches!(items[0], Object::Bool(true)));
            assert!(matches!(items[1], Object::Bool(false)));
        }
        other => panic!("unexpected {:?}", other),
    }
    match Object::new("[]") {
        Ok(Object::List(items)) => assert!(items.is_empty()),
        other => panic!("unexpected {:?}", other),
    }
}

#[test]
fn map_entries_and_scopes() {
    match Object::new("{a: true, b.{x: null, y: 'z'}}") {
        Ok(Object::Mapping(m)) => {
            assert_eq!(m.len(), 3);
            assert!(matches!(m.get("a"), Some(Object::Bool(true))));
            assert!(matches!(m.get("b.x"), Some(Object::Null)));
            match m.get("b.y") {
                Some(Object::String(s)) => assert_eq!(s, "z"),
                other => panic!("unexpected {:?}", other),
            }
            assert!(m.get("b").is_none());
        }
        other => panic!("unexpected {:?}", other),
    }
}

#[test]
fn later_entry_wins() {
    match Object::new("{a: true, a: false}") {
        Ok(Object::Mapping(m)) => {
            assert_eq!(m.len(), 1);
            assert!(matches!(m.get("a"), Some(Object::Bool(false))));
        }
        other => panic!("unexpected {:?}", other),
    }
}

#[test]
fn error_missing_value() {
    assert!(matches!(Object::new(""), Err(Error::MissingValue { pos: 0 })));
    assert!(matches!(Object::new(";"), Err(Error::MissingValue { pos: 0 })));
}

#[test]
fn error_illegal_character() {
    assert!(matches!(Object::new("?"), Err(Error::IllegalCharacter { ch: b'?', pos: 0 })));
    assert!(matches!(Object::new("{a true}"), Err(Error::IllegalCharacter { ch: b't', pos: 3 })));
}

#[test]
fn error_missing_closer() {
    assert!(matches!(
        Object::new("'abc"),
        Err(Error::MissingCloser { open: b'\'', close: b'\'', open_pos: 0 })
    ));
    assert!(matches!(
        Object::new("{a: true"),
        Err(Error::MissingCloser { open: b'{', close: b'}', open_pos: 0 })
    ));
}

#[test]
fn error_invalid_utf8_in_string() {
    let bytes = [b'\'', 0xff, b'\''];
    let syntax = ObjectSyntax { input: &bytes, expr_mode: false };
    assert!(matches!(syntax.compile(), Err(Error::InvalidUtf8(_))));
}

#[test]
fn object_syntax_compiles_like_new() {
    let syntax = ObjectSyntax::new("[null]", false);
    assert!(!syntax.expr_mode);
    match syntax.compile() {
        Ok(Object::List(items)) => {
            assert_eq!(items.len(), 1);
            assert!(matches!(items[0], Object::Null));
        }
        other => panic!("unexpected {:?}", other),
    }
}

#[test]
fn key_checks() {
    assert!(Key::try_from("a".to_string()).is_ok());
    match Key::try_from("a.b-c_$2".to_string()) {
        Ok(k) => assert_eq!(k.as_str(), "a.b-c_$2"),
        Err(e) => panic!("unexpected {:?}", e),
    }
    match Key::try_from("ab=".to_string()) {
        Err(e) => {
            assert_eq!(e.pos, 2);
            assert_eq!(e.id, "ab=");
        }
        Ok(k) => panic!("unexpected {:?}", k),
    }
    match Key::try_from_str("ab c") {
        Err(e) => assert_eq!(e.pos, 2),
        Ok(k) => panic!("unexpected {:?}", k),
    }
    match Key::try_from_str("1a") {
        Err(e) => assert_eq!(e.pos, 0),
        Ok(k) => panic!("unexpected {:?}", k),
    }
}

#[test]
fn map_get_after_insert() {
    let mut m = ObjectMap::new();
    m.insert(Key("x".to_string()), Object::Null);
    m.insert(Key("y".to_string()), Object::Bool(true));
    m.insert(Key("x".to_string()), Object::Bool(false));
    assert_eq!(m.len(), 2);
    assert!(matches!(m.get("x"), Some(Object::Bool(false))));
    assert!(matches!(m.get("y"), Some(Object::Bool(true))));
    assert!(m.get("z").is_none());
    assert_eq!(m.find("y"), Some(1));
}

#[test]
fn one_line_text() {
    assert_eq!(Object::Null.to_string(), "null");
    assert_eq!(Object::Bool(true).to_string(), "true");
    assert_eq!(num("2.50").to_string(), "2.50");
    assert_eq!(Object::String("hi".to_string()).to_string(), "\"hi\"");
    let list = Object::List(vec![Object::Null, Object::Bool(false), Object::List(vec![])]);
    assert_eq!(list.to_string(), "[null,false,[]]");
}

#[test]
fn one_line_text_sorts_keys() {
    let m = map_of(vec![
        ("zeta", Object::Null),
        ("alpha", Object::Bool(true)),
        ("mid", map_of(vec![("b", Object::Null), ("a", Object::Null)])),
    ]);
    assert_eq!(m.to_string(), "{alpha:true,mid:{a:null,b:null},zeta:null}");
    assert_eq!(map_of(vec![]).to_string(), "{}");
}

#[test]
fn pretty_text() {
    assert_eq!(Object::List(vec![]).to_pstring(), "[]");
    assert_eq!(map_of(vec![]).to_pstring(), "{}");
    let list = Object::List(vec![Object::Null, Object::Bool(true)]);
    assert_eq!(list.to_pstring(), "[\n    null,\n    true,\n]");
    let single = map_of(vec![("k", Object::List(vec![Object::Null]))]);
    assert_eq!(single.to_pstring(), "{\n    k = [\n        null,\n],\n}");
}

#[test]
fn pretty_text_groups_scopes() {
    let m = map_of(vec![
        ("b.y", Object::Bool(false)),
        ("a", Object::Null),
        ("b.x", Object::Bool(true)),
    ]);
    assert_eq!(
        m.to_pstring(),
        "{\n    a = null,\n    b{\n        x = true,\n        y = false,\n    },\n}"
    );
}

#[test]
fn pretty_text_writes_lone_dotted_key_as_is() {
    let m = map_of(vec![("c", Object::Null), ("a.b", Object::Null)]);
    assert_eq!(m.to_pstring(), "{\n    a.b = null,\n    c = null,\n}");
}

#[test]
fn written_text_parses_back() {
    let o = map_of(vec![
        ("b", Object::List(vec![Object::Bool(true), Object::Null])),
        ("a.c", Object::String("x y".to_string())),
        ("d", map_of(vec![("e", Object::Bool(false))])),
    ]);
    let text = o.to_string();
    assert_eq!(text, "{a.c:\"x y\",b:[true,null],d:{e:false}}");
    let back = Object::new(&text).unwrap();
    assert_eq!(back.to_string(), text);
}

#[test]
fn pretty_text_at_depth() {
    let mut out = String::from(">");
    Object::List(vec![Object::Null]).pfmt(&mut out, 1);
    assert_eq!(out, ">[\n        null,\n]");
}

#[test]
fn parsed_then_written() {
    let o = Object::new("{b: 'x', a.{d: null, c: true}}").unwrap();
    assert_eq!(o.to_string(), "{a.c:true,a.d:null,b:\"x\"}");
    assert_eq!(
        o.to_pstring(),
        "{\n    a{\n        c = true,\n        d = null,\n    },\n    b = \"x\",\n}"
    );
}

#[test]
fn map_from_pairs() {
    let pairs = vec![
        ("a".to_string(), Object::Null),
        ("b.c".to_string(), Object::Bool(true)),
        ("a".to_string(), Object::Bool(false)),
    ];
    match Object::try_from_pairs(pairs) {
        Ok(Object::Mapping(m)) => {
            assert_eq!(m.len(), 2);
            assert!(matches!(m.get("a"), Some(Object::Bool(false))));
            assert!(matches!(m.get("b.c"), Some(Object::Bool(true))));
        }
        other => panic!("unexpected {:?}", other),
    }
    let bad = vec![
        ("ok".to_string(), Object::Null),
        ("1x".to_string(), Object::Null),
        ("2y".to_string(), Object::Null),
    ];
    match Object::try_from_pairs(bad) {
        Err(e) => {
            assert_eq!(e.id, "1x");
            assert_eq!(e.pos, 0);
        }
        other => panic!("unexpected {:?}", other),
    }
}
