use lob::json::{from_value, parse, parse_simd, push_quoted_list, Json};

const TEXT: &str = r#"{"a":1,"b":-2,"c":1.5,"d":"x\n\"","e":[true,null,"y"],"f":{"g":18446744073709551615}}"#;

fn check(v: &Json) {
    assert_eq!(v.get_u64("a"), Some(1));
    assert_eq!(v.get_i64("a"), Some(1));
    assert_eq!(v.get_bits("a"), Some(1.0f64.to_bits()));
    assert_eq!(v.get_u64("b"), None);
    assert_eq!(v.get_i64("b"), Some(-2));
    assert_eq!(v.get_u64("c"), None);
    assert_eq!(v.get_bits("c"), Some(1.5f64.to_bits()));
    assert_eq!(v.get_str("d"), Some("x\n\""));
    let e = v.get("e").unwrap();
    assert_eq!(e.at(0).unwrap().as_bool(), Some(true));
    assert!(matches!(e.at(1), Some(Json::Null)));
    assert_eq!(e.str_at(2), Some("y"));
    assert!(e.at(3).is_none());
    assert_eq!(v.get_array("e").unwrap().len(), 3);
    assert_eq!(v.get("f").unwrap().get_u64("g"), Some(u64::MAX));
    assert_eq!(v.get("f").unwrap().get_i64("g"), None);
    assert!(v.get("z").is_none());
    assert!(e.get("a").is_none());
    assert_eq!(v.get_bool("a"), None);
    assert_eq!(v.get_str("a"), None);
}

#[test]
fn a_text_is_read_into_a_tree() {
    check(&parse(TEXT.as_bytes()).unwrap());
}

#[test]
fn the_fast_reader_reads_the_same_tree() {
    check(&parse_simd(TEXT.as_bytes().to_vec()).unwrap());
}

#[test]
fn what_is_no_json_is_nothing() {
    assert!(parse(b"{").is_none());
    assert!(parse(b"").is_none());
    assert!(parse_simd(b"[1,".to_vec()).is_none());
    assert!(parse_simd(b"nope".to_vec()).is_none());
}

#[test]
fn a_parsed_tree_is_copied() {
    let v: serde_json::Value = serde_json::from_str(TEXT).unwrap();
    check(&from_value(v));
}

#[test]
fn texts_are_quoted_as_json() {
    let mut s = String::from("x=");
    push_quoted_list(
        &mut s,
        &["a".to_string(), "q\"b\\".to_string(), "\u{1}\n\t\u{8}\u{c}\r/é".to_string()],
    );
    assert_eq!(s, "x=[\"a\",\"q\\\"b\\\\\",\"\\u0001\\n\\t\\b\\f\\r/é\"]");
    let mut none = String::new();
    push_quoted_list(&mut none, &[]);
    assert_eq!(none, "[]");
}
