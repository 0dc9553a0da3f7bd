use aish::json::{self, Json, Object};

#[test]
fn documents_read_back() {
    for s in [
        r#"{"a":[1,2.5,-3e2,true,null],"b":{"c":"d\"e\n\u0001é"}}"#,
        "[]",
        "\"x\"",
        "0",
    ] {
        let v = json::parse(s).unwrap();
        let t = json::to_compact(&v);
        let theirs: serde_json::Value = serde_json::from_str(s).unwrap();
        assert_eq!(t, theirs.to_string());
        assert_eq!(json::to_pretty(&v), serde_json::to_string_pretty(&theirs).unwrap());
        assert_eq!(json::to_compact(&json::parse(&t).unwrap()), t);
        assert_eq!(json::to_compact(&v.copy()), t);
    }
}

#[test]
fn broken_documents_are_refused_with_the_parser_s_words() {
    for s in ["", "{", "[1,]", "nope"] {
        let e = json::parse(s).unwrap_err();
        assert_eq!(e, serde_json::from_str::<serde_json::Value>(s).unwrap_err().to_string());
    }
}

#[test]
fn members_are_bound_and_found() {
    let mut o = Object::new();
    o.insert("b".into(), Json::Bool(true));
    o.insert("a".into(), Json::Str("x".into()));
    o.insert("b".into(), Json::Number("7".into()));
    assert_eq!(o.len(), 2);
    assert_eq!(o.key_at(0), "a");
    assert_eq!(o.get("b").unwrap().as_u64(), Some(7));
    assert!(o.get("c").is_none());
    let v = Json::Object(o);
    assert_eq!(json::to_compact(&v), r#"{"a":"x","b":7}"#);
    assert_eq!(v.str_member("a"), Some("x"));
    assert_eq!(v.str_member("b"), None);
    assert_eq!(v.get("b").unwrap().as_bool(), None);
    assert_eq!(Json::Number("-1".into()).as_u64(), None);
    assert_eq!(Json::Null.as_str(), None);
}

#[test]
fn strings_are_escaped_as_serde_json_does() {
    let s: String = (0u8..0x80).map(char::from).chain("é…🚀\u{7f}\u{2028}".chars()).collect();
    let ours = json::to_compact(&Json::Str(s.clone()));
    assert_eq!(ours, serde_json::to_string(&s).unwrap());
    assert!(!ours.contains('\n'));
    assert_eq!(json::to_compact(&Json::Str("\u{1}\u{8}\n\"\\".to_string())), r#""\u0001\b\n\"\\""#);
}

#[test]
fn parsed_numbers_are_written_as_numbers() {
    for s in ["0", "-0", "-0.0", "1E5", "2.5e-3", "1e300", "-1e-300", "18446744073709551615", "1e20"] {
        let Json::Number(n) = json::parse(s).unwrap() else { panic!("{s}") };
        assert!(!n.is_empty());
        assert!(n.chars().all(|c| c.is_ascii_digit() || "+-.eE".contains(c)), "{s}: {n}");
    }
    for s in ["1e400", "NaN", "Infinity", "-"] {
        assert!(json::parse(s).is_err(), "{s}");
    }
}
