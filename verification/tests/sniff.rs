use dplock::crypto::encrypt_entry;
use dplock::json::{parse_json, Json};
use dplock::utils::{is_encrypted, json_looks_encrypted};

fn t(s: &str) -> Json {
    Json::Text(s.to_string())
}

fn obj(members: Vec<(&str, Json)>) -> Json {
    Json::Object(members.into_iter().map(|(k, v)| (k.to_string(), v)).collect())
}

// 32 zero bytes and 31 zero bytes in standard base64
const B64_32: &str = "AAAAAAAAAAAAAAAAAAAAAAAAAAAAAAAAAAAAAAAAAAA=";
const B64_31: &str = "AAAAAAAAAAAAAAAAAAAAAAAAAAAAAAAAAAAAAAAAAA==";

#[test]
fn parse_json_reads_every_kind_of_value() {
    let doc = parse_json(br#"{"b": [1, -2.5, true, null, "x"], "a": {"k": "v"}}"#).unwrap();
    assert_eq!(
        doc,
        obj(vec![
            ("a", obj(vec![("k", t("v"))])),
            (
                "b",
                Json::Array(vec![
                    Json::Number("1".to_string()),
                    Json::Number("-2.5".to_string()),
                    Json::Bool(true),
                    Json::Null,
                    t("x"),
                ])
            ),
        ])
    );
    assert_eq!(parse_json(b"{"), None);
    assert_eq!(parse_json(b""), None);
    assert_eq!(parse_json(b"[] trailing"), None);
    assert_eq!(parse_json(b"\"text\""), Some(t("text")));
}

#[test]
fn member_lookup() {
    let doc = obj(vec![("a", Json::Null), ("b", Json::Bool(true))]);
    assert_eq!(doc.get("b"), Some(&Json::Bool(true)));
    assert_eq!(doc.get("c"), None);
    assert_eq!(Json::Array(vec![]).get("a"), None);
    assert_eq!(t("a").get("a"), None);
}

#[test]
fn sealed_password_is_recognised() {
    let doc = obj(vec![(
        "entries",
        obj(vec![("github", Json::Array(vec![obj(vec![("username", t("a")), ("password", t(B64_32))])]))]),
    )]);
    assert!(json_looks_encrypted(&doc));
}

#[test]
fn thirty_one_bytes_are_not_enough() {
    let doc = obj(vec![(
        "entries",
        obj(vec![("github", Json::Array(vec![obj(vec![("password", t(B64_31))])]))]),
    )]);
    assert!(!json_looks_encrypted(&doc));
}

#[test]
fn one_sealed_entry_anywhere_is_enough() {
    let plain = obj(vec![("password", t("hunter2"))]);
    let sealed = obj(vec![("password", t(B64_32))]);
    let doc = obj(vec![(
        "entries",
        obj(vec![
            ("a", Json::Array(vec![plain])),
            ("b", Json::Null),
            ("c", Json::Array(vec![Json::Null, obj(vec![("password", Json::Bool(true))]), sealed])),
        ]),
    )]);
    assert!(json_looks_encrypted(&doc));
}

#[test]
fn other_shapes_do_not_look_encrypted() {
    assert!(!json_looks_encrypted(&Json::Null));
    assert!(!json_looks_encrypted(&obj(vec![])));
    assert!(!json_looks_encrypted(&obj(vec![("entries", Json::Array(vec![]))])));
    assert!(!json_looks_encrypted(&obj(vec![("entries", obj(vec![]))])));
    let not_under_entries =
        obj(vec![("other", obj(vec![("g", Json::Array(vec![obj(vec![("password", t(B64_32))])]))]))]);
    assert!(!json_looks_encrypted(&not_under_entries));
    let group_not_a_list = obj(vec![("entries", obj(vec![("g", obj(vec![("password", t(B64_32))]))]))]);
    assert!(!json_looks_encrypted(&group_not_a_list));
}

#[test]
fn is_encrypted_reads_bytes() {
    let sealed = format!(r#"{{"entries": {{"g": [{{"username": "u", "password": "{}"}}]}}}}"#, B64_32);
    assert!(is_encrypted(sealed.as_bytes()));
    let plain = br#"{"entries": {"g": [{"username": "u", "password": "hunter2"}]}}"#;
    assert!(!is_encrypted(plain));
    assert!(!is_encrypted(b"not json"));
    assert!(!is_encrypted(b""));
    assert!(!is_encrypted(b"[1, 2]"));
}

#[test]
fn exported_sealed_password_looks_encrypted() {
    let sealed = encrypt_entry("", "master").unwrap();
    let text = format!(r#"{{"entries": {{"g": [{{"password": "{}"}}]}}}}"#, sealed);
    assert!(is_encrypted(text.as_bytes()));
}
