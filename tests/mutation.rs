use svc_skill::{parse_key, KeyParseError, Mutation};

const TEXT: &str = "a1a2a3a4-b1b2-c1c2-d1d2-d3d4d5d6d7d8";
const VALUE: u128 = 0xa1a2a3a4b1b2c1c2d1d2d3d4d5d6d7d8;

#[test]
fn parse_key_reads_a_hyphenated_uuid() {
    assert_eq!(parse_key(TEXT), Ok(VALUE));
}

#[test]
fn parse_key_reads_a_simple_uuid() {
    assert_eq!(parse_key("a1a2a3a4b1b2c1c2d1d2d3d4d5d6d7d8"), Ok(VALUE));
}

#[test]
fn parse_key_rejects_malformed_text() {
    assert_eq!(parse_key("not-a-uuid"), Err(KeyParseError));
    assert_eq!(parse_key(""), Err(KeyParseError));
}

#[test]
fn create_skill_carries_the_parsed_coder() {
    let n = Mutation::create_skill(TEXT, "Rust".to_string(), "systems".to_string()).unwrap();
    assert_eq!(n.coder_id, VALUE);
    assert_eq!(n.title, "Rust");
    assert_eq!(n.description, "systems");
    let s = n.into_skill(42, 1_700_000_000_000_000);
    assert_eq!(s.id, 42);
    assert_eq!(s.coder_id(), VALUE);
    assert_eq!(s.title, "Rust");
    assert_eq!(s.created_at, 1_700_000_000_000_000);
}

#[test]
fn create_skill_rejects_a_malformed_coder() {
    assert_eq!(Mutation::create_skill("x", String::new(), String::new()), Err(KeyParseError));
}

#[test]
fn update_and_delete_parse_the_skill_id() {
    let u = Mutation::update_skill(TEXT, "new".to_string()).unwrap();
    assert_eq!(u.id, VALUE);
    assert_eq!(u.description, "new");
    assert_eq!(Mutation::delete_skill(TEXT), Ok(VALUE));
    assert_eq!(Mutation::delete_skill("123"), Err(KeyParseError));
    assert!(Mutation::update_skill("123", String::new()).is_err());
}
