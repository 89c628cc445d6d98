use git_user::codec::{load, serialize};
use git_user::dispatch::{dispatch, Op, Outcome};
use git_user::store::Store;

fn add(store: &mut Store, profile: &str, name: Option<&str>, email: Option<&str>) {
    let op = Op::Add {
        profile: profile.to_string(),
        name: name.map(|s| s.to_string()),
        email: email.map(|s| s.to_string()),
    };
    match dispatch(store, op) {
        Ok(Outcome::Persist) => {}
        _ => panic!("add failed"),
    }
}

fn assert_same_store(a: &Store, b: &Store) {
    assert_eq!(a.len(), b.len());
    for i in 0..a.len() {
        assert_eq!(a.key_at(i), b.key_at(i));
        assert_eq!(a.profile_at(i).name, b.profile_at(i).name);
        assert_eq!(a.profile_at(i).email, b.profile_at(i).email);
    }
}

#[test]
fn round_trip_simple() {
    let mut store = Store::new();
    add(&mut store, "work", Some("Work Name"), Some("work@example.com"));
    add(&mut store, "home", Some("Home Name"), Some("home@example.com"));
    let text = serialize(&store);
    let loaded = load(text.as_str()).expect("round trip must load");
    assert_same_store(&store, &loaded);
    assert_eq!(serialize(&loaded), text);
}

#[test]
fn round_trip_empty_store() {
    let store = Store::new();
    let text = serialize(&store);
    assert_eq!(text, "");
    let loaded = load(text.as_str()).expect("empty text is a valid store");
    assert_eq!(loaded.len(), 0);
}

#[test]
fn round_trip_special_characters() {
    let mut store = Store::new();
    add(
        &mut store,
        "my key with spaces",
        Some("Name \"quoted\" back\\slash"),
        Some("line\nbreak@example.com"),
    );
    add(&mut store, "", Some("empty key"), Some("e@example.com"));
    add(&mut store, "unicode-\u{00e9}\u{4e16}", Some("caf\u{00e9}"), Some("u@example.com"));
    add(&mut store, "tabs\tand\rreturns", Some("t"), Some("t@example.com"));
    let text = serialize(&store);
    let loaded = load(text.as_str()).expect("escaped store must load");
    assert_same_store(&store, &loaded);
}

#[test]
fn serialized_form_is_exact() {
    let mut store = Store::new();
    add(&mut store, "work", Some("Work Name"), Some("work@example.com"));
    assert_eq!(
        serialize(&store),
        "[work]\nname = \"Work Name\"\nemail = \"work@example.com\"\n"
    );
}

#[test]
fn serialized_quoted_key_is_exact() {
    let mut store = Store::new();
    add(&mut store, "my key", Some("N"), Some("e@x"));
    assert_eq!(serialize(&store), "[\"my key\"]\nname = \"N\"\nemail = \"e@x\"\n");
}

#[test]
fn load_accepts_quoted_fields_and_blank_lines() {
    let text = "\n[alice]\n\"name\" = \"A\"\nemail = \"a@x\"\n\n";
    let store = load(text).expect("tolerant forms must load");
    assert_eq!(store.len(), 1);
    assert_eq!(store.key_at(0), "alice");
    assert_eq!(store.profile_at(0).name, "A");
    assert_eq!(store.profile_at(0).email, "a@x");
}

#[test]
fn load_tolerates_unknown_fields() {
    let text = "[alice]\nname = \"A\"\ncolor = \"green\"\nemail = \"a@x\"\n";
    let store = load(text).expect("unknown fields are tolerated");
    assert_eq!(store.len(), 1);
    assert_eq!(store.profile_at(0).name, "A");
    assert_eq!(store.profile_at(0).email, "a@x");
}

#[test]
fn load_decodes_escapes() {
    let text = "[\"a\\\"b\"]\nname = \"x\\\\y\"\nemail = \"e\\nf\\rg\"\n";
    let store = load(text).expect("escapes must decode");
    assert_eq!(store.key_at(0), "a\"b");
    assert_eq!(store.profile_at(0).name, "x\\y");
    assert_eq!(store.profile_at(0).email, "e\nf\rg");
}

#[test]
fn load_rejects_text_that_is_no_table() {
    assert!(load("not a table").is_err());
    assert!(load("42").is_err());
    assert!(load("name = \"x\"\n").is_err());
}

#[test]
fn load_rejects_missing_required_field() {
    assert!(load("[a]\nname = \"x\"\n").is_err());
    assert!(load("[a]\nemail = \"y\"\n").is_err());
    assert!(load("[a]\n").is_err());
}

#[test]
fn load_rejects_non_string_value() {
    assert!(load("[a]\nname = 3\nemail = \"y\"\n").is_err());
    assert!(load("[a]\nname = [\"x\"]\nemail = \"y\"\n").is_err());
}

#[test]
fn load_rejects_duplicates() {
    assert!(load("[a]\nname = \"x\"\nemail = \"y\"\n[a]\nname = \"x\"\nemail = \"y\"\n").is_err());
    assert!(load("[a]\nname = \"x\"\nname = \"z\"\nemail = \"y\"\n").is_err());
    assert!(load("[a]\nname = \"x\"\nemail = \"y\"\nemail = \"z\"\n").is_err());
}

#[test]
fn load_rejects_malformed_lines() {
    assert!(load("[a\nname = \"x\"\nemail = \"y\"\n").is_err());
    assert!(load("[a]]\nname = \"x\"\nemail = \"y\"\n").is_err());
    assert!(load("[a]\nname = \"x\nemail = \"y\"\n").is_err());
    assert!(load("[a]\nname = \"x\\qy\"\nemail = \"y\"\n").is_err());
    assert!(load("[a]\nname= \"x\"\nemail = \"y\"\n").is_err());
    assert!(load("[a]\nname = \"x\" \nemail = \"y\"\n").is_err());
    assert!(load("[]\nname = \"x\"\nemail = \"y\"\n").is_err());
}

#[test]
fn round_trip_keys_that_resemble_syntax() {
    let mut store = Store::new();
    add(&mut store, "name", Some("N1"), Some("1@x"));
    add(&mut store, "[x]", Some("N2"), Some("2@x"));
    add(&mut store, "a = b", Some("N3"), Some("3@x"));
    add(&mut store, "email", Some("N4"), Some("4@x"));
    let text = serialize(&store);
    let loaded = load(text.as_str()).expect("syntax-like keys must round trip");
    assert_same_store(&store, &loaded);
}

#[test]
fn loading_then_writing_normalizes_tolerant_forms() {
    let tolerant = "\n[\"alice\"]\nemail = \"a@x\"\nextra = \"z\"\n\"name\" = \"A\"\n";
    let store = load(tolerant).expect("tolerant text must load");
    assert_eq!(serialize(&store), "[alice]\nname = \"A\"\nemail = \"a@x\"\n");
}

#[test]
fn git_config_value_takes_first_line() {
    assert_eq!(git_user::gitcfg::get_git_name("Alice\n"), "Alice");
    assert_eq!(git_user::gitcfg::get_git_email("a@x\nrest\n"), "a@x");
    assert_eq!(git_user::gitcfg::get_git_name("Alice\r\nmore"), "Alice");
    assert_eq!(git_user::gitcfg::get_git_name(""), "");
    assert_eq!(git_user::gitcfg::get_git_name("a\rb\nc"), "a\rb");
    assert_eq!(git_user::gitcfg::get_git_name("plain"), "plain");
}
