use git_user::store::{Profile, Store};

fn profile(name: &str, email: &str) -> Profile {
    Profile { name: name.to_string(), email: email.to_string() }
}

#[test]
fn new_store_is_empty() {
    let store = Store::new();
    assert_eq!(store.len(), 0);
    assert!(!store.has_profiles());
    assert!(!store.contains("a"));
}

#[test]
fn push_keeps_insertion_order() {
    let mut store = Store::new();
    store.push_new("b".to_string(), profile("NB", "b@x"));
    store.push_new("a".to_string(), profile("NA", "a@x"));
    assert_eq!(store.key_at(0), "b");
    assert_eq!(store.key_at(1), "a");
    assert!(store.has_profiles());
}

#[test]
fn insert_appends_new_and_overwrites_existing_in_place() {
    let mut store = Store::new();
    store.insert("a".to_string(), profile("N1", "1@x"));
    store.insert("b".to_string(), profile("NB", "b@x"));
    store.insert("a".to_string(), profile("N2", "2@x"));
    assert_eq!(store.len(), 2);
    assert_eq!(store.key_at(0), "a");
    assert_eq!(store.profile_at(0).name, "N2");
    assert_eq!(store.profile_at(0).email, "2@x");
    assert_eq!(store.key_at(1), "b");
}

#[test]
fn get_returns_the_stored_profile() {
    let mut store = Store::new();
    store.push_new("a".to_string(), profile("NA", "a@x"));
    assert!(store.contains("a"));
    let p = store.get("a");
    assert_eq!(p.name, "NA");
    assert_eq!(p.email, "a@x");
}

#[test]
fn remove_keeps_the_order_of_the_rest() {
    let mut store = Store::new();
    store.push_new("a".to_string(), profile("NA", "a@x"));
    store.push_new("b".to_string(), profile("NB", "b@x"));
    store.push_new("c".to_string(), profile("NC", "c@x"));
    store.remove("b");
    assert_eq!(store.len(), 2);
    assert_eq!(store.key_at(0), "a");
    assert_eq!(store.key_at(1), "c");
}

#[test]
fn rename_reinserts_under_the_new_key() {
    let mut store = Store::new();
    store.push_new("a".to_string(), profile("NA", "a@x"));
    store.push_new("c".to_string(), profile("NC", "c@x"));
    store.rename("a", "b".to_string());
    assert!(!store.contains("a"));
    assert!(store.contains("b"));
    assert_eq!(store.key_at(0), "c");
    assert_eq!(store.key_at(1), "b");
    assert_eq!(store.profile_at(1).name, "NA");
    assert_eq!(store.profile_at(1).email, "a@x");
}

#[test]
fn set_name_and_set_email_change_one_field_in_place() {
    let mut store = Store::new();
    store.push_new("a".to_string(), profile("NA", "a@x"));
    store.push_new("b".to_string(), profile("NB", "b@x"));
    store.set_name("a", "NA2".to_string());
    store.set_email("b", "b2@x".to_string());
    assert_eq!(store.key_at(0), "a");
    assert_eq!(store.profile_at(0).name, "NA2");
    assert_eq!(store.profile_at(0).email, "a@x");
    assert_eq!(store.profile_at(1).name, "NB");
    assert_eq!(store.profile_at(1).email, "b2@x");
}
