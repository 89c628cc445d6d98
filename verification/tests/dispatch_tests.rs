use git_user::codec::serialize;
use git_user::dispatch::{
    default_email, default_selection, dispatch, needs_git, render_listing, selection_items, Op,
    Outcome, UserError,
};
use git_user::store::Store;

fn add(store: &mut Store, profile: &str, name: Option<&str>, email: Option<&str>) {
    let op = Op::Add {
        profile: profile.to_string(),
        name: name.map(|s| s.to_string()),
        email: email.map(|s| s.to_string()),
    };
    match dispatch(store, op) {
        Ok(Outcome::Persist) => {}
        _ => panic!("add failed"),
    }
}

#[test]
fn add_derives_defaults() {
    let mut store = Store::new();
    add(&mut store, "alice", None, None);
    assert_eq!(store.profile_at(0).name, "alice");
    assert_eq!(store.profile_at(0).email, "alice@users.noreply.github.com");
}

#[test]
fn add_derives_email_from_given_name() {
    let mut store = Store::new();
    add(&mut store, "alice", Some("Alice A"), None);
    assert_eq!(store.profile_at(0).name, "Alice A");
    assert_eq!(store.profile_at(0).email, "Alice A@users.noreply.github.com");
}

#[test]
fn default_email_is_exact() {
    assert_eq!(default_email("bob"), "bob@users.noreply.github.com");
}

#[test]
fn add_new_profile_grows_store_by_one() {
    let mut store = Store::new();
    add(&mut store, "a", None, None);
    assert!(store.contains("a"));
    assert_eq!(store.len(), 1);
    add(&mut store, "b", None, None);
    assert!(store.contains("b"));
    assert_eq!(store.len(), 2);
}

#[test]
fn add_existing_profile_is_rejected_without_mutation() {
    let mut store = Store::new();
    add(&mut store, "a", Some("N"), Some("e@x"));
    let before = serialize(&store);
    let r = dispatch(
        &mut store,
        Op::Add { profile: "a".to_string(), name: None, email: None },
    );
    match r {
        Err(UserError::AlreadyExists { profile }) => {
            assert_eq!(profile, "a");
        }
        _ => panic!("existing profile must be rejected"),
    }
    assert_eq!(serialize(&store), before);
    assert_eq!(store.len(), 1);
    assert_eq!(store.profile_at(0).name, "N");
}

#[test]
fn remove_missing_profile_is_rejected_without_mutation() {
    let mut store = Store::new();
    add(&mut store, "a", None, None);
    let before = serialize(&store);
    let r = dispatch(&mut store, Op::Remove { profile: "ghost".to_string() });
    match r {
        Err(UserError::NotFound { profile }) => assert_eq!(profile, "ghost"),
        _ => panic!("missing profile must be rejected"),
    }
    assert_eq!(serialize(&store), before);
}

#[test]
fn remove_deletes_only_the_named_profile() {
    let mut store = Store::new();
    add(&mut store, "a", None, None);
    add(&mut store, "b", None, None);
    let r = dispatch(&mut store, Op::Remove { profile: "a".to_string() });
    assert!(matches!(r, Ok(Outcome::Persist)));
    assert_eq!(store.len(), 1);
    assert!(!store.contains("a"));
    assert!(store.contains("b"));
}

#[test]
fn rename_to_existing_name_leaves_store_unchanged() {
    let mut store = Store::new();
    add(&mut store, "a", Some("NA"), Some("a@x"));
    add(&mut store, "b", Some("NB"), Some("b@x"));
    let before = serialize(&store);
    let r = dispatch(
        &mut store,
        Op::Rename { old_name: "a".to_string(), new_name: "b".to_string() },
    );
    match r {
        Err(UserError::AlreadyExists { profile }) => assert_eq!(profile, "b"),
        _ => panic!("rename onto an existing profile must be rejected"),
    }
    assert_eq!(serialize(&store), before);
    assert_eq!(store.profile_at(0).name, "NA");
    assert_eq!(store.profile_at(1).name, "NB");
}

#[test]
fn rename_missing_profile_is_rejected() {
    let mut store = Store::new();
    add(&mut store, "a", None, None);
    let before = serialize(&store);
    let r = dispatch(
        &mut store,
        Op::Rename { old_name: "ghost".to_string(), new_name: "b".to_string() },
    );
    match r {
        Err(UserError::NotFound { profile }) => assert_eq!(profile, "ghost"),
        _ => panic!("renaming a missing profile must be rejected"),
    }
    assert_eq!(serialize(&store), before);
}

#[test]
fn rename_keeps_field_values() {
    let mut store = Store::new();
    add(&mut store, "work", Some("Work Name"), Some("work@example.com"));
    let r = dispatch(
        &mut store,
        Op::Rename { old_name: "work".to_string(), new_name: "job".to_string() },
    );
    assert!(matches!(r, Ok(Outcome::Persist)));
    assert_eq!(store.len(), 1);
    assert!(!store.contains("work"));
    assert!(store.contains("job"));
    assert_eq!(store.profile_at(0).name, "Work Name");
    assert_eq!(store.profile_at(0).email, "work@example.com");
}

#[test]
fn set_name_and_set_email_overwrite_one_field() {
    let mut store = Store::new();
    add(&mut store, "a", Some("N"), Some("e@x"));
    let r = dispatch(
        &mut store,
        Op::SetName { profile: "a".to_string(), value: "N2".to_string() },
    );
    assert!(matches!(r, Ok(Outcome::Persist)));
    assert_eq!(store.profile_at(0).name, "N2");
    assert_eq!(store.profile_at(0).email, "e@x");
    let r = dispatch(
        &mut store,
        Op::SetEmail { profile: "a".to_string(), value: "f@y".to_string() },
    );
    assert!(matches!(r, Ok(Outcome::Persist)));
    assert_eq!(store.profile_at(0).name, "N2");
    assert_eq!(store.profile_at(0).email, "f@y");
}

#[test]
fn set_field_on_missing_profile_is_rejected() {
    let mut store = Store::new();
    let r = dispatch(
        &mut store,
        Op::SetName { profile: "ghost".to_string(), value: "N".to_string() },
    );
    assert!(matches!(r, Err(UserError::NotFound { .. })));
    let r = dispatch(
        &mut store,
        Op::SetEmail { profile: "ghost".to_string(), value: "e@x".to_string() },
    );
    assert!(matches!(r, Err(UserError::NotFound { .. })));
}

#[test]
fn apply_hands_out_the_profile_identity() {
    let mut store = Store::new();
    add(&mut store, "work", Some("Work Name"), Some("work@example.com"));
    let r = dispatch(&mut store, Op::Apply { profile: "work".to_string() });
    match r {
        Ok(Outcome::SetIdentity { name, email }) => {
            assert_eq!(name, "Work Name");
            assert_eq!(email, "work@example.com");
        }
        _ => panic!("apply of an existing profile must succeed"),
    }
    assert_eq!(store.len(), 1);
}

#[test]
fn apply_of_missing_profile_reports_not_found() {
    let mut store = Store::new();
    let r = dispatch(&mut store, Op::Apply { profile: "ghost".to_string() });
    match r {
        Err(e) => {
            assert_eq!(e.message(), "ERROR: Profile 'ghost' could not be found");
            assert_eq!(e.exit_code(), 1);
        }
        _ => panic!("apply of a missing profile must fail"),
    }
}

#[test]
fn error_messages_are_exact() {
    let exists = UserError::AlreadyExists { profile: "a".to_string() };
    assert_eq!(exists.message(), "ERROR: Profile 'a' already exists");
    let none = UserError::NoProfiles;
    assert_eq!(
        none.message(),
        "ERROR: You have to create a profile first. Use: git-user add"
    );
    assert_eq!(none.exit_code(), 1);
}

#[test]
fn list_scenario_one_entry_then_none() {
    let mut store = Store::new();
    add(&mut store, "work", Some("Work Name"), Some("work@example.com"));
    let r = dispatch(&mut store, Op::List);
    match r {
        Ok(Outcome::Listing { text }) => {
            assert_eq!(text, "Profile: work\nName: Work Name\nEmail: work@example.com\n");
        }
        _ => panic!("list must succeed"),
    }
    let r = dispatch(&mut store, Op::Remove { profile: "work".to_string() });
    assert!(matches!(r, Ok(Outcome::Persist)));
    let r = dispatch(&mut store, Op::List);
    match r {
        Ok(Outcome::Listing { text }) => assert_eq!(text, ""),
        _ => panic!("list must succeed"),
    }
}

#[test]
fn listing_separates_profiles_with_an_empty_line() {
    let mut store = Store::new();
    add(&mut store, "a", Some("NA"), Some("a@x"));
    add(&mut store, "b", Some("NB"), Some("b@x"));
    assert_eq!(
        render_listing(&store),
        "Profile: a\nName: NA\nEmail: a@x\n\nProfile: b\nName: NB\nEmail: b@x\n"
    );
}

#[test]
fn show_raw_and_reset_do_not_touch_the_store() {
    let mut store = Store::new();
    add(&mut store, "a", None, None);
    let before = serialize(&store);
    assert!(matches!(dispatch(&mut store, Op::ShowRaw), Ok(Outcome::ShowRaw)));
    assert!(matches!(dispatch(&mut store, Op::Reset), Ok(Outcome::Reset)));
    assert_eq!(serialize(&store), before);
}

#[test]
fn needs_git_only_for_apply() {
    assert!(needs_git(&Op::Apply { profile: "a".to_string() }));
    assert!(!needs_git(&Op::List));
    assert!(!needs_git(&Op::Reset));
    assert!(!needs_git(&Op::Add { profile: "a".to_string(), name: None, email: None }));
}

#[test]
fn selection_items_show_name_and_email() {
    let mut store = Store::new();
    add(&mut store, "a", Some("NA"), Some("a@x"));
    add(&mut store, "b", Some("NB"), Some("b@x"));
    let items = selection_items(&store);
    assert_eq!(items.len(), 2);
    assert_eq!(items[0], "NA : a@x");
    assert_eq!(items[1], "NB : b@x");
}

#[test]
fn default_selection_prefers_the_current_identity() {
    let mut store = Store::new();
    add(&mut store, "a", Some("NA"), Some("a@x"));
    add(&mut store, "b", Some("NB"), Some("b@x"));
    add(&mut store, "c", Some("NB"), Some("b@x"));
    assert_eq!(default_selection(&store, "NB", "b@x"), 2);
    assert_eq!(default_selection(&store, "NA", "a@x"), 0);
    assert_eq!(default_selection(&store, "nobody", "x@x"), 0);
}
