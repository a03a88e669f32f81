use dplock::engine::RemoveOutcome;
use dplock::utils::TimeError;
use dplock::vault::RemoveError;
use dplock::{Entry, Vault, VaultData};

fn entry(username: &str, password: &str) -> Entry {
    Entry {
        username: username.to_string(),
        password: password.to_string(),
        expired: None,
        remind: None,
        created_at: 1_700_000_000,
        message: None,
    }
}

fn usernames(data: &VaultData, name: &str) -> Vec<String> {
    let i = data.position(name).unwrap();
    data.entries[i].entries.iter().map(|e| e.username.clone()).collect()
}

#[test]
fn new_store_is_empty_and_well_formed() {
    let data = VaultData::new();
    assert!(data.entries.is_empty());
    assert!(data.is_well_formed());
}

#[test]
fn add_twice_then_remove_first_then_remove_group() {
    let mut vault = Vault::new(Some("/tmp/v.bin".to_string()), "/home/u");
    vault.add("github", "alice", "pw-a".to_string(), None, None, 100, None).unwrap();
    vault.add("github", "bob", "pw-b".to_string(), None, None, 101, None).unwrap();
    assert_eq!(vault.data().entries.len(), 1);
    assert_eq!(usernames(vault.data(), "github"), vec!["alice", "bob"]);

    match vault.remove("github", Some(1), None) {
        RemoveOutcome::Removed(e) => assert_eq!(e.username, "alice"),
        other => panic!("unexpected outcome {:?}", other),
    }
    assert_eq!(usernames(vault.data(), "github"), vec!["bob"]);

    assert_eq!(vault.remove("github", None, None), RemoveOutcome::NeedsConfirmation(1));
    assert_eq!(usernames(vault.data(), "github"), vec!["bob"]);
    assert_eq!(vault.remove("github", None, Some("no")), RemoveOutcome::Cancelled);
    assert_eq!(usernames(vault.data(), "github"), vec!["bob"]);
    assert_eq!(vault.remove("github", None, Some(" yes\n")), RemoveOutcome::RemovedAll(1));
    assert_eq!(vault.data().position("github"), None);
    assert!(vault.data().entries.is_empty());
}

#[test]
fn remove_with_index_out_of_bounds_changes_nothing() {
    let mut data = VaultData::new();
    data.add_entry("aws", entry("root", "1"));
    data.add_entry("aws", entry("dev", "2"));
    assert_eq!(data.remove_entry("aws", 0), Err(RemoveError::InvalidIndex(2)));
    assert_eq!(data.remove_entry("aws", 3), Err(RemoveError::InvalidIndex(2)));
    assert_eq!(data.remove_entry("gcp", 1), Err(RemoveError::NotFound));
    assert_eq!(usernames(&data, "aws"), vec!["root", "dev"]);
}

#[test]
fn remove_takes_exactly_the_kth_entry() {
    let mut data = VaultData::new();
    for u in ["a", "b", "c"] {
        data.add_entry("svc", entry(u, u));
    }
    assert_eq!(data.remove_entry("svc", 2).unwrap().username, "b");
    assert_eq!(usernames(&data, "svc"), vec!["a", "c"]);
    assert_eq!(data.remove_entry("svc", 2).unwrap().username, "c");
    assert_eq!(data.remove_entry("svc", 1).unwrap().username, "a");
    assert_eq!(data.position("svc"), None);
    assert!(data.is_well_formed());
}

#[test]
fn remove_of_unknown_name_is_not_found() {
    let mut vault = Vault::new(None, "/home/u");
    assert_eq!(vault.remove("nothing", Some(1), None), RemoveOutcome::NotFound);
    assert_eq!(vault.remove("nothing", None, Some("yes")), RemoveOutcome::NotFound);
}

#[test]
fn remove_group_needs_the_exact_word() {
    let mut vault = Vault::new(None, "/home/u");
    vault.add("x", "u", "p".to_string(), None, None, 1, None).unwrap();
    assert_eq!(vault.remove("x", None, Some("YES")), RemoveOutcome::Cancelled);
    assert_eq!(vault.remove("x", None, Some("yes please")), RemoveOutcome::Cancelled);
    assert_eq!(vault.remove("x", None, Some("yes")), RemoveOutcome::RemovedAll(1));
}

#[test]
fn groups_keep_the_order_in_which_they_were_opened() {
    let mut data = VaultData::new();
    data.add_entry("b", entry("1", "1"));
    data.add_entry("a", entry("2", "2"));
    data.add_entry("b", entry("3", "3"));
    let names: Vec<&str> = data.entries.iter().map(|g| g.name.as_str()).collect();
    assert_eq!(names, vec!["b", "a"]);
    assert_eq!(data.group_len("b"), Some(2));
    assert_eq!(data.group_len("zzz"), None);
}

#[test]
fn well_formedness_is_checked() {
    let mut data = VaultData::new();
    data.add_entry("a", entry("u", "p"));
    assert!(data.is_well_formed());
    data.entries.push(dplock::Group { name: "a".to_string(), entries: vec![entry("v", "q")] });
    assert!(!data.is_well_formed());
    data.entries.pop();
    data.entries.push(dplock::Group { name: "empty".to_string(), entries: vec![] });
    assert!(!data.is_well_formed());
}

#[test]
fn default_vault_file_lies_under_home() {
    assert_eq!(Vault::new(None, "/home/u").vault_path(), "/home/u/.dplock/vault.bin");
    assert_eq!(Vault::new(None, "/home/u/").vault_path(), "/home/u/.dplock/vault.bin");
    assert_eq!(Vault::new(None, "").vault_path(), ".dplock/vault.bin");
    assert_eq!(Vault::new(Some("x.bin".to_string()), "/home/u").vault_path(), "x.bin");
}

#[test]
fn add_with_times_sets_expiry_and_reminder() {
    let mut vault = Vault::new(None, "/h");
    let now = 1_000_000;
    vault.add("n", "u", "p".to_string(), Some("10d"), Some("3d"), now, Some("note")).unwrap();
    let e = &vault.data().entries[0].entries[0];
    assert_eq!(e.expired, Some(now + 864_000));
    assert_eq!(e.remind, Some(now + 864_000 - 259_200));
    assert_eq!(e.created_at, now);
    assert_eq!(e.message.as_deref(), Some("note"));
    assert_eq!(e.password, "p");
}

#[test]
fn add_with_blank_times_sets_none() {
    let mut vault = Vault::new(None, "/h");
    vault.add("n", "u", "p".to_string(), Some("  "), Some(""), 5, None).unwrap();
    let e = &vault.data().entries[0].entries[0];
    assert_eq!(e.expired, None);
    assert_eq!(e.remind, None);
}

#[test]
fn add_with_reminder_but_no_expiry_fails_and_changes_nothing() {
    let mut vault = Vault::new(None, "/h");
    let r = vault.add("n", "u", "p".to_string(), None, Some("3d"), 5, None);
    assert_eq!(r, Err(TimeError::InvalidExpired));
    assert!(vault.data().entries.is_empty());
    let r = vault.add("n", "u", "p".to_string(), Some("soon"), None, 5, None);
    assert_eq!(r, Err(TimeError::InvalidExpired));
    assert!(vault.data().entries.is_empty());
}

#[test]
fn init_empties_the_store_and_load_replaces_it() {
    let mut vault = Vault::new(Some("p".to_string()), "/h");
    vault.add("n", "u", "p".to_string(), None, None, 5, None).unwrap();
    vault.init();
    assert!(vault.data().entries.is_empty());
    let mut data = VaultData::new();
    data.add_entry("k", entry("u", "p"));
    vault.load(data);
    assert_eq!(vault.data().position("k"), Some(0));
    assert_eq!(vault.vault_path(), "p");
}

#[test]
fn overwrite_needs_yes_and_the_current_passphrase() {
    let blob = dplock::crypto::encrypt(b"old vault", "current").unwrap();
    assert!(Vault::confirm_overwrite("yes", &blob, "current"));
    assert!(Vault::confirm_overwrite("  yes  ", &blob, "current"));
    assert!(!Vault::confirm_overwrite("no", &blob, "current"));
    assert!(!Vault::confirm_overwrite("Yes", &blob, "current"));
    assert!(!Vault::confirm_overwrite("yes", &blob, "guess"));
    assert!(!Vault::confirm_overwrite("yes", b"short", "current"));
}
