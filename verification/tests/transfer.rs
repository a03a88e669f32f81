use dplock::crypto::{decoded_length, decrypt_entry, CryptoError};
use dplock::engine::ImportPlan;
use dplock::{Entry, Group, Vault, VaultData};

fn entry(username: &str, password: &str) -> Entry {
    Entry {
        username: username.to_string(),
        password: password.to_string(),
        expired: Some(50),
        remind: Some(40),
        created_at: 7,
        message: Some("m".to_string()),
    }
}

fn store(groups: &[(&str, &[(&str, &str)])]) -> VaultData {
    let mut data = VaultData::new();
    for (name, entries) in groups {
        for (u, p) in entries.iter() {
            data.add_entry(name, entry(u, p));
        }
    }
    data
}

fn vault(groups: &[(&str, &[(&str, &str)])]) -> Vault {
    let mut v = Vault::new(None, "/h");
    v.load(store(groups));
    v
}

fn s(a: &str, b: &str) -> (String, String) {
    (a.to_string(), b.to_string())
}

#[test]
fn plain_import_appends_new_and_skips_duplicates() {
    let mut dest = vault(&[("github", &[("alice", "1")])]);
    let incoming = store(&[("github", &[("alice", "1"), ("alice", "2")]), ("aws", &[("root", "r")])]);
    let skipped = dest.import(&incoming, true, "").unwrap();
    assert_eq!(skipped, vec![s("github", "alice")]);
    let expected = store(&[("github", &[("alice", "1"), ("alice", "2")]), ("aws", &[("root", "r")])]);
    assert_eq!(dest.data(), &expected);
}

#[test]
fn importing_twice_is_the_same_as_importing_once() {
    let mut dest = vault(&[("a", &[("u", "p")])]);
    let incoming = store(&[("a", &[("u", "p"), ("v", "q")]), ("b", &[("w", "r"), ("w", "r")])]);
    let first = dest.import(&incoming, true, "").unwrap();
    assert_eq!(first, vec![s("a", "u"), s("b", "w")]);
    let after_one = dest.data().clone();
    let second = dest.import(&incoming, true, "").unwrap();
    assert_eq!(dest.data(), &after_one);
    assert_eq!(second, vec![s("a", "u"), s("a", "v"), s("b", "w"), s("b", "w")]);
}

#[test]
fn import_never_changes_existing_entries() {
    let mut dest = vault(&[("a", &[("u", "old"), ("x", "y")])]);
    let mut incoming = VaultData::new();
    let mut changed = entry("u", "new");
    changed.message = None;
    incoming.add_entry("a", changed);
    dest.import(&incoming, true, "").unwrap();
    let group = &dest.data().entries[0];
    assert_eq!(group.entries.len(), 3);
    assert_eq!(group.entries[0], entry("u", "old"));
    assert_eq!(group.entries[1], entry("x", "y"));
    assert_eq!(group.entries[2].password, "new");
}

#[test]
fn import_of_an_empty_group_opens_no_group() {
    let mut dest = vault(&[]);
    let incoming = VaultData { entries: vec![Group { name: "ghost".to_string(), entries: vec![] }] };
    assert_eq!(dest.import(&incoming, true, "").unwrap(), vec![]);
    assert!(dest.data().entries.is_empty());
    assert!(dest.data().is_well_formed());
}

#[test]
fn duplicates_need_both_username_and_password() {
    let mut dest = vault(&[("a", &[("u", "p")])]);
    let incoming = store(&[("a", &[("u", "other"), ("other", "p")])]);
    assert_eq!(dest.import(&incoming, true, "").unwrap(), vec![]);
    assert_eq!(dest.data().entries[0].entries.len(), 3);
}

#[test]
fn plain_export_is_a_copy() {
    let v = vault(&[("a", &[("u", "p")]), ("b", &[("v", "q")])]);
    let copy = v.export(true, "unused").unwrap();
    assert_eq!(&copy, v.data());
}

#[test]
fn sealed_export_hides_only_the_passwords() {
    let v = vault(&[("a", &[("u", "secret-1"), ("v", "secret-2")])]);
    let copy = v.export(false, "master").unwrap();
    assert_eq!(copy.entries.len(), 1);
    assert_eq!(copy.entries[0].name, "a");
    for (sealed, plain) in copy.entries[0].entries.iter().zip(v.data().entries[0].entries.iter()) {
        assert_eq!(sealed.username, plain.username);
        assert_eq!(sealed.expired, plain.expired);
        assert_eq!(sealed.remind, plain.remind);
        assert_eq!(sealed.created_at, plain.created_at);
        assert_eq!(sealed.message, plain.message);
        assert_ne!(sealed.password, plain.password);
        assert_eq!(decoded_length(&sealed.password), Some(plain.password.len() + 44));
        assert_eq!(decrypt_entry(&sealed.password, "master").unwrap(), plain.password);
    }
}

#[test]
fn sealed_export_imports_back_under_the_source_passphrase() {
    let source = vault(&[("a", &[("u", "p1")]), ("b", &[("v", "p2")])]);
    let sealed = source.export(false, "source-pass").unwrap();
    let mut dest = vault(&[("a", &[("u", "p1")])]);
    let skipped = dest.import(&sealed, false, "source-pass").unwrap();
    assert_eq!(skipped, vec![s("a", "u")]);
    assert_eq!(dest.data(), source.data());
}

#[test]
fn sealed_import_with_wrong_passphrase_changes_nothing() {
    let source = vault(&[("a", &[("u", "p1")])]);
    let sealed = source.export(false, "source-pass").unwrap();
    let mut dest = vault(&[("z", &[("k", "l")])]);
    let before = dest.data().clone();
    assert_eq!(dest.import(&sealed, false, "wrong"), Err(CryptoError::Authentication));
    assert_eq!(dest.data(), &before);
}

#[test]
fn sealed_import_of_plain_passwords_fails() {
    let plain = store(&[("a", &[("u", "not sealed")])]);
    let mut dest = vault(&[]);
    assert_eq!(dest.import(&plain, false, ""), Err(CryptoError::Malformed));
    assert!(dest.data().entries.is_empty());
}

#[test]
fn import_plan_asks_what_is_needed() {
    assert_eq!(
        Vault::import_plan(true, true),
        ImportPlan { confirm_plain: true, ask_source_password: false }
    );
    assert_eq!(
        Vault::import_plan(true, false),
        ImportPlan { confirm_plain: false, ask_source_password: true }
    );
    assert_eq!(
        Vault::import_plan(false, true),
        ImportPlan { confirm_plain: false, ask_source_password: false }
    );
    assert_eq!(
        Vault::import_plan(false, false),
        ImportPlan { confirm_plain: false, ask_source_password: false }
    );
}

#[test]
fn import_confirmation_ignores_case() {
    assert!(Vault::import_confirmed("yes"));
    assert!(Vault::import_confirmed(" YES "));
    assert!(Vault::import_confirmed("yEs\n"));
    assert!(!Vault::import_confirmed("no"));
    assert!(!Vault::import_confirmed("y"));
    assert!(!Vault::import_confirmed(""));
}

#[test]
fn sealed_export_of_an_empty_store_succeeds() {
    let v = vault(&[]);
    let copy = v.export(false, "master").unwrap();
    assert!(copy.entries.is_empty());
    let only_names = VaultData { entries: vec![Group { name: "n".to_string(), entries: vec![] }] };
    let sealed = only_names.sealed("master").unwrap();
    assert_eq!(sealed, only_names);
}
