use dplock::search::{narrow, select_found, InvalidPattern};
use dplock::{Entry, Vault};

fn vault_with(rows: &[(&str, &str)]) -> Vault {
    let mut vault = Vault::new(None, "/h");
    for (name, user) in rows {
        vault.add(name, user, format!("pw-{user}"), None, None, 0, None).unwrap();
    }
    vault
}

fn shape(groups: &[dplock::Group]) -> Vec<(String, Vec<String>)> {
    groups
        .iter()
        .map(|g| (g.name.clone(), g.entries.iter().map(|e| e.username.clone()).collect()))
        .collect()
}

fn g(name: &str, users: &[&str]) -> (String, Vec<String>) {
    (name.to_string(), users.iter().map(|u| u.to_string()).collect())
}

#[test]
fn pattern_selects_groups_by_regex() {
    let vault = vault_with(&[("github", "alice"), ("gitlab", "bob"), ("aws", "root"), ("github", "carol")]);
    let found = vault.get("git", None).unwrap();
    assert_eq!(shape(&found), vec![g("github", &["alice", "carol"]), g("gitlab", &["bob"])]);
    let found = vault.get("^git(hub|ea)$", None).unwrap();
    assert_eq!(shape(&found), vec![g("github", &["alice", "carol"])]);
    let found = vault.get("^hub", None).unwrap();
    assert_eq!(shape(&found), vec![]);
    let found = vault.get("a.s", None).unwrap();
    assert_eq!(shape(&found), vec![g("aws", &["root"])]);
}

#[test]
fn username_narrows_by_substring() {
    let vault = vault_with(&[("github", "alice"), ("github", "malice"), ("github", "bob"), ("gitlab", "bob")]);
    let found = vault.get("git", Some("lic")).unwrap();
    assert_eq!(shape(&found), vec![g("github", &["alice", "malice"]), g("gitlab", &[])]);
    assert_eq!(found[0].entries[0].password, "pw-alice");
}

#[test]
fn invalid_pattern_is_refused() {
    let vault = vault_with(&[("github", "alice")]);
    assert_eq!(vault.get("(", None), Err(InvalidPattern));
    assert_eq!(vault.get("[a-", Some("x")), Err(InvalidPattern));
    let empty = Vault::new(None, "/h");
    assert_eq!(empty.get("(", None), Err(InvalidPattern));
    assert_eq!(shape(&empty.get("x", None).unwrap()), vec![]);
}

#[test]
fn selection_by_flags() {
    let vault = vault_with(&[("a", "u1"), ("b", "u2"), ("c", "u3")]);
    let picked = select_found(vault.data(), &vec![true, false, true], None);
    assert_eq!(shape(&picked), vec![g("a", &["u1"]), g("c", &["u3"])]);
    let none = select_found(vault.data(), &vec![false, false, false], Some("u"));
    assert_eq!(shape(&none), vec![]);
    let narrowed = narrow(&vault.data().entries[1], Some("zzz"));
    assert_eq!(narrowed.name, "b");
    assert_eq!(narrowed.entries, Vec::<Entry>::new());
}
