use dplock::listing::{arrange, parse_sort_key, stable_order, SortKey};
use dplock::text::{contains, str_contains, str_eq, text_le, to_chars};
use dplock::{Entry, Vault};

fn entry(username: &str) -> Entry {
    Entry {
        username: username.to_string(),
        password: "pw".to_string(),
        expired: None,
        remind: None,
        created_at: 0,
        message: None,
    }
}

fn vault_with(rows: &[(&str, &str)]) -> Vault {
    let mut vault = Vault::new(None, "/h");
    for (name, user) in rows {
        vault.add(name, user, "pw".to_string(), None, None, 0, None).unwrap();
    }
    vault
}

fn pairs(rows: &[(&String, &Entry)]) -> Vec<(String, String)> {
    rows.iter().map(|(n, e)| ((*n).clone(), e.username.clone())).collect()
}

fn p(name: &str, user: &str) -> (String, String) {
    (name.to_string(), user.to_string())
}

#[test]
fn list_without_filter_or_sort_keeps_encounter_order() {
    let vault = vault_with(&[("github", "alice"), ("aws", "root"), ("github", "bob")]);
    let rows = vault.list(None, None);
    assert_eq!(pairs(&rows), vec![p("github", "alice"), p("github", "bob"), p("aws", "root")]);
}

#[test]
fn list_filter_git_sorted_by_name() {
    let vault = vault_with(&[
        ("gitlab", "carol"),
        ("aws", "root"),
        ("github", "alice"),
        ("github", "bob"),
    ]);
    let rows = vault.list(Some("git"), Some("name"));
    assert_eq!(
        pairs(&rows),
        vec![p("github", "alice"), p("github", "bob"), p("gitlab", "carol")]
    );
}

#[test]
fn filter_matches_name_or_username() {
    let vault = vault_with(&[("aws", "gitops"), ("github", "x"), ("mail", "y")]);
    let rows = vault.list(Some("git"), None);
    assert_eq!(pairs(&rows), vec![p("aws", "gitops"), p("github", "x")]);
}

#[test]
fn empty_filter_keeps_every_row() {
    let vault = vault_with(&[("a", "1"), ("b", "2")]);
    assert_eq!(vault.list(Some(""), None).len(), 2);
}

#[test]
fn sort_by_username_is_stable() {
    let vault = vault_with(&[("z", "bob"), ("a", "alice"), ("m", "bob"), ("b", "alice")]);
    let rows = vault.list(None, Some("username"));
    assert_eq!(
        pairs(&rows),
        vec![p("a", "alice"), p("b", "alice"), p("z", "bob"), p("m", "bob")]
    );
}

#[test]
fn unknown_sort_word_leaves_the_order() {
    let vault = vault_with(&[("b", "2"), ("a", "1")]);
    let rows = vault.list(None, Some("Name"));
    assert_eq!(pairs(&rows), vec![p("b", "2"), p("a", "1")]);
    assert_eq!(parse_sort_key(Some("name")), Some(SortKey::Name));
    assert_eq!(parse_sort_key(Some("username")), Some(SortKey::Username));
    assert_eq!(parse_sort_key(Some("created")), None);
    assert_eq!(parse_sort_key(None), None);
}

#[test]
fn apply_filter_and_sort_works_in_place() {
    let names = vec!["b".to_string(), "a".to_string(), "c".to_string()];
    let entries = vec![entry("x"), entry("y"), entry("ax")];
    let mut rows: Vec<(&String, &Entry)> = names.iter().zip(entries.iter()).collect();
    Vault::apply_filter_and_sort(&mut rows, Some("x"), Some("name"));
    assert_eq!(pairs(&rows), vec![p("b", "x"), p("c", "ax")]);
    let all: Vec<(&String, &Entry)> = names.iter().zip(entries.iter()).collect();
    let out = arrange(&all, None, Some("username"));
    assert_eq!(pairs(&out), vec![p("c", "ax"), p("b", "x"), p("a", "y")]);
}

#[test]
fn stable_order_lists_positions_by_key() {
    let keys: Vec<Vec<char>> =
        ["pear", "apple", "pear", "", "Apple"].iter().map(|s| s.chars().collect()).collect();
    assert_eq!(stable_order(&keys), vec![3, 4, 1, 0, 2]);
    assert_eq!(stable_order(&Vec::new()), Vec::<usize>::new());
}

#[test]
fn text_order_is_the_order_of_strings() {
    let words = ["", "a", "ab", "b", "B", "é", "z", "日本", "a\u{10000}"];
    for x in words {
        for y in words {
            assert_eq!(text_le(&to_chars(x), &to_chars(y)), x <= y, "{:?} {:?}", x, y);
        }
    }
}

#[test]
fn substring_search_agrees_with_std() {
    let texts = ["", "github", "gitlab", "aws", "ééé", "aab"];
    let pats = ["", "git", "hub", "b", "é", "ab", "github!", "aab"];
    for t in texts {
        for q in pats {
            assert_eq!(str_contains(t, q), t.contains(q), "{:?} {:?}", t, q);
            assert_eq!(contains(&to_chars(t), &to_chars(q)), t.contains(q));
        }
    }
}

#[test]
fn text_equality_and_chars() {
    assert!(str_eq("name", "name"));
    assert!(!str_eq("name", "names"));
    assert!(!str_eq("é", "e"));
    assert_eq!(to_chars("aé日"), vec!['a', 'é', '日']);
}
