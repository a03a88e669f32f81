//! Lookup by name pattern: the groups whose names a regular expression
//! matches, each narrowed to the records of one username.

use crate::text::{has_substring, str_contains};
use crate::vault::{entry_views, Entry, EntryView, Group, GroupView, VaultData};
use vstd::prelude::*;

verus! {

/// `regex::Error`, carried from the call to where it is mapped.
#[verifier::external_type_specification]
#[verifier::external_body]
pub struct ExRegexError(regex::Error);

/// Whether `regex::Regex::new` accepts `pattern`.
pub uninterp spec fn regex_compiles(pattern: Seq<char>) -> bool;

/// Whether the regular expression written as `pattern` matches somewhere in
/// `text`.
pub uninterp spec fn regex_finds(pattern: Seq<char>, text: Seq<char>) -> bool;

/// Calls `regex::Regex::new`. Claims that acceptance depends on the pattern
/// alone.
#[verifier::external_body]
fn check_pattern(pattern: &str) -> (r: Result<(), regex::Error>)
    ensures
        r is Ok <==> regex_compiles(pattern@),
{
    regex::Regex::new(pattern).map(|_| ())
}

/// Calls `Regex::is_match` on the expression that `regex::Regex::new` makes
/// of `pattern`. Claims that the answer depends on pattern and text alone,
/// and that a pattern is refused here exactly when it is refused alone.
#[verifier::external_body]
fn pattern_matches(pattern: &str, text: &str) -> (r: Result<bool, regex::Error>)
    ensures
        r is Ok <==> regex_compiles(pattern@),
        r matches Ok(found) ==> found == regex_finds(pattern@, text@),
{
    regex::Regex::new(pattern).map(|re| re.is_match(text))
}

/// The pattern is not a regular expression.
#[derive(Clone, Copy, Debug, PartialEq, Eq, Structural)]
pub struct InvalidPattern;

/// A record passes where no username is asked for, or its username contains
/// the one asked for.
pub open spec fn username_passes(entry: EntryView, username: Option<Seq<char>>) -> bool {
    match username {
        Some(u) => has_substring(entry.username, u),
        None => true,
    }
}

/// A group narrowed to the records that pass; it may be left empty.
pub open spec fn narrowed(group: GroupView, username: Option<Seq<char>>) -> GroupView {
    GroupView {
        name: group.name,
        entries: group.entries.filter(|e: EntryView| username_passes(e, username)),
    }
}

/// The views of groups.
pub open spec fn group_views(groups: Seq<Group>) -> Seq<GroupView> {
    groups.map_values(|g: Group| g@)
}

/// What a lookup returns for the outcome `found` of matching the pattern
/// against each group's name: the groups whose flag is set, in their order,
/// each narrowed by username.
pub open spec fn selected_by(
    groups: Seq<GroupView>,
    found: Seq<bool>,
    username: Option<Seq<char>>,
) -> Seq<GroupView>
    decreases groups.len(),
{
    if groups.len() == 0 || found.len() != groups.len() {
        Seq::empty()
    } else {
        let before = selected_by(groups.drop_last(), found.drop_last(), username);
        if found.last() {
            before.push(narrowed(groups.last(), username))
        } else {
            before
        }
    }
}

/// The records of `group` that pass, copied.
pub fn narrow(group: &Group, username: Option<&str>) -> (r: Group)
    ensures
        r@ == narrowed(
            group@,
            match username {
                Some(u) => Some(u@),
                None => None,
            },
        ),
{
    let ghost wanted: Option<Seq<char>> = match username {
        Some(u) => Some(u@),
        None => None,
    };
    let ghost pred = |e: EntryView| username_passes(e, wanted);
    let mut kept: Vec<Entry> = Vec::new();
    let n = group.entries.len();
    let mut i: usize = 0;
    proof {
        reveal(Seq::filter);
        assert(entry_views(group.entries@.take(0)) =~= Seq::<EntryView>::empty());
        assert(entry_views(kept@) =~= Seq::<EntryView>::empty());
    }
    while i < n
        invariant
            i <= n,
            n == group.entries@.len(),
            wanted == match username {
                Some(u) => Some(u@),
                None => None,
            },
            pred == (|e: EntryView| username_passes(e, wanted)),
            entry_views(kept@) == entry_views(group.entries@.take(i as int)).filter(pred),
        decreases n - i,
    {
        let entry = &group.entries[i];
        let ghost before = entry_views(kept@);
        proof {
            let prefix = entry_views(group.entries@.take(i as int));
            let next = entry_views(group.entries@.take(i + 1));
            assert(next =~= prefix.push(entry@));
            assert(next.drop_last() =~= prefix);
            reveal(Seq::filter);
            assert(next.filter(pred) == if pred(next.last()) {
                prefix.filter(pred).push(next.last())
            } else {
                prefix.filter(pred)
            });
        }
        let passes = match username {
            Some(u) => str_contains(entry.username.as_str(), u),
            None => true,
        };
        if passes {
            kept.push(entry.clone());
            proof {
                assert(entry_views(kept@) =~= before.push(entry@));
            }
        }
        i += 1;
    }
    proof {
        assert(group.entries@.take(n as int) =~= group.entries@);
    }
    Group { name: group.name.clone(), entries: kept }
}

/// The groups whose flag in `found` is set, in their order, each narrowed by
/// username.
pub fn select_found(data: &VaultData, found: &Vec<bool>, username: Option<&str>) -> (r: Vec<
    Group,
>)
    requires
        found@.len() == data@.len(),
    ensures
        group_views(r@) == selected_by(
            data@,
            found@,
            match username {
                Some(u) => Some(u@),
                None => None,
            },
        ),
{
    let ghost wanted: Option<Seq<char>> = match username {
        Some(u) => Some(u@),
        None => None,
    };
    let mut out: Vec<Group> = Vec::new();
    let n = data.entries.len();
    let mut i: usize = 0;
    proof {
        assert(group_views(out@) =~= Seq::<GroupView>::empty());
    }
    while i < n
        invariant
            i <= n,
            n == data@.len(),
            n == found@.len(),
            wanted == match username {
                Some(u) => Some(u@),
                None => None,
            },
            group_views(out@) == selected_by(
                data@.take(i as int),
                found@.take(i as int),
                wanted,
            ),
        decreases n - i,
    {
        let ghost before = group_views(out@);
        proof {
            assert(data@.take(i + 1).drop_last() =~= data@.take(i as int));
            assert(found@.take(i + 1).drop_last() =~= found@.take(i as int));
            assert(data@.take(i + 1).last() == data.entries@[i as int]@);
        }
        if found[i] {
            let group = narrow(&data.entries[i], username);
            out.push(group);
            proof {
                assert(group_views(out@) =~= before.push(group@));
            }
        }
        i += 1;
    }
    proof {
        assert(data@.take(n as int) =~= data@);
        assert(found@.take(n as int) =~= found@);
    }
    out
}

/// The outcome of matching the pattern against each group's name.
pub open spec fn found_flags(groups: Seq<GroupView>, pattern: Seq<char>) -> Seq<bool> {
    groups.map_values(|g: GroupView| regex_finds(pattern, g.name))
}

impl VaultData {
    /// The groups whose names the regular expression `pattern` matches, in
    /// their order, each narrowed to the records whose username contains
    /// `username`. A matched group stays in the answer when no record of it
    /// passes. A pattern that is no regular expression is refused.
    pub fn search(&self, pattern: &str, username: Option<&str>) -> (r: Result<
        Vec<Group>,
        InvalidPattern,
    >)
        ensures
            r is Ok <==> regex_compiles(pattern@),
            r matches Ok(groups) ==> group_views(groups@) == selected_by(
                self@,
                found_flags(self@, pattern@),
                match username {
                    Some(u) => Some(u@),
                    None => None,
                },
            ),
    {
        if check_pattern(pattern).is_err() {
            return Err(InvalidPattern);
        }
        let n = self.entries.len();
        let mut found: Vec<bool> = Vec::new();
        let mut i: usize = 0;
        while i < n
            invariant
                i <= n,
                n == self@.len(),
                regex_compiles(pattern@),
                found@.len() == i,
                forall|k: int| 0 <= k < i ==> found@[k] == regex_finds(pattern@, self@[k].name),
            decreases n - i,
        {
            let hit = match pattern_matches(pattern, self.entries[i].name.as_str()) {
                Ok(hit) => hit,
                Err(_) => false,
            };
            found.push(hit);
            i += 1;
        }
        proof {
            assert(found@ =~= found_flags(self@, pattern@));
        }
        Ok(select_found(self, &found, username))
    }
}

} // verus!
