//! The entry model and the vault engine: credential records grouped under
//! names, and the operations that add, find, list, remove, export and merge
//! them.

use crate::text::str_eq;
use vstd::prelude::*;

verus! {

/// One credential record.
#[derive(Debug, PartialEq, Eq)]
pub struct Entry {
    pub username: String,
    pub password: String,
    /// Unix time after which the credential is stale.
    pub expired: Option<i64>,
    /// Unix time from which the credential should be reviewed.
    pub remind: Option<i64>,
    /// Unix time at which the record was made.
    pub created_at: i64,
    pub message: Option<String>,
}

/// An [`Entry`] as a mathematical value.
pub struct EntryView {
    pub username: Seq<char>,
    pub password: Seq<char>,
    pub expired: Option<i64>,
    pub remind: Option<i64>,
    pub created_at: i64,
    pub message: Option<Seq<char>>,
}

impl View for Entry {
    type V = EntryView;

    open spec fn view(&self) -> EntryView {
        EntryView {
            username: self.username@,
            password: self.password@,
            expired: self.expired,
            remind: self.remind,
            created_at: self.created_at,
            message: match self.message {
                Some(m) => Some(m@),
                None => None,
            },
        }
    }
}

impl EntryView {
    /// A reminder never comes after the expiry it belongs to.
    pub open spec fn well_formed(self) -> bool {
        self.remind is Some && self.expired is Some ==> self.remind->0 <= self.expired->0
    }

    /// Same account and same secret: what makes an incoming record a
    /// duplicate of one already stored.
    pub open spec fn same_credential(self, other: EntryView) -> bool {
        self.username == other.username && self.password == other.password
    }
}

impl Clone for Entry {
    fn clone(&self) -> (r: Self)
        ensures
            r@ == self@,
    {
        Entry {
            username: self.username.clone(),
            password: self.password.clone(),
            expired: self.expired,
            remind: self.remind,
            created_at: self.created_at,
            message: match &self.message {
                Some(m) => Some(m.clone()),
                None => None,
            },
        }
    }
}

/// The records stored under one name, oldest first.
#[derive(Debug, PartialEq, Eq)]
pub struct Group {
    pub name: String,
    pub entries: Vec<Entry>,
}

/// A [`Group`] as a mathematical value.
pub struct GroupView {
    pub name: Seq<char>,
    pub entries: Seq<EntryView>,
}

/// The views of a sequence of entries.
pub open spec fn entry_views(entries: Seq<Entry>) -> Seq<EntryView> {
    entries.map_values(|e: Entry| e@)
}

impl View for Group {
    type V = GroupView;

    open spec fn view(&self) -> GroupView {
        GroupView { name: self.name@, entries: entry_views(self.entries@) }
    }
}

/// Some group of `groups` is called `name`.
pub open spec fn has_group(groups: Seq<GroupView>, name: Seq<char>) -> bool {
    exists|i: int| 0 <= i < groups.len() && #[trigger] groups[i].name == name
}

/// The position of the group called `name`, where there is one.
pub open spec fn group_index(groups: Seq<GroupView>, name: Seq<char>) -> int {
    choose|i: int| 0 <= i < groups.len() && #[trigger] groups[i].name == name
}

/// No two groups share a name and no group is empty.
pub open spec fn well_formed(groups: Seq<GroupView>) -> bool {
    &&& forall|i: int, j: int|
        0 <= i < j < groups.len() ==> #[trigger] groups[i].name != #[trigger] groups[j].name
    &&& forall|i: int| 0 <= i < groups.len() ==> (#[trigger] groups[i]).entries.len() > 0
}

/// The store as a mapping from names to their records.
pub open spec fn as_map(groups: Seq<GroupView>) -> Map<Seq<char>, Seq<EntryView>> {
    Map::new(
        |name: Seq<char>| has_group(groups, name),
        |name: Seq<char>| groups[group_index(groups, name)].entries,
    )
}

/// `groups` with `entry` appended to the group called `name`; a new group is
/// opened at the end where there is none.
pub open spec fn with_entry(groups: Seq<GroupView>, name: Seq<char>, entry: EntryView) -> Seq<
    GroupView,
> {
    if has_group(groups, name) {
        let i = group_index(groups, name);
        groups.update(i, GroupView { name: name, entries: groups[i].entries.push(entry) })
    } else {
        groups.push(GroupView { name: name, entries: seq![entry] })
    }
}

/// `groups` without the record at position `k` (from zero) of the group called
/// `name`; the group goes with its last record.
pub open spec fn without_entry(groups: Seq<GroupView>, name: Seq<char>, k: int) -> Seq<
    GroupView,
> {
    let i = group_index(groups, name);
    if groups[i].entries.len() == 1 {
        groups.remove(i)
    } else {
        groups.update(i, GroupView { name: name, entries: groups[i].entries.remove(k) })
    }
}

/// `groups` without the group called `name`.
pub open spec fn without_group(groups: Seq<GroupView>, name: Seq<char>) -> Seq<GroupView> {
    groups.remove(group_index(groups, name))
}

/// In a well-formed store a name is found at one position only.
pub proof fn lemma_group_index_unique(groups: Seq<GroupView>, name: Seq<char>, i: int)
    requires
        well_formed(groups),
        0 <= i < groups.len(),
        groups[i].name == name,
    ensures
        has_group(groups, name),
        group_index(groups, name) == i,
{
    let j = group_index(groups, name);
    assert(0 <= j < groups.len() && groups[j].name == name);
    if i < j {
        assert(groups[i].name != groups[j].name);
    }
    if j < i {
        assert(groups[j].name != groups[i].name);
    }
}

/// Removing the only record of a group removes the group's name from the
/// store.
pub proof fn lemma_last_entry_takes_group(groups: Seq<GroupView>, name: Seq<char>)
    requires
        well_formed(groups),
        has_group(groups, name),
        as_map(groups)[name].len() == 1,
    ensures
        !has_group(without_entry(groups, name, 0), name),
        !as_map(without_entry(groups, name, 0)).dom().contains(name),
        without_entry(groups, name, 0) == without_group(groups, name),
{
    let i = group_index(groups, name);
    let after = without_entry(groups, name, 0);
    if has_group(after, name) {
        let j = group_index(after, name);
        if j < i {
            assert(groups[j].name == name);
        } else {
            assert(groups[j + 1].name == name);
        }
    }
}

/// Removing a record of a group that holds more leaves the group with the
/// other records, in their order.
pub proof fn lemma_other_entries_stay(groups: Seq<GroupView>, name: Seq<char>, k: int)
    requires
        well_formed(groups),
        has_group(groups, name),
        0 <= k < as_map(groups)[name].len(),
        as_map(groups)[name].len() > 1,
    ensures
        well_formed(without_entry(groups, name, k)),
        has_group(without_entry(groups, name, k), name),
        as_map(without_entry(groups, name, k))[name] == as_map(groups)[name].remove(k),
{
    let i = group_index(groups, name);
    let after = without_entry(groups, name, k);
    assert(after[i].name == name);
    assert forall|a: int, b: int| 0 <= a < b < after.len() implies #[trigger] after[a].name
        != #[trigger] after[b].name by {
        assert(after[a].name == groups[a].name);
        assert(after[b].name == groups[b].name);
    }
    assert forall|a: int| 0 <= a < after.len() implies (#[trigger] after[a]).entries.len() > 0 by {
        if a != i {
            assert(after[a] == groups[a]);
        }
    }
    lemma_group_index_unique(after, name, i);
}

/// The whole secret store: groups of records, in the order in which the
/// groups were opened.
#[derive(Debug, PartialEq, Eq)]
pub struct VaultData {
    pub entries: Vec<Group>,
}

impl View for VaultData {
    type V = Seq<GroupView>;

    open spec fn view(&self) -> Seq<GroupView> {
        self.entries@.map_values(|g: Group| g@)
    }
}

/// Why a record could not be removed.
#[derive(Clone, Copy, Debug, PartialEq, Eq, Structural)]
pub enum RemoveError {
    /// No group has that name.
    NotFound,
    /// The index is not between 1 and the number of records of the group,
    /// which is given.
    InvalidIndex(usize),
}

impl Default for VaultData {
    fn default() -> (data: VaultData)
        ensures
            data@ == Seq::<GroupView>::empty(),
    {
        VaultData::new()
    }
}

impl VaultData {
    /// No two groups share a name and no group is empty.
    pub open spec fn wf(&self) -> bool {
        well_formed(self@)
    }

    /// The empty store.
    pub fn new() -> (data: VaultData)
        ensures
            data@ == Seq::<GroupView>::empty(),
            data.wf(),
    {
        let data = VaultData { entries: Vec::new() };
        proof {
            assert(data@ =~= Seq::<GroupView>::empty());
        }
        data
    }

    /// Whether the store is well formed.
    pub fn is_well_formed(&self) -> (b: bool)
        ensures
            b == self.wf(),
    {
        let n = self.entries.len();
        let mut i: usize = 0;
        while i < n
            invariant
                i <= n,
                n == self.entries@.len(),
                forall|a: int, b: int| 0 <= a < b < i ==> self@[a].name != self@[b].name,
                forall|a: int| 0 <= a < i ==> self@[a].entries.len() > 0,
            decreases n - i,
        {
            if self.entries[i].entries.len() == 0 {
                proof {
                    assert(self@[i as int].entries.len() == 0);
                }
                return false;
            }
            let mut j: usize = 0;
            while j < i
                invariant
                    j <= i < n,
                    n == self.entries@.len(),
                    forall|a: int| 0 <= a < j ==> self@[a].name != self@[i as int].name,
                decreases i - j,
            {
                if self.entries[j].name == self.entries[i].name {
                    proof {
                        assert(self@[j as int].name == self@[i as int].name);
                    }
                    return false;
                }
                j += 1;
            }
            i += 1;
        }
        true
    }

    /// The position of the group called `name`.
    pub fn position(&self, name: &str) -> (r: Option<usize>)
        ensures
            r is Some <==> has_group(self@, name@),
            r matches Some(i) ==> i < self@.len() && self@[i as int].name == name@,
            r matches Some(i) ==> forall|k: int| 0 <= k < i ==> self@[k].name != name@,
            r matches Some(i) ==> self.wf() ==> group_index(self@, name@) == i,
    {
        let n = self.entries.len();
        let mut i: usize = 0;
        while i < n
            invariant
                i <= n,
                n == self.entries@.len(),
                forall|k: int| 0 <= k < i ==> self@[k].name != name@,
            decreases n - i,
        {
            if str_eq(self.entries[i].name.as_str(), name) {
                proof {
                    assert(self@[i as int].name == name@);
                    if self.wf() {
                        lemma_group_index_unique(self@, name@, i as int);
                    }
                }
                return Some(i);
            }
            i += 1;
        }
        None
    }

    /// How many records the group called `name` holds.
    pub fn group_len(&self, name: &str) -> (r: Option<usize>)
        requires
            self.wf(),
        ensures
            r is Some <==> has_group(self@, name@),
            r matches Some(n) ==> n == as_map(self@)[name@].len(),
    {
        match self.position(name) {
            Some(i) => Some(self.entries[i].entries.len()),
            None => None,
        }
    }

    /// Appends `entry` to the group called `name`, and opens the group where
    /// there is none.
    pub fn add_entry(&mut self, name: &str, entry: Entry)
        requires
            old(self).wf(),
        ensures
            final(self)@ == with_entry(old(self)@, name@, entry@),
            final(self).wf(),
            has_group(final(self)@, name@),
            as_map(final(self)@)[name@].last() == entry@,
    {
        match self.position(name) {
            Some(i) => {
                let ghost before = self@;
                let mut group = self.entries.remove(i);
                group.entries.push(entry);
                self.entries.insert(i, group);
                proof {
                    assert(self.entries@[i as int]@.entries =~= before[i as int].entries.push(
                        entry@,
                    ));
                    assert(self@ =~= with_entry(before, name@, entry@));
                    assert(well_formed(self@));
                    assert(self@[i as int].name == name@);
                    lemma_group_index_unique(self@, name@, i as int);
                }
            },
            None => {
                let ghost before = self@;
                let mut entries: Vec<Entry> = Vec::new();
                entries.push(entry);
                let group = Group { name: name.to_owned(), entries };
                self.entries.push(group);
                proof {
                    assert(group@.entries =~= seq![entry@]);
                    assert(self@ =~= with_entry(before, name@, entry@));
                    assert(well_formed(self@));
                    assert(self@[before.len() as int].name == name@);
                    lemma_group_index_unique(self@, name@, before.len() as int);
                }
            },
        }
    }

    /// Removes the record with the one-based `index` from the group called
    /// `name`. With its last record the group goes too. An unknown name or an
    /// index outside `1..=len` changes nothing.
    pub fn remove_entry(&mut self, name: &str, index: usize) -> (r: Result<Entry, RemoveError>)
        requires
            old(self).wf(),
        ensures
            final(self).wf(),
            match r {
                Ok(removed) => {
                    &&& has_group(old(self)@, name@)
                    &&& 1 <= index <= as_map(old(self)@)[name@].len()
                    &&& removed@ == as_map(old(self)@)[name@][index - 1]
                    &&& final(self)@ == without_entry(old(self)@, name@, index - 1)
                },
                Err(RemoveError::NotFound) => {
                    &&& !has_group(old(self)@, name@)
                    &&& final(self)@ == old(self)@
                },
                Err(RemoveError::InvalidIndex(len)) => {
                    &&& has_group(old(self)@, name@)
                    &&& len == as_map(old(self)@)[name@].len()
                    &&& (index == 0 || index > len)
                    &&& final(self)@ == old(self)@
                },
            },
    {
        let i = match self.position(name) {
            Some(i) => i,
            None => {
                return Err(RemoveError::NotFound);
            },
        };
        let len = self.entries[i].entries.len();
        if index == 0 || index > len {
            return Err(RemoveError::InvalidIndex(len));
        }
        let ghost before = self@;
        let mut group = self.entries.remove(i);
        let removed = group.entries.remove(index - 1);
        if group.entries.len() > 0 {
            self.entries.insert(i, group);
            proof {
                assert(self.entries@[i as int]@.entries =~= before[i as int].entries.remove(
                    index - 1,
                ));
                assert(self@ =~= without_entry(before, name@, index - 1));
                assert(well_formed(self@));
            }
        } else {
            proof {
                assert(self@ =~= without_entry(before, name@, index - 1));
                assert(well_formed(self@));
            }
        }
        Ok(removed)
    }

    /// Removes the whole group called `name` and hands out its records.
    pub fn remove_group(&mut self, name: &str) -> (r: Option<Vec<Entry>>)
        requires
            old(self).wf(),
        ensures
            final(self).wf(),
            match r {
                Some(entries) => {
                    &&& has_group(old(self)@, name@)
                    &&& entry_views(entries@) == as_map(old(self)@)[name@]
                    &&& final(self)@ == without_group(old(self)@, name@)
                    &&& !has_group(final(self)@, name@)
                },
                None => !has_group(old(self)@, name@) && final(self)@ == old(self)@,
            },
    {
        let i = match self.position(name) {
            Some(i) => i,
            None => {
                return None;
            },
        };
        let ghost before = self@;
        let group = self.entries.remove(i);
        proof {
            assert(self@ =~= without_group(before, name@));
            assert(well_formed(self@));
            if has_group(self@, name@) {
                let j = group_index(self@, name@);
                if j < i {
                    assert(before[j].name == name@);
                } else {
                    assert(before[j + 1].name == name@);
                }
            }
        }
        Some(group.entries)
    }
}

} // verus!
