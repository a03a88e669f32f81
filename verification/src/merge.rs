//! Merging on import: a union of two stores that skips what the destination
//! already holds and never touches what was there.

use crate::vault::{
    entry_views, group_index, has_group, lemma_group_index_unique, well_formed, with_entry, Entry,
    EntryView, GroupView, VaultData,
};
use vstd::prelude::*;

verus! {

/// The group called `name` already holds a record with the username and the
/// password of `entry`.
pub open spec fn is_duplicate(groups: Seq<GroupView>, name: Seq<char>, entry: EntryView) -> bool {
    has_group(groups, name) && exists|k: int|
        0 <= k < groups[group_index(groups, name)].entries.len() && (#[trigger] groups[group_index(
            groups,
            name,
        )].entries[k]).same_credential(entry)
}

/// `groups` after one incoming record for the group `name`: skipped where
/// it is a duplicate, appended otherwise.
pub open spec fn merge_entry(groups: Seq<GroupView>, name: Seq<char>, entry: EntryView) -> Seq<
    GroupView,
> {
    if is_duplicate(groups, name, entry) {
        groups
    } else {
        with_entry(groups, name, entry)
    }
}

/// `groups` after the incoming records `entries` for the group `name`, taken
/// in order.
pub open spec fn merge_entries(
    groups: Seq<GroupView>,
    name: Seq<char>,
    entries: Seq<EntryView>,
) -> Seq<GroupView>
    decreases entries.len(),
{
    if entries.len() == 0 {
        groups
    } else {
        merge_entry(merge_entries(groups, name, entries.drop_last()), name, entries.last())
    }
}

/// `groups` after the incoming groups `incoming`, taken in order.
pub open spec fn merged(groups: Seq<GroupView>, incoming: Seq<GroupView>) -> Seq<GroupView>
    decreases incoming.len(),
{
    if incoming.len() == 0 {
        groups
    } else {
        merge_entries(
            merged(groups, incoming.drop_last()),
            incoming.last().name,
            incoming.last().entries,
        )
    }
}

/// The skipped records among `entries`, as pairs of group name and username.
pub open spec fn skipped_entries(
    groups: Seq<GroupView>,
    name: Seq<char>,
    entries: Seq<EntryView>,
) -> Seq<(Seq<char>, Seq<char>)>
    decreases entries.len(),
{
    if entries.len() == 0 {
        Seq::empty()
    } else {
        let before = skipped_entries(groups, name, entries.drop_last());
        if is_duplicate(merge_entries(groups, name, entries.drop_last()), name, entries.last()) {
            before.push((name, entries.last().username))
        } else {
            before
        }
    }
}

/// The records that merging `incoming` into `groups` skips, in the order in
/// which they come, as pairs of group name and username.
pub open spec fn skipped(groups: Seq<GroupView>, incoming: Seq<GroupView>) -> Seq<
    (Seq<char>, Seq<char>),
>
    decreases incoming.len(),
{
    if incoming.len() == 0 {
        Seq::empty()
    } else {
        skipped(groups, incoming.drop_last()) + skipped_entries(
            merged(groups, incoming.drop_last()),
            incoming.last().name,
            incoming.last().entries,
        )
    }
}

/// `after` holds every group of `before` at its place, under its name, with
/// its records as the first of the group's records.
pub open spec fn extends(before: Seq<GroupView>, after: Seq<GroupView>) -> bool {
    &&& before.len() <= after.len()
    &&& forall|i: int|
        0 <= i < before.len() ==> {
            &&& (#[trigger] after[i]).name == before[i].name
            &&& before[i].entries.is_prefix_of(after[i].entries)
        }
}

/// Every record of `incoming` has its username and password in the group of
/// its name in `groups`.
pub open spec fn covers(groups: Seq<GroupView>, incoming: Seq<GroupView>) -> bool {
    forall|i: int, k: int|
        0 <= i < incoming.len() && 0 <= k < incoming[i].entries.len() ==> is_duplicate(
            groups,
            incoming[i].name,
            #[trigger] incoming[i].entries[k],
        )
}

proof fn lemma_extends_transitive(a: Seq<GroupView>, b: Seq<GroupView>, c: Seq<GroupView>)
    requires
        extends(a, b),
        extends(b, c),
    ensures
        extends(a, c),
{
    assert forall|i: int| 0 <= i < a.len() implies (#[trigger] c[i]).name == a[i].name
        && a[i].entries.is_prefix_of(c[i].entries) by {
        assert(b[i].name == a[i].name);
        assert(c[i].name == b[i].name);
        assert(a[i].entries.is_prefix_of(b[i].entries));
        assert(b[i].entries.is_prefix_of(c[i].entries));
        assert(a[i].entries =~= c[i].entries.subrange(0, a[i].entries.len() as int));
    }
}

proof fn lemma_duplicate_stays(
    before: Seq<GroupView>,
    after: Seq<GroupView>,
    name: Seq<char>,
    entry: EntryView,
)
    requires
        well_formed(before),
        well_formed(after),
        extends(before, after),
        is_duplicate(before, name, entry),
    ensures
        is_duplicate(after, name, entry),
{
    let i = group_index(before, name);
    let k = choose|k: int|
        0 <= k < before[i].entries.len() && (#[trigger] before[i].entries[k]).same_credential(
            entry,
        );
    assert(after[i].name == name);
    lemma_group_index_unique(after, name, i);
    assert(before[i].entries.is_prefix_of(after[i].entries));
    assert(after[i].entries[k] == before[i].entries[k]);
    assert(after[i].entries[k].same_credential(entry));
}

proof fn lemma_merge_entry(groups: Seq<GroupView>, name: Seq<char>, entry: EntryView)
    requires
        well_formed(groups),
    ensures
        well_formed(merge_entry(groups, name, entry)),
        extends(groups, merge_entry(groups, name, entry)),
        is_duplicate(merge_entry(groups, name, entry), name, entry),
{
    let after = merge_entry(groups, name, entry);
    if !is_duplicate(groups, name, entry) {
        if has_group(groups, name) {
            let i = group_index(groups, name);
            assert(after[i].name == name);
            assert forall|a: int, b: int| 0 <= a < b < after.len() implies #[trigger] after[a].name
                != #[trigger] after[b].name by {
                assert(after[a].name == groups[a].name);
                assert(after[b].name == groups[b].name);
            }
            assert forall|a: int| 0 <= a < after.len() implies (#[trigger] after[a]).entries.len()
                > 0 by {
                if a != i {
                    assert(after[a] == groups[a]);
                }
            }
            assert forall|a: int| 0 <= a < groups.len() implies (#[trigger] after[a]).name
                == groups[a].name && groups[a].entries.is_prefix_of(after[a].entries) by {
                if a == i {
                    assert(groups[i].entries =~= after[i].entries.subrange(
                        0,
                        groups[i].entries.len() as int,
                    ));
                } else {
                    assert(groups[a].entries =~= after[a].entries.subrange(
                        0,
                        groups[a].entries.len() as int,
                    ));
                }
            }
            lemma_group_index_unique(after, name, i);
            let k = groups[i].entries.len() as int;
            assert(after[i].entries[k].same_credential(entry));
        } else {
            let i = groups.len() as int;
            assert(after[i].name == name);
            assert forall|a: int, b: int| 0 <= a < b < after.len() implies #[trigger] after[a].name
                != #[trigger] after[b].name by {
                if b == i {
                    assert(after[a].name == groups[a].name);
                } else {
                    assert(after[a].name == groups[a].name);
                    assert(after[b].name == groups[b].name);
                }
            }
            assert forall|a: int| 0 <= a < after.len() implies (#[trigger] after[a]).entries.len()
                > 0 by {
                if a != i {
                    assert(after[a] == groups[a]);
                }
            }
            assert forall|a: int| 0 <= a < groups.len() implies (#[trigger] after[a]).name
                == groups[a].name && groups[a].entries.is_prefix_of(after[a].entries) by {
                assert(groups[a].entries =~= after[a].entries.subrange(
                    0,
                    groups[a].entries.len() as int,
                ));
            }
            lemma_group_index_unique(after, name, i);
            assert(after[i].entries[0].same_credential(entry));
        }
    } else {
        assert forall|a: int| 0 <= a < groups.len() implies groups[a].entries.is_prefix_of(
            (#[trigger] after[a]).entries,
        ) by {
            assert(groups[a].entries =~= after[a].entries.subrange(
                0,
                groups[a].entries.len() as int,
            ));
        }
    }
}

proof fn lemma_merge_entries(groups: Seq<GroupView>, name: Seq<char>, entries: Seq<EntryView>)
    requires
        well_formed(groups),
    ensures
        well_formed(merge_entries(groups, name, entries)),
        extends(groups, merge_entries(groups, name, entries)),
        forall|k: int|
            0 <= k < entries.len() ==> is_duplicate(
                merge_entries(groups, name, entries),
                name,
                #[trigger] entries[k],
            ),
    decreases entries.len(),
{
    if entries.len() == 0 {
        assert forall|a: int| 0 <= a < groups.len() implies groups[a].entries.is_prefix_of(
            (#[trigger] groups[a]).entries,
        ) by {
            assert(groups[a].entries =~= groups[a].entries.subrange(
                0,
                groups[a].entries.len() as int,
            ));
        }
    } else {
        let rest = entries.drop_last();
        let mid = merge_entries(groups, name, rest);
        let after = merge_entries(groups, name, entries);
        lemma_merge_entries(groups, name, rest);
        lemma_merge_entry(mid, name, entries.last());
        lemma_extends_transitive(groups, mid, after);
        assert forall|k: int| 0 <= k < entries.len() implies is_duplicate(
            after,
            name,
            #[trigger] entries[k],
        ) by {
            if k < entries.len() - 1 {
                assert(rest[k] == entries[k]);
                lemma_duplicate_stays(mid, after, name, entries[k]);
            }
        }
    }
}

/// Merging keeps a store well formed, keeps every record that was there at
/// its place, and leaves every incoming record present in the group of its
/// name.
pub proof fn lemma_merge_keeps_and_covers(groups: Seq<GroupView>, incoming: Seq<GroupView>)
    requires
        well_formed(groups),
    ensures
        well_formed(merged(groups, incoming)),
        extends(groups, merged(groups, incoming)),
        covers(merged(groups, incoming), incoming),
    decreases incoming.len(),
{
    if incoming.len() == 0 {
        lemma_merge_entries(groups, Seq::empty(), Seq::empty());
    } else {
        let rest = incoming.drop_last();
        let mid = merged(groups, rest);
        let last = incoming.last();
        let after = merged(groups, incoming);
        lemma_merge_keeps_and_covers(groups, rest);
        lemma_merge_entries(mid, last.name, last.entries);
        lemma_extends_transitive(groups, mid, after);
        assert forall|i: int, k: int|
            0 <= i < incoming.len() && 0 <= k < incoming[i].entries.len() implies is_duplicate(
            after,
            incoming[i].name,
            #[trigger] incoming[i].entries[k],
        ) by {
            if i < incoming.len() - 1 {
                assert(rest[i] == incoming[i]);
                assert(is_duplicate(mid, rest[i].name, rest[i].entries[k]));
                lemma_duplicate_stays(mid, after, incoming[i].name, incoming[i].entries[k]);
            }
        }
    }
}

proof fn lemma_covered_entries_change_nothing(
    groups: Seq<GroupView>,
    name: Seq<char>,
    entries: Seq<EntryView>,
)
    requires
        forall|k: int| 0 <= k < entries.len() ==> is_duplicate(groups, name, #[trigger] entries[k]),
    ensures
        merge_entries(groups, name, entries) == groups,
        skipped_entries(groups, name, entries).len() == entries.len(),
    decreases entries.len(),
{
    if entries.len() > 0 {
        let rest = entries.drop_last();
        assert forall|k: int| 0 <= k < rest.len() implies is_duplicate(
            groups,
            name,
            #[trigger] rest[k],
        ) by {
            assert(rest[k] == entries[k]);
        }
        lemma_covered_entries_change_nothing(groups, name, rest);
        assert(is_duplicate(groups, name, entries[entries.len() - 1]));
    }
}

/// How many records the groups hold together.
pub open spec fn entry_count(groups: Seq<GroupView>) -> nat
    decreases groups.len(),
{
    if groups.len() == 0 {
        0
    } else {
        entry_count(groups.drop_last()) + groups.last().entries.len()
    }
}

/// Merging what a store already covers changes nothing, and skips every
/// incoming record.
pub proof fn lemma_merge_of_covered(groups: Seq<GroupView>, incoming: Seq<GroupView>)
    requires
        covers(groups, incoming),
    ensures
        merged(groups, incoming) == groups,
        skipped(groups, incoming).len() == entry_count(incoming),
    decreases incoming.len(),
{
    if incoming.len() > 0 {
        let rest = incoming.drop_last();
        let last = incoming.last();
        assert forall|i: int, k: int|
            0 <= i < rest.len() && 0 <= k < rest[i].entries.len() implies is_duplicate(
            groups,
            rest[i].name,
            #[trigger] rest[i].entries[k],
        ) by {
            assert(rest[i] == incoming[i]);
            assert(is_duplicate(groups, incoming[i].name, incoming[i].entries[k]));
        }
        lemma_merge_of_covered(groups, rest);
        assert forall|k: int| 0 <= k < last.entries.len() implies is_duplicate(
            groups,
            last.name,
            #[trigger] last.entries[k],
        ) by {
            let i = incoming.len() - 1;
            assert(is_duplicate(groups, incoming[i].name, incoming[i].entries[k]));
        }
        lemma_covered_entries_change_nothing(groups, last.name, last.entries);
    }
}

/// Merging is idempotent: merging the same incoming groups a second time
/// leaves the store as the first merge left it, every incoming record being
/// skipped as a duplicate.
pub proof fn lemma_merge_idempotent(groups: Seq<GroupView>, incoming: Seq<GroupView>)
    requires
        well_formed(groups),
    ensures
        merged(merged(groups, incoming), incoming) == merged(groups, incoming),
        skipped(merged(groups, incoming), incoming).len() == entry_count(incoming),
{
    lemma_merge_keeps_and_covers(groups, incoming);
    lemma_merge_of_covered(merged(groups, incoming), incoming);
}

impl VaultData {
    /// Whether the group called `name` holds a record with the username and
    /// password of `entry`.
    pub fn holds_credential(&self, name: &str, entry: &Entry) -> (b: bool)
        requires
            self.wf(),
        ensures
            b == is_duplicate(self@, name@, entry@),
    {
        let i = match self.position(name) {
            Some(i) => i,
            None => {
                return false;
            },
        };
        let group = &self.entries[i];
        let n = group.entries.len();
        let ghost stored = self@[i as int].entries;
        let mut k: usize = 0;
        while k < n
            invariant
                k <= n,
                n == group.entries@.len(),
                has_group(self@, name@),
                group_index(self@, name@) == i,
                stored == self@[i as int].entries,
                stored == entry_views(group.entries@),
                forall|j: int| 0 <= j < k ==> !(#[trigger] stored[j]).same_credential(entry@),
            decreases n - k,
        {
            let e = &group.entries[k];
            if e.username == entry.username && e.password == entry.password {
                proof {
                    assert(stored[k as int].same_credential(entry@));
                }
                return true;
            }
            k += 1;
        }
        false
    }

    /// Merges `incoming` into this store. A record whose username and
    /// password are already in the group of its name is skipped; every other
    /// record is appended to that group, which is opened where it is
    /// missing. Nothing that was stored is changed or removed. Hands out the
    /// skipped records as pairs of group name and username.
    pub fn merge(&mut self, incoming: &VaultData) -> (report: Vec<(String, String)>)
        requires
            old(self).wf(),
        ensures
            final(self)@ == merged(old(self)@, incoming@),
            final(self).wf(),
            extends(old(self)@, final(self)@),
            covers(final(self)@, incoming@),
            report@.map_values(|p: (String, String)| (p.0@, p.1@)) == skipped(
                old(self)@,
                incoming@,
            ),
    {
        let ghost start = self@;
        let ghost pair = |p: (String, String)| (p.0@, p.1@);
        let mut report: Vec<(String, String)> = Vec::new();
        let n = incoming.entries.len();
        let mut i: usize = 0;
        proof {
            assert(incoming@.take(0) =~= Seq::<GroupView>::empty());
            assert(report@.map_values(pair) =~= Seq::empty());
        }
        while i < n
            invariant
                i <= n,
                n == incoming.entries@.len(),
                well_formed(start),
                self.wf(),
                pair == (|p: (String, String)| (p.0@, p.1@)),
                self@ == merged(start, incoming@.take(i as int)),
                report@.map_values(pair) == skipped(start, incoming@.take(i as int)),
            decreases n - i,
        {
            let group = &incoming.entries[i];
            let m = group.entries.len();
            let ghost base = self@;
            let ghost base_report = report@.map_values(pair);
            let ghost name = group.name@;
            let ghost entries = entry_views(group.entries@);
            let mut k: usize = 0;
            proof {
                assert(entries.take(0) =~= Seq::<EntryView>::empty());
                assert(report@.map_values(pair) =~= base_report + Seq::empty());
            }
            while k < m
                invariant
                    k <= m,
                    m == group.entries@.len(),
                    name == group.name@,
                    entries == entry_views(group.entries@),
                    self.wf(),
                    pair == (|p: (String, String)| (p.0@, p.1@)),
                    self@ == merge_entries(base, name, entries.take(k as int)),
                    report@.map_values(pair) == base_report + skipped_entries(
                        base,
                        name,
                        entries.take(k as int),
                    ),
                decreases m - k,
            {
                let entry = &group.entries[k];
                let ghost seen = report@.map_values(pair);
                proof {
                    let next = entries.take(k + 1);
                    assert(next.drop_last() =~= entries.take(k as int));
                    assert(next.last() == entry@);
                }
                if self.holds_credential(group.name.as_str(), entry) {
                    report.push((group.name.clone(), entry.username.clone()));
                    proof {
                        assert(report@.map_values(pair) =~= seen.push((name, entry@.username)));
                        assert(report@.map_values(pair) =~= base_report + skipped_entries(
                            base,
                            name,
                            entries.take(k + 1),
                        ));
                    }
                } else {
                    self.add_entry(group.name.as_str(), entry.clone());
                }
                k += 1;
            }
            proof {
                let next = incoming@.take(i + 1);
                assert(entries.take(m as int) =~= entries);
                assert(next.drop_last() =~= incoming@.take(i as int));
                assert(next.last() == incoming@[i as int]);
                assert(incoming@[i as int] == group@);
            }
            i += 1;
        }
        proof {
            assert(incoming@.take(n as int) =~= incoming@);
            lemma_merge_keeps_and_covers(start, incoming@);
        }
        report
    }
}

} // verus!
