//! Listing: the records of a store as flat rows, narrowed by a filter and
//! put in order by a stable sort.

use crate::text::{
    contains, has_substring, lemma_lex_le_total, lemma_lex_le_transitive, lex_le, str_eq, text_le,
    to_chars,
};
use crate::vault::{Entry, EntryView, GroupView, VaultData};
use vstd::prelude::*;

verus! {

/// One line of a listing: a group's name and one of its records.
pub type RowView = (Seq<char>, EntryView);

/// What a listing is ordered by.
#[derive(Clone, Copy, Debug, PartialEq, Eq, Structural)]
pub enum SortKey {
    Name,
    Username,
}

/// The rows that borrowed rows stand for.
pub open spec fn row_views(rows: Seq<(&String, &Entry)>) -> Seq<RowView> {
    rows.map_values(|r: (&String, &Entry)| (r.0@, r.1@))
}

/// The rows of one group, in the order of its records.
pub open spec fn group_rows(group: GroupView) -> Seq<RowView> {
    group.entries.map_values(|e: EntryView| (group.name, e))
}

/// Every record of every group as a row: groups in their order, and within
/// a group its records in theirs.
pub open spec fn rows_of(groups: Seq<GroupView>) -> Seq<RowView>
    decreases groups.len(),
{
    if groups.len() == 0 {
        Seq::empty()
    } else {
        rows_of(groups.drop_last()) + group_rows(groups.last())
    }
}

/// A row passes the filter where its name or its username contains it.
pub open spec fn row_kept(row: RowView, filter: Seq<char>) -> bool {
    has_substring(row.0, filter) || has_substring(row.1.username, filter)
}

/// The rows that pass the filter, in their order; all of them without one.
pub open spec fn filtered(rows: Seq<RowView>, filter: Option<Seq<char>>) -> Seq<RowView> {
    match filter {
        Some(f) => rows.filter(|r: RowView| row_kept(r, f)),
        None => rows,
    }
}

/// The key that a sort request names: `name` and `username` are keys, any
/// other word and no word leave the rows as they come.
pub open spec fn sort_key(sort: Option<Seq<char>>) -> Option<SortKey> {
    match sort {
        Some(word) => if word == "name"@ {
            Some(SortKey::Name)
        } else if word == "username"@ {
            Some(SortKey::Username)
        } else {
            None
        },
        None => None,
    }
}

/// The text by which a row is ordered.
pub open spec fn key_of(row: RowView, key: SortKey) -> Seq<char> {
    match key {
        SortKey::Name => row.0,
        SortKey::Username => row.1.username,
    }
}

/// The keys of `rows`, row by row.
pub open spec fn keys_of(rows: Seq<RowView>, key: SortKey) -> Seq<Seq<char>> {
    rows.map_values(|r: RowView| key_of(r, key))
}

/// `order` lists the positions of `keys` by ascending key, positions with
/// the same key in ascending order. There is exactly one such list: the
/// stable sort.
pub open spec fn is_stable_order(keys: Seq<Seq<char>>, order: Seq<int>) -> bool {
    &&& order.len() == keys.len()
    &&& forall|i: int| 0 <= i < order.len() ==> 0 <= #[trigger] order[i] < keys.len()
    &&& forall|i: int, j: int|
        0 <= i < j < order.len() ==> {
            &&& lex_le(keys[#[trigger] order[i]], keys[#[trigger] order[j]])
            &&& lex_le(keys[order[j]], keys[order[i]]) ==> order[i] < order[j]
        }
}

/// A stable order holds every position exactly once.
pub proof fn lemma_stable_order_is_permutation(keys: Seq<Seq<char>>, order: Seq<int>)
    requires
        is_stable_order(keys, order),
    ensures
        order.no_duplicates(),
        forall|v: int| 0 <= v < keys.len() ==> order.contains(v),
{
    let n = keys.len() as int;
    assert forall|i: int, j: int| 0 <= i < order.len() && 0 <= j < order.len() && i
        != j implies order[i] != order[j] by {
        let (lo, hi) = if i < j {
            (i, j)
        } else {
            (j, i)
        };
        assert(lex_le(keys[order[lo]], keys[order[hi]]));
        if order[lo] == order[hi] {
            assert(lex_le(keys[order[hi]], keys[order[lo]]));
            assert(order[lo] < order[hi]);
        }
    }
    order.unique_seq_to_set();
    vstd::set_lib::lemma_int_range(0, n);
    let range = vstd::set_lib::set_int_range(0, n);
    assert(order.to_set().subset_of(range)) by {
        assert forall|v: int| order.to_set().contains(v) implies range.contains(v) by {
            let i = choose|i: int| 0 <= i < order.len() && order[i] == v;
            assert(0 <= order[i] < n);
        }
    }
    vstd::set_lib::lemma_len_subset(order.to_set(), range);
    vstd::set_lib::lemma_subset_equality(order.to_set(), range);
    assert forall|v: int| 0 <= v < n implies order.contains(v) by {
        assert(range.contains(v));
        assert(order.to_set().contains(v));
    }
}

/// Keys have exactly one stable order: the stable sort is determined.
pub proof fn lemma_stable_order_unique(keys: Seq<Seq<char>>, a: Seq<int>, b: Seq<int>)
    requires
        is_stable_order(keys, a),
        is_stable_order(keys, b),
    ensures
        a == b,
{
    lemma_stable_order_is_permutation(keys, a);
    lemma_stable_order_is_permutation(keys, b);
    let n = keys.len() as int;
    assert forall|i: int| 0 <= i < n implies a[i] == b[i] by {
        lemma_same_up_to(keys, a, b, i);
    }
    assert(a =~= b);
}

proof fn lemma_same_up_to(keys: Seq<Seq<char>>, a: Seq<int>, b: Seq<int>, i: int)
    requires
        is_stable_order(keys, a),
        is_stable_order(keys, b),
        a.no_duplicates(),
        b.no_duplicates(),
        forall|v: int| 0 <= v < keys.len() ==> a.contains(v),
        forall|v: int| 0 <= v < keys.len() ==> b.contains(v),
        0 <= i < keys.len(),
    ensures
        a[i] == b[i],
    decreases i,
{
    assert forall|j: int| 0 <= j < i implies a[j] == b[j] by {
        lemma_same_up_to(keys, a, b, j);
    }
    let x = a[i];
    let y = b[i];
    assert(0 <= x < keys.len());
    assert(0 <= y < keys.len());
    assert(b.contains(x));
    assert(a.contains(y));
    let p = choose|p: int| 0 <= p < b.len() && b[p] == x;
    let q = choose|q: int| 0 <= q < a.len() && a[q] == y;
    if p < i {
        assert(a[p] == b[p]);
        assert(a[p] == a[i]);
    }
    if q < i {
        assert(b[q] == a[q]);
        assert(b[q] == b[i]);
    }
    if p > i {
        assert(lex_le(keys[b[i]], keys[b[p]]));
        assert(q != i);
        assert(lex_le(keys[a[i]], keys[a[q]]));
    }
}

/// `output` is `input` sorted by `key`, rows with the same key in the order
/// in which they stood.
pub open spec fn is_sorted_by(input: Seq<RowView>, output: Seq<RowView>, key: SortKey) -> bool {
    exists|order: Seq<int>| #[trigger]
        is_stable_order(keys_of(input, key), order) && output == order.map_values(
            |i: int| input[i],
        )
}

/// Rows have exactly one sorted arrangement by a key.
pub proof fn lemma_sorted_rows_unique(
    input: Seq<RowView>,
    first: Seq<RowView>,
    second: Seq<RowView>,
    key: SortKey,
)
    requires
        is_sorted_by(input, first, key),
        is_sorted_by(input, second, key),
    ensures
        first == second,
{
    let a = choose|order: Seq<int>| #[trigger]
        is_stable_order(keys_of(input, key), order) && first == order.map_values(
            |i: int| input[i],
        );
    let b = choose|order: Seq<int>| #[trigger]
        is_stable_order(keys_of(input, key), order) && second == order.map_values(
            |i: int| input[i],
        );
    lemma_stable_order_unique(keys_of(input, key), a, b);
}

/// `output` is what a listing of `input` shows under `filter` and `sort`.
pub open spec fn is_arranged(
    input: Seq<RowView>,
    filter: Option<Seq<char>>,
    sort: Option<Seq<char>>,
    output: Seq<RowView>,
) -> bool {
    match sort_key(sort) {
        Some(key) => is_sorted_by(filtered(input, filter), output, key),
        None => output == filtered(input, filter),
    }
}

/// The views of owned texts.
pub open spec fn texts(keys: Seq<Vec<char>>) -> Seq<Seq<char>> {
    keys.map_values(|k: Vec<char>| k@)
}

/// Positions as mathematical integers.
pub open spec fn positions(order: Seq<usize>) -> Seq<int> {
    order.map_values(|i: usize| i as int)
}

/// Reads a sort request.
pub fn parse_sort_key(sort: Option<&str>) -> (key: Option<SortKey>)
    ensures
        key == sort_key(
            match sort {
                Some(word) => Some(word@),
                None => None,
            },
        ),
{
    match sort {
        Some(word) => {
            if str_eq(word, "name") {
                Some(SortKey::Name)
            } else if str_eq(word, "username") {
                Some(SortKey::Username)
            } else {
                None
            }
        },
        None => None,
    }
}

/// The rows that pass `filter`, in their order.
pub fn keep_matching<'a>(rows: &Vec<(&'a String, &'a Entry)>, filter: &str) -> (kept: Vec<
    (&'a String, &'a Entry),
>)
    ensures
        row_views(kept@) == filtered(row_views(rows@), Some(filter@)),
{
    let needle = to_chars(filter);
    let ghost pred = |r: RowView| row_kept(r, filter@);
    let mut kept: Vec<(&'a String, &'a Entry)> = Vec::new();
    let n = rows.len();
    let mut i: usize = 0;
    proof {
        reveal(Seq::filter);
        assert(row_views(rows@.take(0)) =~= Seq::<RowView>::empty());
        assert(row_views(kept@) =~= Seq::<RowView>::empty());
    }
    while i < n
        invariant
            i <= n,
            n == rows@.len(),
            needle@ == filter@,
            pred == (|r: RowView| row_kept(r, filter@)),
            row_views(kept@) == row_views(rows@.take(i as int)).filter(pred),
        decreases n - i,
    {
        let row = rows[i];
        let name = to_chars(row.0.as_str());
        let user = to_chars(row.1.username.as_str());
        let ghost before = row_views(kept@);
        proof {
            let prefix = row_views(rows@.take(i as int));
            let next = row_views(rows@.take(i + 1));
            assert(next =~= prefix.push((row.0@, row.1@)));
            assert(next.drop_last() =~= prefix);
            assert(next.last() == (row.0@, row.1@));
            reveal(Seq::filter);
            assert(next.filter(pred) == if pred(next.last()) {
                prefix.filter(pred).push(next.last())
            } else {
                prefix.filter(pred)
            });
        }
        if contains(&name, &needle) || contains(&user, &needle) {
            kept.push(row);
            proof {
                assert(row_views(kept@) =~= before.push((row.0@, row.1@)));
            }
        }
        i += 1;
    }
    proof {
        assert(rows@.take(n as int) =~= rows@);
    }
    kept
}

/// The stable sort of `keys`, as the list of their positions.
pub fn stable_order(keys: &Vec<Vec<char>>) -> (order: Vec<usize>)
    ensures
        is_stable_order(texts(keys@), positions(order@)),
{
    let n = keys.len();
    let mut order: Vec<usize> = Vec::new();
    let mut k: usize = 0;
    while k < n
        invariant
            k <= n,
            n == keys@.len(),
            is_stable_order(texts(keys@.take(k as int)), positions(order@)),
        decreases n - k,
    {
        let ghost ks = texts(keys@);
        let ghost old_order = positions(order@);
        let mut p: usize = order.len();
        proof {
            assert forall|i: int| 0 <= i < k implies 0 <= #[trigger] order@[i] < k by {
                assert(0 <= old_order[i] < k);
            }
        }
        while p > 0 && !text_le(&keys[order[p - 1]], &keys[k])
            invariant
                p <= order@.len(),
                order@.len() == k,
                k < n,
                n == keys@.len(),
                forall|i: int| 0 <= i < k ==> 0 <= #[trigger] order@[i] < k,
                forall|j: int| p <= j < k ==> !lex_le(keys@[order@[j] as int]@, keys@[k as int]@),
            decreases p,
        {
            p -= 1;
        }
        order.insert(p, k);
        proof {
            let new_order = positions(order@);
            let prev = texts(keys@.take(k as int));
            let cur = texts(keys@.take(k + 1));
            assert(new_order =~= old_order.insert(p as int, k as int));
            assert forall|i: int| 0 <= i < k implies prev[i] == ks[i] && cur[i] == ks[i] by {}
            assert(cur[k as int] == ks[k as int]);
            // every position before the gap holds a key no greater than the new one
            assert forall|i: int| 0 <= i < p implies lex_le(ks[old_order[i]], ks[k as int]) by {
                if i < p - 1 {
                    assert(lex_le(prev[old_order[i]], prev[old_order[p - 1]]));
                    lemma_lex_le_transitive(
                        ks[old_order[i]],
                        ks[old_order[p - 1]],
                        ks[k as int],
                    );
                }
            }
            // every position after it holds a strictly greater one
            assert forall|j: int| p <= j < k implies lex_le(ks[k as int], ks[old_order[j]])
                && !lex_le(ks[old_order[j]], ks[k as int]) by {
                lemma_lex_le_total(ks[k as int], ks[old_order[j]]);
            }
            assert forall|i: int, j: int| 0 <= i < j < new_order.len() implies {
                &&& lex_le(cur[#[trigger] new_order[i]], cur[#[trigger] new_order[j]])
                &&& lex_le(cur[new_order[j]], cur[new_order[i]]) ==> new_order[i] < new_order[j]
            } by {
                if j < p {
                    assert(new_order[i] == old_order[i] && new_order[j] == old_order[j]);
                    assert(lex_le(prev[old_order[i]], prev[old_order[j]]));
                } else if j == p {
                    assert(new_order[i] == old_order[i] && new_order[j] == k);
                } else if i < p {
                    assert(new_order[i] == old_order[i] && new_order[j] == old_order[j - 1]);
                    if i < j - 1 {
                        assert(lex_le(prev[old_order[i]], prev[old_order[j - 1]]));
                    }
                } else if i == p {
                    assert(new_order[i] == k && new_order[j] == old_order[j - 1]);
                } else {
                    assert(new_order[i] == old_order[i - 1] && new_order[j] == old_order[j - 1]);
                    assert(lex_le(prev[old_order[i - 1]], prev[old_order[j - 1]]));
                }
            }
            assert(is_stable_order(cur, new_order));
        }
        k += 1;
    }
    proof {
        assert(keys@.take(n as int) =~= keys@);
    }
    order
}

/// The rows sorted by `key`, rows with the same key in the order in which
/// they stood.
pub fn sort_rows<'a>(rows: &Vec<(&'a String, &'a Entry)>, key: SortKey) -> (sorted: Vec<
    (&'a String, &'a Entry),
>)
    ensures
        is_sorted_by(row_views(rows@), row_views(sorted@), key),
{
    let n = rows.len();
    let mut keys: Vec<Vec<char>> = Vec::new();
    let mut i: usize = 0;
    while i < n
        invariant
            i <= n,
            n == rows@.len(),
            keys@.len() == i,
            forall|k: int| 0 <= k < i ==> (#[trigger] keys@[k])@ == key_of(row_views(rows@)[k], key),
        decreases n - i,
    {
        let row = rows[i];
        let text = match key {
            SortKey::Name => to_chars(row.0.as_str()),
            SortKey::Username => to_chars(row.1.username.as_str()),
        };
        keys.push(text);
        i += 1;
    }
    proof {
        assert(texts(keys@) =~= keys_of(row_views(rows@), key));
    }
    let order = stable_order(&keys);
    let mut sorted: Vec<(&'a String, &'a Entry)> = Vec::new();
    let mut j: usize = 0;
    while j < n
        invariant
            j <= n,
            n == rows@.len(),
            n == order@.len(),
            sorted@.len() == j,
            is_stable_order(keys_of(row_views(rows@), key), positions(order@)),
            forall|k: int| 0 <= k < j ==> #[trigger] sorted@[k] == rows@[order@[k] as int],
        decreases n - j,
    {
        let ghost ord = positions(order@);
        proof {
            assert(0 <= ord[j as int] < n);
        }
        sorted.push(rows[order[j]]);
        j += 1;
    }
    proof {
        let ord = positions(order@);
        let input = row_views(rows@);
        assert forall|k: int| 0 <= k < n implies row_views(sorted@)[k] == input[ord[k]] by {
            assert(0 <= ord[k] < n);
            assert(sorted@[k] == rows@[order@[k] as int]);
        }
        assert(row_views(sorted@) =~= ord.map_values(|i: int| input[i]));
    }
    sorted
}

/// The rows under `filter` and `sort`: narrowed first, then put in order.
pub fn arrange<'a>(
    rows: &Vec<(&'a String, &'a Entry)>,
    filter: Option<&str>,
    sort: Option<&str>,
) -> (out: Vec<(&'a String, &'a Entry)>)
    ensures
        is_arranged(
            row_views(rows@),
            match filter {
                Some(f) => Some(f@),
                None => None,
            },
            match sort {
                Some(s) => Some(s@),
                None => None,
            },
            row_views(out@),
        ),
{
    let kept = match filter {
        Some(f) => keep_matching(rows, f),
        None => {
            let mut all: Vec<(&'a String, &'a Entry)> = Vec::new();
            let n = rows.len();
            let mut i: usize = 0;
            while i < n
                invariant
                    i <= n,
                    n == rows@.len(),
                    all@ == rows@.take(i as int),
                decreases n - i,
            {
                all.push(rows[i]);
                proof {
                    assert(all@ =~= rows@.take(i + 1));
                }
                i += 1;
            }
            proof {
                assert(rows@.take(n as int) =~= rows@);
            }
            all
        },
    };
    match parse_sort_key(sort) {
        Some(key) => sort_rows(&kept, key),
        None => kept,
    }
}

impl VaultData {
    /// Every record of the store as a row: groups in their order, and within
    /// a group its records in theirs.
    pub fn rows(&self) -> (rows: Vec<(&String, &Entry)>)
        ensures
            row_views(rows@) == rows_of(self@),
    {
        let mut rows: Vec<(&String, &Entry)> = Vec::new();
        let n = self.entries.len();
        let mut i: usize = 0;
        proof {
            assert(self@.take(0) =~= Seq::<GroupView>::empty());
            assert(row_views(rows@) =~= rows_of(self@.take(0)));
        }
        while i < n
            invariant
                i <= n,
                n == self.entries@.len(),
                row_views(rows@) == rows_of(self@.take(i as int)),
            decreases n - i,
        {
            let group = &self.entries[i];
            let m = group.entries.len();
            let ghost before = row_views(rows@);
            let ghost g = self@[i as int];
            let mut k: usize = 0;
            proof {
                assert(row_views(rows@) =~= before + group_rows(g).take(0));
            }
            while k < m
                invariant
                    k <= m,
                    m == group.entries@.len(),
                    i < n,
                    n == self.entries@.len(),
                    *group == self.entries@[i as int],
                    g == self@[i as int],
                    row_views(rows@) == before + group_rows(g).take(k as int),
                decreases m - k,
            {
                let ghost seen = row_views(rows@);
                rows.push((&group.name, &group.entries[k]));
                proof {
                    assert(g.entries[k as int] == group.entries@[k as int]@);
                    assert(row_views(rows@) =~= seen.push((g.name, g.entries[k as int])));
                    assert(group_rows(g).take(k + 1) =~= group_rows(g).take(k as int).push(
                        (g.name, g.entries[k as int]),
                    ));
                    assert(row_views(rows@) =~= before + group_rows(g).take(k + 1));
                }
                k += 1;
            }
            proof {
                let next = self@.take(i + 1);
                assert(group_rows(g).take(m as int) =~= group_rows(g));
                assert(next.drop_last() =~= self@.take(i as int));
                assert(next.last() == g);
            }
            i += 1;
        }
        proof {
            assert(self@.take(n as int) =~= self@);
        }
        rows
    }
}

} // verus!
