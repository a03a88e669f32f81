//! The master-secret cache: a passphrase kept for a short while under the
//! vault's path, stamped with the time at which it was stored. Staleness is
//! judged when the record is read; nothing is evicted.

use crate::text::{
    decimal_i64, lemma_read_rendered, read_i64, rendered, to_chars, write_i64,
};
use vstd::prelude::*;
use vstd::string::{StrSliceExecFns, StringExecFns};

verus! {

/// Seconds for which a cached passphrase is reused when nothing else is
/// configured.
pub const DEFAULT_TTL: i64 = 600;

/// What to do for the master passphrase.
#[derive(Debug, PartialEq, Eq)]
pub enum MasterSecret {
    /// The cached passphrase is fresh: use it.
    Cached(String),
    /// Nothing usable is cached: ask, then store what was typed.
    Prompt,
}

/// The position of the first colon of `s`, or its length where it has none.
pub open spec fn colon_index(s: Seq<char>) -> int
    decreases s.len(),
{
    if s.len() == 0 || s[0] == ':' {
        0
    } else {
        1 + colon_index(s.drop_first())
    }
}

/// The time stamp of a record: what stands before the first colon, read as a
/// number, and zero where that is no number.
pub open spec fn stamp(record: Seq<char>) -> int {
    match decimal_i64(record.take(colon_index(record))) {
        Some(t) => t as int,
        None => 0,
    }
}

/// The passphrase that a record yields at time `now` under the time-to-live
/// `ttl`: what stands after the first colon, where there is one and the
/// record is no older than `ttl` seconds.
pub open spec fn cached_secret(record: Seq<char>, now: i64, ttl: i64) -> Option<Seq<char>> {
    let c = colon_index(record);
    if c < record.len() && now - stamp(record) <= ttl {
        Some(record.skip(c + 1))
    } else {
        None
    }
}

/// The record that stores `password` at time `now`: the time in decimal, a
/// colon, the passphrase.
pub open spec fn record_of(now: i64, password: Seq<char>) -> Seq<char> {
    rendered(now as int) + seq![':'] + password
}

/// The time-to-live that a setting asks for: the number it writes, and the
/// default where there is no setting or it writes no number.
pub open spec fn ttl_of(setting: Option<Seq<char>>) -> i64 {
    match setting {
        Some(s) => match decimal_i64(s) {
            Some(t) => t,
            None => DEFAULT_TTL,
        },
        None => DEFAULT_TTL,
    }
}

proof fn lemma_colon_index(s: Seq<char>, c: int)
    requires
        0 <= c <= s.len(),
        forall|i: int| 0 <= i < c ==> s[i] != ':',
        c < s.len() ==> s[c] == ':',
    ensures
        colon_index(s) == c,
    decreases s.len(),
{
    if c > 0 {
        let t = s.drop_first();
        assert forall|i: int| 0 <= i < c - 1 implies t[i] != ':' by {
            assert(t[i] == s[i + 1]);
        }
        lemma_colon_index(t, c - 1);
    }
}

/// A record that was stored at `then` yields its passphrase at `now` exactly
/// while it is no older than the time-to-live.
pub proof fn lemma_record_round_trip(then: i64, password: Seq<char>, now: i64, ttl: i64)
    ensures
        cached_secret(record_of(then, password), now, ttl) == if now - then <= ttl {
            Some(password)
        } else {
            None
        },
{
    let head = rendered(then as int);
    let record = record_of(then, password);
    lemma_read_rendered(then);
    let c = head.len() as int;
    assert forall|i: int| 0 <= i < c implies record[i] != ':' by {
        assert(record[i] == head[i]);
    }
    assert(record[c] == ':');
    lemma_colon_index(record, c);
    assert(record.take(c) =~= head);
    assert(record.skip(c + 1) =~= password);
}

/// The time-to-live that a setting asks for.
pub fn cache_ttl(setting: Option<&str>) -> (ttl: i64)
    ensures
        ttl == ttl_of(
            match setting {
                Some(s) => Some(s@),
                None => None,
            },
        ),
{
    match setting {
        Some(s) => {
            let chars = to_chars(s);
            proof {
                assert(chars@.take(chars@.len() as int) =~= chars@);
            }
            match read_i64(&chars, chars.len()) {
                Some(t) => t,
                None => DEFAULT_TTL,
            }
        },
        None => DEFAULT_TTL,
    }
}

/// The record that stores `password` at time `now`.
pub fn cache_record(now: i64, password: &str) -> (record: String)
    ensures
        record@ == record_of(now, password@),
{
    let mut record = String::new();
    write_i64(&mut record, now);
    proof {
        reveal_strlit(":");
    }
    record.append(":");
    record.append(password);
    proof {
        assert(record@ =~= record_of(now, password@));
    }
    record
}

/// Decides between the cached passphrase and a prompt: a record is reused
/// where it holds a colon and its time stamp lies no more than `ttl` seconds
/// before `now`. A stale or missing record means a prompt.
pub fn get_master_password(cached: Option<&str>, now: i64, ttl: i64) -> (r: MasterSecret)
    ensures
        match r {
            MasterSecret::Cached(password) => cached matches Some(record) && cached_secret(
                record@,
                now,
                ttl,
            ) == Some(password@),
            MasterSecret::Prompt => cached matches Some(record) ==> cached_secret(
                record@,
                now,
                ttl,
            ) is None,
        },
{
    let record = match cached {
        Some(record) => record,
        None => {
            return MasterSecret::Prompt;
        },
    };
    let chars = to_chars(record);
    let n = chars.len();
    let mut c: usize = 0;
    while c < n && chars[c] != ':'
        invariant
            c <= n,
            n == chars@.len(),
            forall|i: int| 0 <= i < c ==> chars@[i] != ':',
        decreases n - c,
    {
        c += 1;
    }
    proof {
        lemma_colon_index(chars@, c as int);
    }
    if c == n {
        return MasterSecret::Prompt;
    }
    let then: i64 = match read_i64(&chars, c) {
        Some(t) => t,
        None => 0,
    };
    if now as i128 - then as i128 <= ttl as i128 {
        let password = record.substring_char(c + 1, n);
        MasterSecret::Cached(String::from_str(password))
    } else {
        MasterSecret::Prompt
    }
}

} // verus!
