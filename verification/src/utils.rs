//! Relative times such as `3d` or `2w`, and the pause after failed attempts.

use crate::crypto::{base64_decoded, decoded_length};
use crate::json::{parse_json, parsed_json, Json};
use crate::text::{
    decimal_value, digit_of, is_blank, is_blank_text, is_digit, lemma_decimal_value_grows,
    to_chars,
};
use vstd::prelude::*;

verus! {

/// Why a relative time was refused.
#[derive(Clone, Copy, Debug, PartialEq, Eq, Structural)]
pub enum TimeError {
    /// The expiry holds no amount of time, or there is no expiry to count a
    /// reminder back from.
    InvalidExpired,
    /// The reminder holds no amount of time.
    InvalidRemind,
    /// The time lies outside what a 64-bit Unix time can hold.
    OutOfRange,
}

/// The seconds in the unit that `c` names, in either case: hours, days,
/// weeks, months of 30 days, years of 365 days. Zero for any other character.
pub open spec fn unit_seconds(c: char) -> int {
    if c == 'h' || c == 'H' {
        3600
    } else if c == 'd' || c == 'D' {
        86400
    } else if c == 'w' || c == 'W' {
        604800
    } else if c == 'm' || c == 'M' {
        2592000
    } else if c == 'y' || c == 'Y' {
        31536000
    } else {
        0
    }
}

/// Where the unbroken run of digits that ends just before position `j`
/// starts; `j` itself where no digit stands before it.
pub open spec fn run_start(s: Seq<char>, j: int) -> int
    decreases j,
{
    if 0 < j <= s.len() && is_digit(s[j - 1]) {
        run_start(s, j - 1)
    } else {
        j
    }
}

/// The seconds that the character at `j` adds: where it is a unit letter with
/// digits directly before it, the number that all those digits write, times
/// the unit. Anything else adds nothing.
pub open spec fn token_seconds(s: Seq<char>, j: int) -> int {
    if 0 < j < s.len() && is_digit(s[j - 1]) {
        decimal_value(s.subrange(run_start(s, j), j)) * unit_seconds(s[j])
    } else {
        0
    }
}

/// The seconds that the characters before position `n` add up to.
pub open spec fn duration_upto(s: Seq<char>, n: int) -> int
    decreases n,
{
    if n <= 0 {
        0
    } else {
        duration_upto(s, n - 1) + token_seconds(s, n - 1)
    }
}

/// The amount of time that `s` writes, in seconds: the sum of its tokens, a
/// token being a number directly followed by a unit letter. Whatever stands
/// between tokens is skipped.
pub open spec fn duration_seconds(s: Seq<char>) -> int {
    duration_upto(s, s.len() as int)
}

proof fn lemma_run_is_digits(s: Seq<char>, j: int)
    requires
        0 <= j <= s.len(),
    ensures
        0 <= run_start(s, j) <= j,
        decimal_value(s.subrange(run_start(s, j), j)) >= 0,
    decreases j,
{
    if 0 < j && is_digit(s[j - 1]) {
        lemma_run_is_digits(s, j - 1);
    }
    let run = s.subrange(run_start(s, j), j);
    lemma_decimal_value_grows(run, 0);
}

proof fn lemma_token_not_negative(s: Seq<char>, j: int)
    ensures
        token_seconds(s, j) >= 0,
{
    if 0 < j < s.len() && is_digit(s[j - 1]) {
        lemma_run_is_digits(s, j);
        let v = decimal_value(s.subrange(run_start(s, j), j));
        let u = unit_seconds(s[j]);
        assert(v * u >= 0) by (nonlinear_arith)
            requires
                v >= 0,
                u >= 0,
        ;
    }
}

proof fn lemma_duration_grows(s: Seq<char>, i: int, n: int)
    requires
        i <= n,
    ensures
        duration_upto(s, i) <= duration_upto(s, n),
        0 <= duration_upto(s, i),
    decreases n - i, i,
{
    if i > 0 {
        lemma_duration_grows(s, i - 1, i - 1);
        lemma_token_not_negative(s, i - 1);
    }
    if i < n {
        lemma_duration_grows(s, i, n - 1);
        lemma_token_not_negative(s, n - 1);
    }
}

/// The seconds in the unit that `c` names; zero where it names none.
pub fn unit_of(c: char) -> (u: i64)
    ensures
        u == unit_seconds(c),
{
    if c == 'h' || c == 'H' {
        3600
    } else if c == 'd' || c == 'D' {
        86400
    } else if c == 'w' || c == 'W' {
        604800
    } else if c == 'm' || c == 'M' {
        2592000
    } else if c == 'y' || c == 'Y' {
        31536000
    } else {
        0
    }
}

/// The amount of time that `input` writes, in seconds; `None` where it is
/// more than an `i64` holds.
pub fn duration(input: &str) -> (r: Option<i64>)
    ensures
        match r {
            Some(t) => t == duration_seconds(input@),
            None => duration_seconds(input@) > i64::MAX,
        },
{
    let s = to_chars(input);
    let n = s.len();
    let mut acc: i64 = 0;
    let mut in_run = false;
    let mut run: i64 = 0;
    let mut big = false;
    let mut i: usize = 0;
    while i < n
        invariant
            i <= n,
            n == s@.len(),
            s@ == input@,
            0 <= acc,
            acc == duration_upto(s@, i as int),
            in_run == (i > 0 && is_digit(s@[i - 1])),
            in_run ==> 0 <= run,
            in_run ==> if big {
                decimal_value(s@.subrange(run_start(s@, i as int), i as int)) > i64::MAX
            } else {
                run == decimal_value(s@.subrange(run_start(s@, i as int), i as int))
            },
        decreases n - i,
    {
        let c = s[i];
        let ghost start = run_start(s@, i as int);
        let ghost value = decimal_value(s@.subrange(start, i as int));
        proof {
            lemma_run_is_digits(s@, i as int);
            if !in_run {
                assert(s@.subrange(start, i as int) =~= Seq::<char>::empty());
            }
        }
        match digit_of(c) {
            Some(d) => {
                proof {
                    let next = s@.subrange(start, i + 1);
                    assert(run_start(s@, i + 1) == start);
                    assert(next.drop_last() =~= s@.subrange(start, i as int));
                    assert(next.last() == c);
                    assert(decimal_value(next) == value * 10 + d);
                    assert(token_seconds(s@, i as int) == 0) by {
                        assert(unit_seconds(c) == 0);
                        assert(decimal_value(s@.subrange(run_start(s@, i as int), i as int)) * 0
                            == 0);
                    }
                }
                if !in_run {
                    run = d as i64;
                    big = false;
                } else if !big {
                    if run > (i64::MAX - d as i64) / 10 {
                        big = true;
                    } else {
                        run = run * 10 + d as i64;
                    }
                }
                in_run = true;
            },
            None => {
                let u = unit_of(c);
                if in_run && u > 0 {
                    proof {
                        assert(token_seconds(s@, i as int) == value * u);
                        lemma_duration_grows(s@, i + 1, n as int);
                        assert(value * u >= value) by (nonlinear_arith)
                            requires
                                value >= 0,
                                u >= 1,
                        ;
                    }
                    if big {
                        return None;
                    }
                    let sum: i128 = acc as i128 + run as i128 * u as i128;
                    if sum > i64::MAX as i128 {
                        return None;
                    }
                    acc = sum as i64;
                } else {
                    proof {
                        if in_run {
                            assert(value * 0 == 0);
                        }
                    }
                }
                in_run = false;
            },
        }
        i += 1;
    }
    Some(acc)
}

/// The Unix time that lies the amount of time written in `input` after
/// `now`.
///
/// An input that writes no time at all is refused, and so is a time that a
/// 64-bit Unix time cannot hold.
pub fn parse_expired_time(input: &str, now: i64) -> (r: Result<i64, TimeError>)
    ensures
        r == expired_time(input@, now),
        r matches Ok(at) ==> now < at,
{
    proof {
        lemma_duration_grows(input@, 0, input@.len() as int);
    }
    match duration(input) {
        None => Err(TimeError::OutOfRange),
        Some(total) => {
            if total == 0 {
                Err(TimeError::InvalidExpired)
            } else {
                match now.checked_add(total) {
                    Some(at) => Ok(at),
                    None => Err(TimeError::OutOfRange),
                }
            }
        },
    }
}

/// What [`parse_expired_time`] returns.
pub open spec fn expired_time(input: Seq<char>, now: i64) -> Result<i64, TimeError> {
    let total = duration_seconds(input);
    if total > i64::MAX {
        Err(TimeError::OutOfRange)
    } else if total == 0 {
        Err(TimeError::InvalidExpired)
    } else if now + total > i64::MAX {
        Err(TimeError::OutOfRange)
    } else {
        Ok((now + total) as i64)
    }
}

/// What [`parse_remind_time`] returns.
pub open spec fn remind_time(expired: Option<i64>, input: Seq<char>) -> Result<i64, TimeError> {
    let total = duration_seconds(input);
    if total > i64::MAX {
        Err(TimeError::OutOfRange)
    } else if total == 0 {
        Err(TimeError::InvalidRemind)
    } else if expired is None || expired == Some(0i64) {
        Err(TimeError::InvalidExpired)
    } else if expired->0 - total < i64::MIN {
        Err(TimeError::OutOfRange)
    } else {
        Ok((expired->0 - total) as i64)
    }
}

/// The Unix time that lies the amount of time written in `input` before
/// `expired`.
///
/// An input that writes no time at all is refused; so is a reminder without
/// an expiry to count back from (none, or the zero time), and a time that a
/// 64-bit Unix time cannot hold. A reminder that comes back lies before the
/// expiry.
pub fn parse_remind_time(expired: Option<i64>, input: &str) -> (r: Result<i64, TimeError>)
    ensures
        r == remind_time(expired, input@),
        expired is None ==> r is Err,
        r matches Ok(at) ==> expired matches Some(e) && at < e,
{
    proof {
        lemma_duration_grows(input@, 0, input@.len() as int);
    }
    match duration(input) {
        None => Err(TimeError::OutOfRange),
        Some(total) => {
            if total == 0 {
                Err(TimeError::InvalidRemind)
            } else {
                match expired {
                    None => Err(TimeError::InvalidExpired),
                    Some(e) => {
                        if e == 0 {
                            Err(TimeError::InvalidExpired)
                        } else {
                            match e.checked_sub(total) {
                                Some(at) => Ok(at),
                                None => Err(TimeError::OutOfRange),
                            }
                        }
                    },
                }
            }
        },
    }
}

/// Two to the power `n`.
pub open spec fn two_to(n: nat) -> nat
    decreases n,
{
    if n == 0 {
        1
    } else {
        2 * two_to((n - 1) as nat)
    }
}

/// The minutes to wait after `attempts` failed attempts, from the fifth on:
/// one minute, doubling with every further attempt up to 32.
pub open spec fn wait_time(attempts: u32) -> nat {
    if attempts - 5 < 5 {
        two_to((attempts - 5) as nat)
    } else {
        32
    }
}

/// The minutes to wait after `attempts` failed attempts.
pub fn compute_wait_time(attempts: u32) -> (minutes: u64)
    requires
        attempts >= 5,
    ensures
        minutes == wait_time(attempts),
        1 <= minutes <= 32,
{
    let steps: u32 = if attempts - 5 < 5 {
        attempts - 5
    } else {
        5
    };
    let mut minutes: u64 = 1;
    let mut i: u32 = 0;
    while i < steps
        invariant
            i <= steps <= 5,
            minutes == two_to(i as nat),
            minutes <= 32,
            i < 5 ==> minutes <= 16,
        decreases steps - i,
    {
        proof {
            reveal_with_fuel(two_to, 6);
        }
        minutes = minutes * 2;
        i += 1;
    }
    proof {
        reveal_with_fuel(two_to, 6);
    }
    minutes
}

/// The least number of bytes a password field must decode to for it to
/// count as sealed.
pub const SEALED_MIN_LEN: usize = 32;

/// The text is base64 for at least 32 bytes.
pub open spec fn text_looks_sealed(text: Seq<char>) -> bool {
    base64_decoded(text) matches Some(bytes) && bytes.len() >= SEALED_MIN_LEN
}

/// The entry is an object whose `password` is a text that looks sealed.
pub open spec fn entry_looks_sealed(entry: Json) -> bool {
    entry.member("password"@) matches Some(Json::Text(t)) && text_looks_sealed(t@)
}

/// The value is an array with an entry that looks sealed.
pub open spec fn list_looks_sealed(list: Json) -> bool {
    list matches Json::Array(items) && exists|i: int|
        0 <= i < items@.len() && entry_looks_sealed(#[trigger] items@[i])
}

/// The document has an object `entries`, and under one of its names a list
/// with an entry that looks sealed.
pub open spec fn document_looks_encrypted(doc: Json) -> bool {
    doc.member("entries"@) matches Some(Json::Object(groups)) && exists|g: int|
        0 <= g < groups@.len() && list_looks_sealed((#[trigger] groups@[g]).1)
}

/// The bytes are a JSON document that looks like an export with sealed
/// passwords.
pub open spec fn looks_encrypted(bytes: Seq<u8>) -> bool {
    parsed_json(bytes) matches Some(doc) && document_looks_encrypted(doc)
}

fn entry_is_sealed(entry: &Json) -> (b: bool)
    ensures
        b == entry_looks_sealed(*entry),
{
    match entry.get("password") {
        Some(Json::Text(t)) => match decoded_length(t.as_str()) {
            Some(n) => n >= SEALED_MIN_LEN,
            None => false,
        },
        _ => false,
    }
}

fn list_is_sealed(list: &Json) -> (b: bool)
    ensures
        b == list_looks_sealed(*list),
{
    match list {
        Json::Array(items) => {
            let n = items.len();
            let mut i: usize = 0;
            while i < n
                invariant
                    i <= n,
                    n == items@.len(),
                    *list == Json::Array(*items),
                    forall|k: int| 0 <= k < i ==> !entry_looks_sealed(#[trigger] items@[k]),
                decreases n - i,
            {
                if entry_is_sealed(&items[i]) {
                    proof {
                        assert(entry_looks_sealed(items@[i as int]));
                        assert(*list matches Json::Array(v) && v == *items);
                    }
                    return true;
                }
                i += 1;
            }
            false
        },
        _ => false,
    }
}

/// Whether a document looks like an export with sealed passwords: under
/// `entries`, some list holds an entry whose `password` is base64 for at
/// least 32 bytes.
pub fn json_looks_encrypted(doc: &Json) -> (b: bool)
    ensures
        b == document_looks_encrypted(*doc),
{
    match doc.get("entries") {
        Some(Json::Object(groups)) => {
            let n = groups.len();
            let mut g: usize = 0;
            while g < n
                invariant
                    g <= n,
                    n == groups@.len(),
                    doc.member("entries"@) == Some(Json::Object(*groups)),
                    forall|k: int| 0 <= k < g ==> !list_looks_sealed((#[trigger] groups@[k]).1),
                decreases n - g,
            {
                if list_is_sealed(&groups[g].1) {
                    proof {
                        assert(list_looks_sealed(groups@[g as int].1));
                        assert(doc.member("entries"@) matches Some(Json::Object(v)) && v
                            == *groups);
                    }
                    return true;
                }
                g += 1;
            }
            false
        },
        _ => false,
    }
}

/// Whether `data` looks like an export with sealed passwords. Anything that
/// is not a JSON document does not.
pub fn is_encrypted(data: &[u8]) -> (b: bool)
    ensures
        b == looks_encrypted(data@),
{
    match parse_json(data) {
        Some(doc) => json_looks_encrypted(&doc),
        None => false,
    }
}

/// The expiry and the reminder that two optional inputs ask for at time
/// `now`. A missing or blank input asks for nothing; the reminder is
/// counted back from the expiry.
pub open spec fn schedule(
    expired_input: Option<Seq<char>>,
    remind_input: Option<Seq<char>>,
    now: i64,
) -> Result<(Option<i64>, Option<i64>), TimeError> {
    let expired: Result<Option<i64>, TimeError> = if expired_input is Some && !is_blank(
        expired_input->0,
    ) {
        match expired_time(expired_input->0, now) {
            Ok(at) => Ok(Some(at)),
            Err(e) => Err(e),
        }
    } else {
        Ok(None)
    };
    match expired {
        Err(e) => Err(e),
        Ok(expired) => if remind_input is Some && !is_blank(remind_input->0) {
            match remind_time(expired, remind_input->0) {
                Ok(at) => Ok((expired, Some(at))),
                Err(e) => Err(e),
            }
        } else {
            Ok((expired, None))
        },
    }
}

/// The expiry and the reminder that two optional inputs ask for at time
/// `now`. A reminder that comes back has an expiry, and lies before it.
pub fn resolve_schedule(expired_input: Option<&str>, remind_input: Option<&str>, now: i64) -> (r:
    Result<(Option<i64>, Option<i64>), TimeError>)
    ensures
        r == schedule(
            match expired_input {
                Some(t) => Some(t@),
                None => None,
            },
            match remind_input {
                Some(t) => Some(t@),
                None => None,
            },
            now,
        ),
        r matches Ok((expired, remind)) ==> (remind matches Some(at) ==> expired matches Some(e)
            && at < e),
{
    let expired = match expired_input {
        Some(text) => {
            if is_blank_text(text) {
                None
            } else {
                match parse_expired_time(text, now) {
                    Ok(at) => Some(at),
                    Err(e) => {
                        return Err(e);
                    },
                }
            }
        },
        None => None,
    };
    let remind = match remind_input {
        Some(text) => {
            if is_blank_text(text) {
                None
            } else {
                match parse_remind_time(expired, text) {
                    Ok(at) => Some(at),
                    Err(e) => {
                        return Err(e);
                    },
                }
            }
        },
        None => None,
    };
    Ok((expired, remind))
}

} // verus!
