//! Strings as sequences of characters: the small vocabulary the rest of the
//! crate uses to compare, search and trim text.

use vstd::prelude::*;
use vstd::string::StringExecFns;
use vstd::string::StringSliceAdditionalSpecFns;
use vstd::utf8::encode_utf8;

verus! {

/// The characters of `s`, in order.
pub fn to_chars(s: &str) -> (v: Vec<char>)
    ensures
        v@ == s@,
{
    let mut v: Vec<char> = Vec::new();
    for c in it: s.chars()
        invariant
            v@ == it.seq().take(it.index() as int),
            it.seq() == s@,
    {
        v.push(c);
    }
    v
}

/// Whether two texts are the same.
pub fn str_eq(a: &str, b: &str) -> (r: bool)
    ensures
        r == (a@ == b@),
{
    let x = a.as_bytes();
    let y = b.as_bytes();
    proof {
        vstd::utf8::encode_utf8_decode_utf8(a@);
        vstd::utf8::encode_utf8_decode_utf8(b@);
        assert(x@ == encode_utf8(a@));
        assert(y@ == encode_utf8(b@));
    }
    if x.len() != y.len() {
        return false;
    }
    let n = x.len();
    let mut i: usize = 0;
    while i < n
        invariant
            i <= n,
            n == x@.len(),
            n == y@.len(),
            x@ == encode_utf8(a@),
            y@ == encode_utf8(b@),
            forall|k: int| 0 <= k < i ==> x@[k] == y@[k],
        decreases n - i,
    {
        if x[i] != y[i] {
            return false;
        }
        i += 1;
    }
    proof {
        assert(x@ =~= y@);
    }
    true
}

/// Unicode white space: the characters that trimming removes.
pub open spec fn is_whitespace(c: char) -> bool {
    let u = c as u32;
    ||| 0x09 <= u <= 0x0D
    ||| u == 0x20
    ||| u == 0x85
    ||| u == 0xA0
    ||| u == 0x1680
    ||| 0x2000 <= u <= 0x200A
    ||| u == 0x2028
    ||| u == 0x2029
    ||| u == 0x202F
    ||| u == 0x205F
    ||| u == 0x3000
}

pub fn whitespace(c: char) -> (b: bool)
    ensures
        b == is_whitespace(c),
{
    let u: u32 = c as u32;
    (0x09 <= u && u <= 0x0D) || u == 0x20 || u == 0x85 || u == 0xA0 || u == 0x1680 || (0x2000 <= u
        && u <= 0x200A) || u == 0x2028 || u == 0x2029 || u == 0x202F || u == 0x205F || u == 0x3000
}

/// Every character of `s` is white space (the empty text included).
pub open spec fn is_blank(s: Seq<char>) -> bool {
    forall|i: int| 0 <= i < s.len() ==> is_whitespace(#[trigger] s[i])
}

/// `s[a..b]` is `s` without its leading and trailing white space. A blank
/// text has the span `(len, len)`.
pub open spec fn is_trim_span(s: Seq<char>, a: int, b: int) -> bool {
    &&& 0 <= a <= b <= s.len()
    &&& forall|i: int| 0 <= i < a ==> is_whitespace(#[trigger] s[i])
    &&& forall|i: int| b <= i < s.len() ==> is_whitespace(#[trigger] s[i])
    &&& a < b ==> !is_whitespace(s[a]) && !is_whitespace(s[b - 1])
    &&& a == b ==> a == s.len()
}

/// What is left of `s` once leading and trailing white space is removed.
pub open spec fn trimmed(s: Seq<char>) -> Seq<char> {
    let (a, b) = choose|a: int, b: int| is_trim_span(s, a, b);
    s.subrange(a, b)
}

/// A text has exactly one trim span.
pub proof fn lemma_trim_span_unique(s: Seq<char>, a: int, b: int, c: int, d: int)
    requires
        is_trim_span(s, a, b),
        is_trim_span(s, c, d),
    ensures
        a == c,
        b == d,
{
    if a < c {
        assert(is_whitespace(s[a]));
    }
    if c < a {
        assert(is_whitespace(s[c]));
    }
    if b < d {
        assert(is_whitespace(s[d - 1]));
    }
    if d < b {
        assert(is_whitespace(s[b - 1]));
    }
}

/// The span of `s` that trimming keeps.
pub fn trim_span(s: &Vec<char>) -> (span: (usize, usize))
    ensures
        is_trim_span(s@, span.0 as int, span.1 as int),
        trimmed(s@) == s@.subrange(span.0 as int, span.1 as int),
        is_blank(s@) <==> span.0 == span.1,
{
    let n = s.len();
    let mut a: usize = 0;
    while a < n && whitespace(s[a])
        invariant
            a <= n,
            n == s@.len(),
            forall|i: int| 0 <= i < a ==> is_whitespace(#[trigger] s@[i]),
        decreases n - a,
    {
        a += 1;
    }
    let mut b: usize = n;
    if a == n {
        // blank
    } else {
        while b > a && whitespace(s[b - 1])
            invariant
                a < n,
                a <= b <= n,
                n == s@.len(),
                !is_whitespace(s@[a as int]),
                forall|i: int| b <= i < n ==> is_whitespace(#[trigger] s@[i]),
            decreases b,
        {
            b -= 1;
        }
    }
    proof {
        assert(is_trim_span(s@, a as int, b as int));
        let (c, d) = choose|c: int, d: int| is_trim_span(s@, c, d);
        lemma_trim_span_unique(s@, a as int, b as int, c, d);
        if a == b {
            assert(is_blank(s@));
        } else {
            assert(!is_whitespace(s@[a as int]));
        }
    }
    (a, b)
}

/// `pat` stands in `text` at position `i`.
pub open spec fn occurs_at(text: Seq<char>, pat: Seq<char>, i: int) -> bool {
    &&& 0 <= i
    &&& i + pat.len() <= text.len()
    &&& text.subrange(i, i + pat.len()) == pat
}

/// `pat` is a contiguous part of `text`. The empty text is part of every text.
pub open spec fn has_substring(text: Seq<char>, pat: Seq<char>) -> bool {
    exists|i: int| occurs_at(text, pat, i)
}

fn matches_at(text: &Vec<char>, pat: &Vec<char>, i: usize) -> (b: bool)
    requires
        i + pat@.len() <= text@.len(),
    ensures
        b == occurs_at(text@, pat@, i as int),
{
    let m = pat.len();
    let mut j: usize = 0;
    while j < m
        invariant
            j <= m,
            m == pat@.len(),
            i + m <= text.len(),
            forall|k: int| 0 <= k < j ==> text@[i + k] == pat@[k],
        decreases m - j,
    {
        if text[i + j] != pat[j] {
            proof {
                assert(text@.subrange(i as int, i + m)[j as int] == text@[i + j]);
            }
            return false;
        }
        j += 1;
    }
    proof {
        assert(text@.subrange(i as int, i + m) =~= pat@);
    }
    true
}

/// Substring search.
pub fn contains(text: &Vec<char>, pat: &Vec<char>) -> (b: bool)
    ensures
        b == has_substring(text@, pat@),
{
    let n = text.len();
    let m = pat.len();
    if m > n {
        return false;
    }
    let last = n - m;
    let mut i: usize = 0;
    loop
        invariant
            m <= n,
            n == text@.len(),
            m == pat@.len(),
            last == n - m,
            i <= last,
            forall|k: int| 0 <= k < i ==> !occurs_at(text@, pat@, k),
        decreases last - i,
    {
        if matches_at(text, pat, i) {
            return true;
        }
        if i == last {
            return false;
        }
        i += 1;
    }
}

/// Whether `pat` is a contiguous part of `text`.
pub fn str_contains(text: &str, pat: &str) -> (b: bool)
    ensures
        b == has_substring(text@, pat@),
{
    let t = to_chars(text);
    let p = to_chars(pat);
    contains(&t, &p)
}

/// Lexicographic order of texts by the code points of their characters, which
/// is the order of their UTF-8 encodings.
pub open spec fn lex_le(a: Seq<char>, b: Seq<char>) -> bool
    decreases a.len(),
{
    if a.len() == 0 {
        true
    } else if b.len() == 0 {
        false
    } else if a[0] != b[0] {
        (a[0] as u32) < (b[0] as u32)
    } else {
        lex_le(a.drop_first(), b.drop_first())
    }
}

/// Any two texts are ordered one way or the other.
pub proof fn lemma_lex_le_total(a: Seq<char>, b: Seq<char>)
    ensures
        lex_le(a, b) || lex_le(b, a),
    decreases a.len(),
{
    if a.len() > 0 && b.len() > 0 {
        if a[0] == b[0] {
            lemma_lex_le_total(a.drop_first(), b.drop_first());
        } else {
            vstd::utf8::char_u32_cast(a[0], a[0] as u32);
            vstd::utf8::char_u32_cast(b[0], b[0] as u32);
        }
    }
}

/// The order is transitive.
pub proof fn lemma_lex_le_transitive(a: Seq<char>, b: Seq<char>, c: Seq<char>)
    requires
        lex_le(a, b),
        lex_le(b, c),
    ensures
        lex_le(a, c),
    decreases a.len(),
{
    if a.len() > 0 && b.len() > 0 && c.len() > 0 && a[0] == b[0] && b[0] == c[0] {
        lemma_lex_le_transitive(a.drop_first(), b.drop_first(), c.drop_first());
    }
}

/// Texts ordered both ways are the same text.
pub proof fn lemma_lex_le_antisymmetric(a: Seq<char>, b: Seq<char>)
    requires
        lex_le(a, b),
        lex_le(b, a),
    ensures
        a == b,
    decreases a.len(),
{
    if a.len() > 0 && b.len() > 0 {
        lemma_lex_le_antisymmetric(a.drop_first(), b.drop_first());
        assert(a =~= seq![a[0]] + a.drop_first());
        assert(b =~= seq![b[0]] + b.drop_first());
    } else {
        assert(a =~= b);
    }
}

/// Whether `a` comes no later than `b` in lexicographic order.
pub fn text_le(a: &Vec<char>, b: &Vec<char>) -> (r: bool)
    ensures
        r == lex_le(a@, b@),
{
    let n = a.len();
    let m = b.len();
    let mut i: usize = 0;
    proof {
        assert(a@.skip(0) =~= a@);
        assert(b@.skip(0) =~= b@);
    }
    while i < n && i < m
        invariant
            i <= n,
            i <= m,
            n == a@.len(),
            m == b@.len(),
            lex_le(a@, b@) == lex_le(a@.skip(i as int), b@.skip(i as int)),
        decreases n - i,
    {
        let x = a[i];
        let y = b[i];
        proof {
            assert(a@.skip(i as int).drop_first() =~= a@.skip(i + 1));
            assert(b@.skip(i as int).drop_first() =~= b@.skip(i + 1));
        }
        if x != y {
            return (x as u32) < (y as u32);
        }
        i += 1;
    }
    i == n
}

/// A decimal digit, `0` to `9`.
pub open spec fn is_digit(c: char) -> bool {
    0x30 <= c as u32 <= 0x39
}

/// The number that a decimal digit stands for; zero for any other character.
pub open spec fn digit_value(c: char) -> int {
    if is_digit(c) {
        (c as u32) as int - 0x30
    } else {
        0
    }
}

/// Every character of `s` is a decimal digit.
pub open spec fn all_digits(s: Seq<char>) -> bool {
    forall|i: int| 0 <= i < s.len() ==> is_digit(#[trigger] s[i])
}

/// The number that the digits `s` write in base ten; zero for no digits.
pub open spec fn decimal_value(s: Seq<char>) -> int
    decreases s.len(),
{
    if s.len() == 0 {
        0
    } else {
        decimal_value(s.drop_last()) * 10 + digit_value(s.last())
    }
}

/// A decimal number is never negative, and more digits never make it smaller.
pub proof fn lemma_decimal_value_grows(s: Seq<char>, k: int)
    requires
        0 <= k <= s.len(),
    ensures
        0 <= decimal_value(s.take(k)) <= decimal_value(s),
    decreases s.len(),
{
    if s.len() == 0 {
        assert(s.take(k) =~= s);
    } else if k == s.len() {
        assert(s.take(k) =~= s);
        lemma_decimal_value_grows(s.drop_last(), k - 1);
    } else {
        lemma_decimal_value_grows(s.drop_last(), k);
        assert(s.drop_last().take(k) =~= s.take(k));
    }
}

/// The number a decimal digit stands for.
pub fn digit_of(c: char) -> (d: Option<u8>)
    ensures
        d is Some <==> is_digit(c),
        d matches Some(v) ==> v == digit_value(c) && v <= 9,
{
    let u: u32 = c as u32;
    if 0x30 <= u && u <= 0x39 {
        Some((u - 0x30) as u8)
    } else {
        None
    }
}

/// `s`, apart from white space around it, is one of the three-letter words
/// that `accepts` admits letter by letter.
pub open spec fn is_word_of_three(s: Seq<char>, accepts: spec_fn(int, char) -> bool) -> bool {
    exists|a: int|
        #![trigger is_trim_span(s, a, a + 3)]
        is_trim_span(s, a, a + 3) && accepts(0, s[a]) && accepts(1, s[a + 1]) && accepts(
            2,
            s[a + 2],
        )
}

/// The letter at place `k` of the word `yes`.
pub open spec fn yes_letter(k: int, c: char) -> bool {
    (k == 0 && c == 'y') || (k == 1 && c == 'e') || (k == 2 && c == 's')
}

/// The letter at place `k` of the word `yes`, in either case.
pub open spec fn yes_letter_any_case(k: int, c: char) -> bool {
    (k == 0 && (c == 'y' || c == 'Y')) || (k == 1 && (c == 'e' || c == 'E')) || (k == 2 && (c
        == 's' || c == 'S'))
}

/// The answer is `yes`, white space around it aside.
pub open spec fn says_yes(s: Seq<char>) -> bool {
    is_word_of_three(s, |k: int, c: char| yes_letter(k, c))
}

/// The answer is `yes` in any mix of upper and lower case, white space
/// around it aside.
pub open spec fn says_yes_any_case(s: Seq<char>) -> bool {
    is_word_of_three(s, |k: int, c: char| yes_letter_any_case(k, c))
}

/// Trimming leaves exactly `yes` where the answer says yes.
pub proof fn lemma_says_yes_is_trimmed_yes(s: Seq<char>)
    ensures
        says_yes(s) <==> trimmed(s) =~= seq!['y', 'e', 's'],
{
    let (c, d) = choose|c: int, d: int| is_trim_span(s, c, d);
    if says_yes(s) {
        let a = choose|a: int|
            #![trigger is_trim_span(s, a, a + 3)]
            is_trim_span(s, a, a + 3) && yes_letter(0, s[a]) && yes_letter(1, s[a + 1])
                && yes_letter(2, s[a + 2]);
        lemma_trim_span_unique(s, a, a + 3, c, d);
        assert(trimmed(s) =~= seq!['y', 'e', 's']);
    }
    if trimmed(s) =~= seq!['y', 'e', 's'] {
        lemma_trim_span_exists(s);
        assert(d == c + 3);
        assert(s.subrange(c, d)[0] == s[c]);
        assert(s.subrange(c, d)[1] == s[c + 1]);
        assert(s.subrange(c, d)[2] == s[c + 2]);
        assert(is_trim_span(s, c, c + 3));
    }
}

/// Every text has a trim span.
pub proof fn lemma_trim_span_exists(s: Seq<char>)
    ensures
        exists|a: int, b: int| is_trim_span(s, a, b),
    decreases s.len(),
{
    if s.len() == 0 {
        assert(is_trim_span(s, 0, 0));
    } else if is_blank(s) {
        assert(is_trim_span(s, s.len() as int, s.len() as int));
    } else if is_whitespace(s.last()) {
        let t = s.drop_last();
        lemma_trim_span_exists(t);
        let (a, b) = choose|a: int, b: int| is_trim_span(t, a, b);
        if a == b {
            assert(is_blank(s)) by {
                assert forall|i: int| 0 <= i < s.len() implies is_whitespace(#[trigger] s[i]) by {
                    if i < t.len() {
                        assert(t[i] == s[i]);
                    }
                }
            }
        } else {
            assert forall|i: int| 0 <= i < a implies is_whitespace(#[trigger] s[i]) by {
                assert(t[i] == s[i]);
            }
            assert forall|i: int| b <= i < s.len() implies is_whitespace(#[trigger] s[i]) by {
                if i < t.len() {
                    assert(t[i] == s[i]);
                }
            }
            assert(t[a] == s[a] && t[b - 1] == s[b - 1]);
            assert(is_trim_span(s, a, b));
        }
    } else {
        let n = s.len() as int;
        let a = choose|a: int| 0 <= a < n && !is_whitespace(s[a]) && forall|i: int|
            0 <= i < a ==> is_whitespace(#[trigger] s[i]);
        lemma_first_non_blank(s, 0);
        assert(is_trim_span(s, a, n));
    }
}

proof fn lemma_first_non_blank(s: Seq<char>, from: int)
    requires
        0 <= from <= s.len(),
        forall|i: int| 0 <= i < from ==> is_whitespace(#[trigger] s[i]),
        !is_blank(s),
    ensures
        exists|a: int|
            0 <= a < s.len() && !is_whitespace(s[a]) && forall|i: int|
                0 <= i < a ==> is_whitespace(#[trigger] s[i]),
    decreases s.len() - from,
{
    if from == s.len() {
        assert(is_blank(s));
    } else if is_whitespace(s[from]) {
        lemma_first_non_blank(s, from + 1);
    } else {
        assert(0 <= from < s.len() && !is_whitespace(s[from]) && forall|i: int|
            0 <= i < from ==> is_whitespace(#[trigger] s[i]));
    }
}

/// Whether the answer is `yes`, white space around it aside.
pub fn is_yes(answer: &str) -> (b: bool)
    ensures
        b == says_yes(answer@),
{
    let s = to_chars(answer);
    let (a, b) = trim_span(&s);
    let r = b - a == 3 && s[a] == 'y' && s[a + 1] == 'e' && s[a + 2] == 's';
    proof {
        if says_yes(s@) {
            let w = choose|w: int|
                #![trigger is_trim_span(s@, w, w + 3)]
                is_trim_span(s@, w, w + 3) && yes_letter(0, s@[w]) && yes_letter(1, s@[w + 1])
                    && yes_letter(2, s@[w + 2]);
            lemma_trim_span_unique(s@, a as int, b as int, w, w + 3);
        }
        if r {
            assert(is_trim_span(s@, a as int, a + 3));
            assert(yes_letter(0, s@[a as int]) && yes_letter(1, s@[a + 1]) && yes_letter(
                2,
                s@[a + 2],
            ));
        }
    }
    r
}

/// Whether the answer is `yes` in any mix of upper and lower case, white
/// space around it aside.
pub fn is_yes_any_case(answer: &str) -> (b: bool)
    ensures
        b == says_yes_any_case(answer@),
{
    let s = to_chars(answer);
    let (a, b) = trim_span(&s);
    let r = b - a == 3 && (s[a] == 'y' || s[a] == 'Y') && (s[a + 1] == 'e' || s[a + 1] == 'E')
        && (s[a + 2] == 's' || s[a + 2] == 'S');
    proof {
        if says_yes_any_case(s@) {
            let w = choose|w: int|
                #![trigger is_trim_span(s@, w, w + 3)]
                is_trim_span(s@, w, w + 3) && yes_letter_any_case(0, s@[w]) && yes_letter_any_case(
                    1,
                    s@[w + 1],
                ) && yes_letter_any_case(2, s@[w + 2]);
            lemma_trim_span_unique(s@, a as int, b as int, w, w + 3);
        }
        if r {
            assert(is_trim_span(s@, a as int, a + 3));
            assert(yes_letter_any_case(0, s@[a as int]) && yes_letter_any_case(1, s@[a + 1])
                && yes_letter_any_case(2, s@[a + 2]));
        }
    }
    r
}

/// Whether `text` is nothing but white space.
pub fn is_blank_text(text: &str) -> (b: bool)
    ensures
        b == is_blank(text@),
{
    let s = to_chars(text);
    let (a, b) = trim_span(&s);
    a == b
}

/// The number that `s` writes: decimal digits, at least one, after an
/// optional sign.
pub open spec fn signed_decimal(s: Seq<char>) -> Option<int> {
    if s.len() == 0 {
        None
    } else if s[0] == '-' || s[0] == '+' {
        let digits = s.drop_first();
        if digits.len() > 0 && all_digits(digits) {
            Some(
                if s[0] == '-' {
                    -decimal_value(digits)
                } else {
                    decimal_value(digits)
                },
            )
        } else {
            None
        }
    } else if all_digits(s) {
        Some(decimal_value(s))
    } else {
        None
    }
}

/// The number that `s` writes, where an `i64` holds it.
pub open spec fn decimal_i64(s: Seq<char>) -> Option<i64> {
    match signed_decimal(s) {
        Some(v) => if i64::MIN <= v <= i64::MAX {
            Some(v as i64)
        } else {
            None
        },
        None => None,
    }
}

/// The character that writes the digit `d`.
pub open spec fn digit_char(d: int) -> char {
    if d == 0 {
        '0'
    } else if d == 1 {
        '1'
    } else if d == 2 {
        '2'
    } else if d == 3 {
        '3'
    } else if d == 4 {
        '4'
    } else if d == 5 {
        '5'
    } else if d == 6 {
        '6'
    } else if d == 7 {
        '7'
    } else if d == 8 {
        '8'
    } else {
        '9'
    }
}

/// The decimal digits of `n`, without leading zeros.
pub open spec fn digits_of(n: nat) -> Seq<char>
    decreases n,
{
    if n < 10 {
        seq![digit_char(n as int)]
    } else {
        digits_of(n / 10).push(digit_char((n % 10) as int))
    }
}

/// How `v` is written in decimal: a minus sign for a negative number, then
/// its digits.
pub open spec fn rendered(v: int) -> Seq<char> {
    if v < 0 {
        seq!['-'] + digits_of((-v) as nat)
    } else {
        digits_of(v as nat)
    }
}

/// The digits of a number are digits, at least one, and write that number.
pub proof fn lemma_digits_of(n: nat)
    ensures
        digits_of(n).len() > 0,
        all_digits(digits_of(n)),
        decimal_value(digits_of(n)) == n,
    decreases n,
{
    reveal_with_fuel(decimal_value, 2);
    if n < 10 {
        let s = digits_of(n);
        assert(s.drop_last() =~= Seq::<char>::empty());
        assert(is_digit(digit_char(n as int)));
        assert(digit_value(digit_char(n as int)) == n);
    } else {
        lemma_digits_of(n / 10);
        let head = digits_of(n / 10);
        let d = digit_char((n % 10) as int);
        let s = head.push(d);
        assert(s.drop_last() =~= head);
        assert(is_digit(d));
        assert(digit_value(d) == n % 10);
        assert forall|i: int| 0 <= i < s.len() implies is_digit(#[trigger] s[i]) by {
            if i < head.len() {
                assert(s[i] == head[i]);
            }
        }
    }
}

/// Reading what was written gives the number back.
pub proof fn lemma_read_rendered(v: i64)
    ensures
        decimal_i64(rendered(v as int)) == Some(v),
        forall|i: int| 0 <= i < rendered(v as int).len() ==> rendered(v as int)[i] != ':',
{
    let s = rendered(v as int);
    if v < 0 {
        let n = (-v) as nat;
        lemma_digits_of(n);
        assert(s.drop_first() =~= digits_of(n));
        assert forall|i: int| 0 <= i < s.len() implies s[i] != ':' by {
            if i > 0 {
                assert(is_digit(digits_of(n)[i - 1]));
            }
        }
    } else {
        let n = v as nat;
        lemma_digits_of(n);
        assert(is_digit(s[0]));
        assert forall|i: int| 0 <= i < s.len() implies s[i] != ':' by {
            assert(is_digit(s[i]));
        }
    }
}

/// The number that the first `end` characters of `s` write, where an `i64`
/// holds it.
pub fn read_i64(s: &Vec<char>, end: usize) -> (r: Option<i64>)
    requires
        end <= s@.len(),
    ensures
        r == decimal_i64(s@.take(end as int)),
{
    let ghost t = s@.take(end as int);
    if end == 0 {
        return None;
    }
    let negative = s[0] == '-';
    let start: usize = if s[0] == '-' || s[0] == '+' {
        1
    } else {
        0
    };
    if start == end {
        return None;
    }
    let ghost digits = t.skip(start as int);
    proof {
        assert(t[0] == s@[0]);
        if start == 1 {
            assert(digits =~= t.drop_first());
        } else {
            assert(digits =~= t);
            if !is_digit(s@[0]) {
                assert(!is_digit(t[0]));
            }
        }
        assert(digits.take(0) =~= Seq::<char>::empty());
    }
    let mut acc: i128 = 0;
    let mut i: usize = start;
    while i < end
        invariant
            start <= i <= end,
            end <= s@.len(),
            t == s@.take(end as int),
            digits == t.skip(start as int),
            t.len() == end,
            start < end,
            start == 1 <==> (t[0] == '-' || t[0] == '+'),
            start == 0 || start == 1,
            start == 1 ==> digits == t.drop_first(),
            start == 0 ==> digits == t,
            all_digits(digits.take(i - start)),
            acc == decimal_value(digits.take(i - start)),
            0 <= acc <= 0x8000_0000_0000_0000,
        decreases end - i,
    {
        let ghost k = i - start;
        let d = match digit_of(s[i]) {
            Some(d) => d,
            None => {
                proof {
                    assert(digits[k] == s@[i as int]);
                    assert(!is_digit(digits[k]));
                }
                return None;
            },
        };
        proof {
            let next = digits.take(k + 1);
            assert(digits[k] == s@[i as int]);
            assert(next.drop_last() =~= digits.take(k));
            assert(next.last() == digits[k]);
            assert forall|j: int| 0 <= j < next.len() implies is_digit(#[trigger] next[j]) by {
                if j < k {
                    assert(digits.take(k)[j] == next[j]);
                }
            }
        }
        acc = acc * 10 + d as i128;
        if acc > 0x8000_0000_0000_0000 {
            proof {
                if all_digits(digits) {
                    lemma_decimal_value_grows(digits, k + 1);
                }
            }
            return None;
        }
        i += 1;
    }
    proof {
        assert(digits.take(end - start) =~= digits);
    }
    if negative {
        Some((-acc) as i64)
    } else if acc == 0x8000_0000_0000_0000 {
        None
    } else {
        Some(acc as i64)
    }
}

/// The text that writes one digit.
fn digit_text(d: u64) -> (r: &'static str)
    requires
        d < 10,
    ensures
        r@ == seq![digit_char(d as int)],
{
    proof {
        reveal_strlit("0");
        reveal_strlit("1");
        reveal_strlit("2");
        reveal_strlit("3");
        reveal_strlit("4");
        reveal_strlit("5");
        reveal_strlit("6");
        reveal_strlit("7");
        reveal_strlit("8");
        reveal_strlit("9");
    }
    let r = if d == 0 {
        "0"
    } else if d == 1 {
        "1"
    } else if d == 2 {
        "2"
    } else if d == 3 {
        "3"
    } else if d == 4 {
        "4"
    } else if d == 5 {
        "5"
    } else if d == 6 {
        "6"
    } else if d == 7 {
        "7"
    } else if d == 8 {
        "8"
    } else {
        "9"
    };
    proof {
        assert(r@ =~= seq![digit_char(d as int)]);
    }
    r
}

/// Appends the decimal digits of `n` to `out`.
pub fn write_digits(out: &mut String, n: u64)
    ensures
        final(out)@ == old(out)@ + digits_of(n as nat),
    decreases n,
{
    if n >= 10 {
        write_digits(out, n / 10);
    }
    let ghost before = out@;
    out.append(digit_text(n % 10));
    proof {
        if n >= 10 {
            assert(out@ =~= old(out)@ + digits_of(n as nat));
        } else {
            assert(out@ =~= old(out)@ + digits_of(n as nat));
        }
    }
}

/// Appends `v` in decimal to `out`.
pub fn write_i64(out: &mut String, v: i64)
    ensures
        final(out)@ == old(out)@ + rendered(v as int),
{
    if v < 0 {
        proof {
            reveal_strlit("-");
        }
        out.append("-");
        let magnitude: u64 = (-(v as i128)) as u64;
        write_digits(out, magnitude);
        proof {
            assert(out@ =~= old(out)@ + rendered(v as int));
        }
    } else {
        write_digits(out, v as u64);
    }
}

} // verus!
