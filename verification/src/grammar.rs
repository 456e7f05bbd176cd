//! The two string grammars validation checks: dotted identifiers and
//! RFC 3339 timestamps.
use vstd::prelude::*;
use crate::text::{
    all_digits, ascii_digit, ascii_lower, digit_value, is_ascii_digit, is_ascii_lower, split_chars,
    split_on,
};

verus! {

/// A character allowed after the first one of an identifier segment.
pub open spec fn is_ident_tail_char(c: char) -> bool {
    is_ascii_lower(c) || is_ascii_digit(c) || c == '_'
}

/// A segment starting with a lowercase ASCII letter, followed by lowercase
/// ASCII letters, digits, or underscores.
pub open spec fn is_ident_segment(seg: Seq<char>) -> bool {
    &&& seg.len() > 0
    &&& is_ascii_lower(seg[0])
    &&& forall|k: int| 1 <= k < seg.len() ==> is_ident_tail_char(#[trigger] seg[k])
}

/// A dotted-lowercase identifier: non-empty, and every `.`-separated
/// segment is an identifier segment.
pub open spec fn is_identifier_spec(s: Seq<char>) -> bool {
    &&& s.len() > 0
    &&& forall|i: int| 0 <= i < split_on(s, '.').len() ==> is_ident_segment(#[trigger] split_on(s, '.')[i])
}

fn ident_segment(seg: &Vec<char>) -> (r: bool)
    ensures
        r == is_ident_segment(seg@),
{
    if seg.len() == 0 || !ascii_lower(seg[0]) {
        return false;
    }
    let mut k: usize = 1;
    while k < seg.len()
        invariant
            1 <= k <= seg@.len(),
            forall|j: int| 1 <= j < k ==> is_ident_tail_char(#[trigger] seg@[j]),
        decreases seg@.len() - k,
    {
        let c = seg[k];
        if !(ascii_lower(c) || ascii_digit(c) || c == '_') {
            return false;
        }
        k = k + 1;
    }
    true
}

/// Whether `s` is a dotted-lowercase identifier.
pub fn is_identifier(s: &[char]) -> (r: bool)
    ensures
        r == is_identifier_spec(s@),
{
    if s.len() == 0 {
        return false;
    }
    let segs = split_chars(s, '.');
    let mut i: usize = 0;
    while i < segs.len()
        invariant
            i <= segs@.len(),
            segs@.len() == split_on(s@, '.').len(),
            forall|j: int| 0 <= j < segs@.len() ==> #[trigger] segs@[j]@ == split_on(s@, '.')[j],
            forall|j: int| 0 <= j < i ==> is_ident_segment(#[trigger] split_on(s@, '.')[j]),
        decreases segs@.len() - i,
    {
        if !ident_segment(&segs[i]) {
            return false;
        }
        i = i + 1;
    }
    true
}

/// The characters `s[a..b]` are all ASCII digits.
pub open spec fn digits_in(s: Seq<char>, a: int, b: int) -> bool {
    forall|i: int| a <= i < b ==> is_ascii_digit(#[trigger] s[i])
}

/// The value of the two digits at `s[i]`, `s[i + 1]`.
pub open spec fn two_digits(s: Seq<char>, i: int) -> int {
    digit_value(s[i]) * 10 + digit_value(s[i + 1])
}

/// How many ASCII digits `t` starts with.
pub open spec fn leading_digits(t: Seq<char>) -> nat
    decreases t.len(),
{
    if t.len() > 0 && is_ascii_digit(t[0]) {
        1 + leading_digits(t.drop_first())
    } else {
        0
    }
}

/// A zone designator: `Z`, `z`, or `+HH:MM` / `-HH:MM`.
pub open spec fn is_zone(t: Seq<char>) -> bool {
    ||| t == seq!['Z']
    ||| t == seq!['z']
    ||| t.len() == 6 && (t[0] == '+' || t[0] == '-') && digits_in(t, 1, 3) && t[3] == ':' && digits_in(
        t,
        4,
        6,
    )
}

/// What may follow the seconds: an optional `.` with one or more digits,
/// then a zone designator.
pub open spec fn is_seconds_tail(rest: Seq<char>) -> bool {
    if rest.len() > 0 && rest[0] == '.' {
        let k = leading_digits(rest.drop_first());
        k > 0 && is_zone(rest.subrange(1 + k as int, rest.len() as int))
    } else {
        is_zone(rest)
    }
}

/// A minimal RFC 3339 timestamp check:
/// `YYYY-MM-DDTHH:MM:SS(.fraction)?(Z|+HH:MM|-HH:MM)`, with month 1..=12,
/// day 1..=31, hour <= 23, minute <= 59 and second <= 60; not calendar
/// aware. Every position it accepts is ASCII, so checking characters is the
/// same as checking the UTF-8 bytes.
pub open spec fn is_rfc3339_spec(s: Seq<char>) -> bool {
    &&& s.len() >= 20
    &&& digits_in(s, 0, 4) && s[4] == '-'
    &&& digits_in(s, 5, 7) && s[7] == '-'
    &&& digits_in(s, 8, 10) && (s[10] == 'T' || s[10] == 't')
    &&& digits_in(s, 11, 13) && s[13] == ':'
    &&& digits_in(s, 14, 16) && s[16] == ':'
    &&& digits_in(s, 17, 19)
    &&& 1 <= two_digits(s, 5) <= 12
    &&& 1 <= two_digits(s, 8) <= 31
    &&& two_digits(s, 11) <= 23
    &&& two_digits(s, 14) <= 59
    &&& two_digits(s, 17) <= 60
    &&& is_seconds_tail(s.subrange(19, s.len() as int))
}

fn digits_at(s: &[char], a: usize, b: usize) -> (r: bool)
    requires
        a <= b <= s@.len(),
    ensures
        r == digits_in(s@, a as int, b as int),
{
    let mut i = a;
    while i < b
        invariant
            a <= i <= b <= s@.len(),
            forall|j: int| a <= j < i ==> is_ascii_digit(#[trigger] s@[j]),
        decreases b - i,
    {
        if !ascii_digit(s[i]) {
            return false;
        }
        i = i + 1;
    }
    true
}

fn two_digit_value(s: &[char], i: usize) -> (r: u32)
    requires
        i + 1 < s@.len(),
        is_ascii_digit(s@[i as int]),
        is_ascii_digit(s@[i + 1]),
    ensures
        r == two_digits(s@, i as int),
{
    let a = (s[i] as u32) - 48;
    let b = (s[i + 1] as u32) - 48;
    a * 10 + b
}

proof fn lemma_leading_digits(t: Seq<char>, k: int)
    requires
        0 <= k <= t.len(),
        forall|j: int| 0 <= j < k ==> is_ascii_digit(#[trigger] t[j]),
        k == t.len() || !is_ascii_digit(t[k]),
    ensures
        leading_digits(t) == k,
    decreases k,
{
    if k > 0 {
        let u = t.drop_first();
        assert forall|j: int| 0 <= j < k - 1 implies is_ascii_digit(#[trigger] u[j]) by {
            assert(u[j] == t[j + 1]);
        }
        if k - 1 < u.len() {
            assert(u[k - 1] == t[k]);
        }
        lemma_leading_digits(u, k - 1);
    }
}

proof fn lemma_two_digits_in(t: Seq<char>, i: int)
    ensures
        digits_in(t, i, i + 2) == (is_ascii_digit(t[i]) && is_ascii_digit(t[i + 1])),
{
    if is_ascii_digit(t[i]) && is_ascii_digit(t[i + 1]) {
        assert forall|j: int| i <= j < i + 2 implies is_ascii_digit(#[trigger] t[j]) by {
            if j == i {
            } else {
                assert(j == i + 1);
            }
        }
    }
}

fn zone_at(s: &[char], a: usize) -> (r: bool)
    requires
        a <= s@.len(),
    ensures
        r == is_zone(s@.subrange(a as int, s@.len() as int)),
{
    let ghost t = s@.subrange(a as int, s@.len() as int);
    let n = s.len() - a;
    if n == 1 && (s[a] == 'Z' || s[a] == 'z') {
        proof {
            if s@[a as int] == 'Z' {
                assert(t =~= seq!['Z']);
            } else {
                assert(t =~= seq!['z']);
            }
        }
        return true;
    }
    proof {
        if t == seq!['Z'] {
            assert(t[0] == s@[a as int]);
        }
        if t == seq!['z'] {
            assert(t[0] == s@[a as int]);
        }
    }
    if n == 6 && (s[a] == '+' || s[a] == '-') {
        let r = ascii_digit(s[a + 1]) && ascii_digit(s[a + 2]) && s[a + 3] == ':' && ascii_digit(s[a + 4])
            && ascii_digit(s[a + 5]);
        proof {
            lemma_two_digits_in(t, 1);
            lemma_two_digits_in(t, 4);
            assert(t[0] == s@[a as int]);
            assert(t[1] == s@[a + 1]);
            assert(t[2] == s@[a + 2]);
            assert(t[3] == s@[a + 3]);
            assert(t[4] == s@[a + 4]);
            assert(t[5] == s@[a + 5]);
        }
        return r;
    }
    proof {
        if t.len() == 6 {
            assert(t[0] == s@[a as int]);
        }
    }
    false
}

/// Whether `s` is an RFC 3339 timestamp, as `is_rfc3339_spec` states.
pub fn is_rfc3339(s: &[char]) -> (r: bool)
    ensures
        r == is_rfc3339_spec(s@),
{
    if s.len() < 20 {
        return false;
    }
    if !digits_at(s, 0, 4) || s[4] != '-' {
        return false;
    }
    if !digits_at(s, 5, 7) || s[7] != '-' {
        return false;
    }
    if !digits_at(s, 8, 10) || !(s[10] == 'T' || s[10] == 't') {
        return false;
    }
    if !digits_at(s, 11, 13) || s[13] != ':' {
        return false;
    }
    if !digits_at(s, 14, 16) || s[16] != ':' {
        return false;
    }
    if !digits_at(s, 17, 19) {
        return false;
    }
    let month = two_digit_value(s, 5);
    let day = two_digit_value(s, 8);
    let hour = two_digit_value(s, 11);
    let minute = two_digit_value(s, 14);
    let second = two_digit_value(s, 17);
    if !(1 <= month && month <= 12) || !(1 <= day && day <= 31) || hour > 23 || minute > 59 || second > 60 {
        return false;
    }
    let ghost rest = s@.subrange(19, s@.len() as int);
    if s.len() > 19 && s[19] == '.' {
        let mut i: usize = 20;
        while i < s.len() && ascii_digit(s[i])
            invariant
                20 <= i <= s@.len(),
                forall|j: int| 20 <= j < i ==> is_ascii_digit(#[trigger] s@[j]),
            decreases s@.len() - i,
        {
            i = i + 1;
        }
        proof {
            let t = rest.drop_first();
            assert forall|j: int| 0 <= j < i - 20 implies is_ascii_digit(#[trigger] t[j]) by {
                assert(t[j] == s@[j + 20]);
            }
            if i < s@.len() {
                assert(t[i - 20] == s@[i as int]);
            }
            lemma_leading_digits(t, i - 20);
            assert(rest.subrange(1 + (i - 20), rest.len() as int) =~= s@.subrange(i as int, s@.len() as int));
        }
        if i == 20 {
            return false;
        }
        return zone_at(s, i);
    }
    zone_at(s, 19)
}

} // verus!
