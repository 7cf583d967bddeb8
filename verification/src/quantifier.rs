//! Reading repetition suffixes: `*`, `+`, `?` and the counted forms in braces.

use crate::chars::slice_chars;
use crate::parse_regex::{RangeType, TokenQuantifier};
use vstd::prelude::*;

verus! {

/// Whether `c` is one of the ten decimal digits.
pub open spec fn is_digit(c: char) -> bool {
    '0' <= c <= '9'
}

/// The number that a row of decimal digits writes.
pub open spec fn digits_value(d: Seq<char>) -> nat
    decreases d.len(),
{
    if d.len() == 0 {
        0
    } else {
        (digits_value(d.drop_last()) * 10 + (d.last() as int - '0' as int)) as nat
    }
}

/// Whether every character of `d` is a decimal digit.
pub open spec fn all_digits(d: Seq<char>) -> bool {
    forall|i: int| 0 <= i < d.len() ==> is_digit(#[trigger] d[i])
}

/// The bound that `d` writes: a non-empty row of digits whose value fits the
/// machine word. Anything else is no bound.
pub open spec fn spec_parse_bound(d: Seq<char>) -> Option<usize> {
    if d.len() > 0 && all_digits(d) && digits_value(d) <= usize::MAX {
        Some(digits_value(d) as usize)
    } else {
        None
    }
}

/// The index of the first `c` in `s` at or after `from`.
pub open spec fn spec_find_char(s: Seq<char>, from: int, c: char) -> Option<int>
    decreases s.len() - from,
{
    if from < 0 || from >= s.len() {
        None
    } else if s[from] == c {
        Some(from)
    } else {
        spec_find_char(s, from + 1, c)
    }
}

/// The range that the text between a pair of braces writes.
///
/// Without a comma the text is one bound, met exactly. With a comma, the bound
/// before it is the least count and the bound after it the greatest; one of
/// the two may be left out, not both, and the least may not exceed the
/// greatest.
pub open spec fn spec_range(inner: Seq<char>) -> Option<RangeType> {
    match spec_find_char(inner, 0, ',') {
        None => match spec_parse_bound(inner) {
            Some(n) => Some(RangeType::Discrete(n)),
            None => None,
        },
        Some(k) => {
            let lo = inner.subrange(0, k);
            let hi = inner.subrange(k + 1, inner.len() as int);
            if lo.len() == 0 && hi.len() == 0 {
                None
            } else if hi.len() == 0 {
                match spec_parse_bound(lo) {
                    Some(l) => Some(RangeType::LowerBound(l)),
                    None => None,
                }
            } else if lo.len() == 0 {
                match spec_parse_bound(hi) {
                    Some(u) => Some(RangeType::UpperBound(u)),
                    None => None,
                }
            } else {
                match (spec_parse_bound(lo), spec_parse_bound(hi)) {
                    (Some(l), Some(u)) => if l <= u {
                        Some(RangeType::Both(l, u))
                    } else {
                        None
                    },
                    _ => None,
                }
            }
        },
    }
}

/// Whether nothing, or a single `?`, follows index `k` of `q`.
pub open spec fn tail_ok(q: Seq<char>, k: int) -> bool {
    q.len() == k || (q.len() == k + 1 && q[k] == '?')
}

/// The repetition that a suffix writes, or `None` where the suffix is no
/// repetition.
///
/// The empty suffix stands for a single occurrence. `*`, `+` and a counted
/// form may be followed by one `?`, which changes nothing.
pub open spec fn spec_quantifier(q: Seq<char>) -> Option<TokenQuantifier> {
    if q.len() == 0 {
        Some(TokenQuantifier::Once)
    } else if q[0] == '*' && tail_ok(q, 1) {
        Some(TokenQuantifier::Star)
    } else if q[0] == '+' && tail_ok(q, 1) {
        Some(TokenQuantifier::Plus)
    } else if q[0] == '?' && q.len() == 1 {
        Some(TokenQuantifier::Question)
    } else if q[0] == '{' {
        match spec_find_char(q, 0, '}') {
            Some(close) => if tail_ok(q, close + 1) {
                match spec_range(q.subrange(1, close)) {
                    Some(r) => Some(TokenQuantifier::Range(r)),
                    None => None,
                }
            } else {
                None
            },
            None => None,
        }
    } else {
        None
    }
}

/// Appending digits never lowers the value written.
pub proof fn lemma_digits_value_prefix(d: Seq<char>, k: int)
    requires
        0 <= k <= d.len(),
        all_digits(d),
    ensures
        digits_value(d.subrange(0, k)) <= digits_value(d),
    decreases d.len() - k,
{
    if k == d.len() {
        assert(d.subrange(0, k) == d);
    } else {
        lemma_digits_value_prefix(d, k + 1);
        let longer = d.subrange(0, k + 1);
        assert(longer.drop_last() == d.subrange(0, k));
        assert(longer.last() == d[k]);
        assert(is_digit(d[k]));
    }
}

/// Where a found character lies, and that none like it comes before.
pub proof fn lemma_find_char(s: Seq<char>, from: int, c: char)
    requires
        0 <= from,
    ensures
        match spec_find_char(s, from, c) {
            Some(k) => from <= k < s.len() && s[k] == c && forall|j: int|
                from <= j < k ==> s[j] != c,
            None => forall|j: int| from <= j < s.len() ==> s[j] != c,
        },
    decreases s.len() - from,
{
    if from < s.len() && s[from] != c {
        lemma_find_char(s, from + 1, c);
    }
}

/// Finds the first `c` in `s` at or after `from`.
pub fn find_char(s: &Vec<char>, from: usize, c: char) -> (r: Option<usize>)
    ensures
        match r {
            Some(k) => spec_find_char(s@, from as int, c) == Some(k as int) && from <= k < s@.len(),
            None => spec_find_char(s@, from as int, c).is_none(),
        },
{
    let mut i: usize = from;
    while i < s.len()
        invariant
            from <= i,
            spec_find_char(s@, from as int, c) == spec_find_char(s@, i as int, c),
        decreases s.len() - i,
    {
        if s[i] == c {
            return Some(i);
        }
        i += 1;
    }
    None
}

/// Reads a bound: a non-empty row of decimal digits that fits the machine word.
pub fn parse_bound(d: &Vec<char>) -> (r: Option<usize>)
    ensures
        r == spec_parse_bound(d@),
{
    if d.len() == 0 {
        return None;
    }
    let mut acc: usize = 0;
    let mut i: usize = 0;
    while i < d.len()
        invariant
            i <= d.len(),
            all_digits(d@.subrange(0, i as int)),
            acc == digits_value(d@.subrange(0, i as int)),
        decreases d.len() - i,
    {
        let c: char = d[i];
        if !('0' <= c && c <= '9') {
            assert(!is_digit(d@[i as int]));
            return None;
        }
        let dig: usize = (c as u32 - '0' as u32) as usize;
        proof {
            let longer = d@.subrange(0, i as int + 1);
            assert(longer.drop_last() == d@.subrange(0, i as int));
            assert(longer.last() == c);
            assert forall|j: int| 0 <= j < longer.len() implies is_digit(#[trigger] longer[j]) by {
                if j < i {
                    assert(longer[j] == d@.subrange(0, i as int)[j]);
                }
            }
        }
        if acc > (usize::MAX - dig) / 10 {
            proof {
                let longer = d@.subrange(0, i as int + 1);
                assert(digits_value(longer) > usize::MAX);
                if all_digits(d@) {
                    lemma_digits_value_prefix(d@, i as int + 1);
                }
            }
            return None;
        }
        acc = acc * 10 + dig;
        i += 1;
    }
    assert(d@.subrange(0, d@.len() as int) == d@);
    Some(acc)
}

/// Reads the text between a pair of braces as a range.
pub fn parse_range(inner: &Vec<char>) -> (r: Option<RangeType>)
    ensures
        r == spec_range(inner@),
{
    let n: usize = inner.len();
    match find_char(inner, 0, ',') {
        None => match parse_bound(inner) {
            Some(n) => Some(RangeType::Discrete(n)),
            None => None,
        },
        Some(k) => {
            let lo = slice_chars(inner, 0, k);
            let hi = slice_chars(inner, k + 1, n);
            if lo.len() == 0 && hi.len() == 0 {
                None
            } else if hi.len() == 0 {
                match parse_bound(&lo) {
                    Some(l) => Some(RangeType::LowerBound(l)),
                    None => None,
                }
            } else if lo.len() == 0 {
                match parse_bound(&hi) {
                    Some(u) => Some(RangeType::UpperBound(u)),
                    None => None,
                }
            } else {
                match (parse_bound(&lo), parse_bound(&hi)) {
                    (Some(l), Some(u)) => if l <= u {
                        Some(RangeType::Both(l, u))
                    } else {
                        None
                    },
                    _ => None,
                }
            }
        },
    }
}

fn tail_is_ok(q: &Vec<char>, k: usize) -> (r: bool)
    requires
        k <= q@.len(),
    ensures
        r == tail_ok(q@, k as int),
{
    q.len() == k || (q.len() - k == 1 && q[k] == '?')
}

/// Reads a repetition suffix.
pub fn parse_quantifier(q: &Vec<char>) -> (r: Option<TokenQuantifier>)
    ensures
        r == spec_quantifier(q@),
{
    if q.len() == 0 {
        return Some(TokenQuantifier::Once);
    }
    let n: usize = q.len();
    let c: char = q[0];
    if c == '*' && tail_is_ok(q, 1) {
        Some(TokenQuantifier::Star)
    } else if c == '+' && tail_is_ok(q, 1) {
        Some(TokenQuantifier::Plus)
    } else if c == '?' && q.len() == 1 {
        Some(TokenQuantifier::Question)
    } else if c == '{' {
        match find_char(q, 0, '}') {
            Some(close) => {
                proof {
                    lemma_find_char(q@, 0, '}');
                }
                if tail_is_ok(q, close + 1) {
                    let inner = slice_chars(q, 1, close);
                    match parse_range(&inner) {
                        Some(r) => Some(TokenQuantifier::Range(r)),
                        None => None,
                    }
                } else {
                    None
                }
            },
            None => None,
        }
    } else {
        None
    }
}

} // verus!
