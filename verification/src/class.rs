//! Symbols: escapes, placeholders for symbol families, and character classes.

use vstd::prelude::*;

verus! {

/// The label of an edge that consumes no input.
pub const EPSILON: char = '\0';

/// The symbol that stands for `\w`.
pub const WORD_CHAR: char = '\u{1F980}';

/// The symbol that stands for `.`.
pub const WILD_CARD: char = '\u{1F0CF}';

/// The symbol that stands for `\s`.
pub const WHITE_SPACE: char = '\u{1FAE5}';

/// The symbol that stands for `\d`.
pub const NUMBER: char = '\u{1F4AF}';

/// The symbol that an escaped character denotes.
pub open spec fn spec_escaped_symbol(c: char) -> char {
    if c == 'w' {
        WORD_CHAR
    } else if c == 's' {
        WHITE_SPACE
    } else if c == 'd' {
        NUMBER
    } else if c == 't' {
        '\t'
    } else if c == 'n' {
        '\n'
    } else if c == 'r' {
        '\r'
    } else {
        c
    }
}

/// The symbol that an unescaped character denotes.
pub open spec fn spec_plain_symbol(c: char) -> char {
    if c == '.' {
        WILD_CARD
    } else {
        c
    }
}

/// `acc` with `c` added at the end, unless it is in `acc` already.
pub open spec fn push_unique(acc: Seq<char>, c: char) -> Seq<char> {
    if acc.contains(c) {
        acc
    } else {
        acc.push(c)
    }
}

/// Whether the number `u` is a code point that a `char` can hold.
pub open spec fn is_scalar(u: int) -> bool {
    0 <= u <= 0xD7FF || 0xE000 <= u <= 0x10FFFF
}

/// `acc` with every symbol whose code point lies in `lo..=hi` added, in
/// ascending order.
pub open spec fn spec_add_range(acc: Seq<char>, lo: int, hi: int) -> Seq<char>
    decreases hi - lo + 1,
{
    if lo > hi {
        acc
    } else if is_scalar(lo) {
        spec_add_range(push_unique(acc, lo as char), lo + 1, hi)
    } else {
        spec_add_range(acc, lo + 1, hi)
    }
}

/// The symbols that the body of a character class lists from index `i` on,
/// added to `acc`.
///
/// A backslash gives the symbol of the character after it. A character
/// followed by `-` and a further character gives every symbol from the first
/// to the second. Any other character, a `-` at either end included, gives
/// itself.
pub open spec fn spec_class_scan(s: Seq<char>, i: int, acc: Seq<char>) -> Seq<char>
    decreases s.len() - i,
{
    if i < 0 || i >= s.len() {
        acc
    } else if s[i] == '\\' && i + 1 < s.len() {
        spec_class_scan(s, i + 2, push_unique(acc, spec_escaped_symbol(s[i + 1])))
    } else if i + 2 < s.len() && s[i + 1] == '-' {
        spec_class_scan(s, i + 3, spec_add_range(acc, s[i] as int, s[i + 2] as int))
    } else {
        spec_class_scan(s, i + 1, push_unique(acc, s[i]))
    }
}

/// The symbols of a character class, each once, in order of first appearance.
pub open spec fn spec_character_class(s: Seq<char>) -> Seq<char> {
    spec_class_scan(s, 0, Seq::empty())
}

/// The characters of `s`, each once, in order of first appearance.
pub open spec fn spec_distinct(s: Seq<char>) -> Seq<char>
    decreases s.len(),
{
    if s.len() == 0 {
        Seq::empty()
    } else {
        push_unique(spec_distinct(s.drop_last()), s.last())
    }
}

/// Adding a symbol keeps a list free of repeats.
pub proof fn lemma_push_unique(acc: Seq<char>, c: char)
    requires
        acc.no_duplicates(),
    ensures
        push_unique(acc, c).no_duplicates(),
        push_unique(acc, c).contains(c),
        forall|d: char| acc.contains(d) ==> push_unique(acc, c).contains(d),
{
    if !acc.contains(c) {
        let out = acc.push(c);
        assert(out[acc.len() as int] == c);
        assert forall|d: char| acc.contains(d) implies out.contains(d) by {
            let k = choose|k: int| 0 <= k < acc.len() && acc[k] == d;
            assert(out[k] == d);
        }
    }
}

/// Adding a range keeps a list free of repeats.
pub proof fn lemma_add_range(acc: Seq<char>, lo: int, hi: int)
    requires
        acc.no_duplicates(),
    ensures
        spec_add_range(acc, lo, hi).no_duplicates(),
    decreases hi - lo + 1,
{
    if lo > hi {
    } else if is_scalar(lo) {
        lemma_push_unique(acc, lo as char);
        lemma_add_range(push_unique(acc, lo as char), lo + 1, hi);
    } else {
        lemma_add_range(acc, lo + 1, hi);
    }
}

/// The symbols of a character class are listed once each.
pub proof fn lemma_class_scan_unique(s: Seq<char>, i: int, acc: Seq<char>)
    requires
        acc.no_duplicates(),
    ensures
        spec_class_scan(s, i, acc).no_duplicates(),
    decreases s.len() - i,
{
    if i < 0 || i >= s.len() {
    } else if s[i] == '\\' && i + 1 < s.len() {
        lemma_push_unique(acc, spec_escaped_symbol(s[i + 1]));
        lemma_class_scan_unique(s, i + 2, push_unique(acc, spec_escaped_symbol(s[i + 1])));
    } else if i + 2 < s.len() && s[i + 1] == '-' {
        lemma_add_range(acc, s[i] as int, s[i + 2] as int);
        lemma_class_scan_unique(s, i + 3, spec_add_range(acc, s[i] as int, s[i + 2] as int));
    } else {
        lemma_push_unique(acc, s[i]);
        lemma_class_scan_unique(s, i + 1, push_unique(acc, s[i]));
    }
}

/// The symbol of an escaped character.
pub fn escaped_symbol(c: char) -> (r: char)
    ensures
        r == spec_escaped_symbol(c),
{
    if c == 'w' {
        WORD_CHAR
    } else if c == 's' {
        WHITE_SPACE
    } else if c == 'd' {
        NUMBER
    } else if c == 't' {
        '\t'
    } else if c == 'n' {
        '\n'
    } else if c == 'r' {
        '\r'
    } else {
        c
    }
}

/// The symbol of an unescaped character.
pub fn plain_symbol(c: char) -> (r: char)
    ensures
        r == spec_plain_symbol(c),
{
    if c == '.' {
        WILD_CARD
    } else {
        c
    }
}

/// Whether `c` occurs in `v`.
pub fn contains_char(v: &Vec<char>, c: char) -> (r: bool)
    ensures
        r == v@.contains(c),
{
    let mut i: usize = 0;
    while i < v.len()
        invariant
            i <= v.len(),
            forall|j: int| 0 <= j < i ==> v@[j] != c,
        decreases v.len() - i,
    {
        if v[i] == c {
            return true;
        }
        i += 1;
    }
    false
}

/// Adds `c` to `acc` unless it is there already.
pub fn add_unique(acc: &mut Vec<char>, c: char)
    ensures
        final(acc)@ == push_unique(old(acc)@, c),
{
    if !contains_char(acc, c) {
        acc.push(c);
    }
}

/// Lists the characters of `s`, each once, in order of first appearance.
pub fn distinct_chars(s: &Vec<char>) -> (out: Vec<char>)
    ensures
        out@ == spec_distinct(s@),
{
    let mut out: Vec<char> = Vec::new();
    let mut i: usize = 0;
    while i < s.len()
        invariant
            i <= s.len(),
            out@ == spec_distinct(s@.subrange(0, i as int)),
        decreases s.len() - i,
    {
        proof {
            let longer = s@.subrange(0, i as int + 1);
            assert(longer.drop_last() == s@.subrange(0, i as int));
        }
        add_unique(&mut out, s[i]);
        i += 1;
    }
    assert(s@.subrange(0, s@.len() as int) == s@);
    out
}

/// The character with a given code point.
///
/// Wraps `char::from_u32`, which gives the character whose code point is `u`,
/// and `None` exactly when `u` is a surrogate or lies above `0x10FFFF`.
#[verifier::external_body]
fn char_of_code(u: u32) -> (r: Option<char>)
    ensures
        match r {
            Some(c) => c as int == u as int && is_scalar(u as int),
            None => !is_scalar(u as int),
        },
{
    char::from_u32(u)
}

/// Adds every symbol from `lo` to `hi` to `acc`.
pub fn add_range(acc: &mut Vec<char>, lo: char, hi: char)
    ensures
        final(acc)@ == spec_add_range(old(acc)@, lo as int, hi as int),
{
    let last: u32 = hi as u32;
    let mut u: u32 = lo as u32;
    while u <= last
        invariant
            last == hi as u32,
            last <= 0x10FFFF,
            spec_add_range(old(acc)@, lo as int, hi as int) == spec_add_range(
                acc@,
                u as int,
                hi as int,
            ),
        decreases last + 1 - u,
    {
        match char_of_code(u) {
            Some(c) => {
                assert((u as int) as char == c);
                add_unique(acc, c);
            },
            None => {},
        }
        u += 1;
    }
}

/// Lists the symbols of a character class, each once, in order of first
/// appearance.
pub fn character_class_chars(s: &Vec<char>) -> (out: Vec<char>)
    ensures
        out@ == spec_character_class(s@),
        out@.no_duplicates(),
{
    let n: usize = s.len();
    let mut out: Vec<char> = Vec::new();
    let mut i: usize = 0;
    while i < n
        invariant
            n == s@.len(),
            spec_character_class(s@) == spec_class_scan(s@, i as int, out@),
        decreases n - i,
    {
        let c: char = s[i];
        if c == '\\' && n - i > 1 {
            add_unique(&mut out, escaped_symbol(s[i + 1]));
            i += 2;
        } else if n - i > 2 && s[i + 1] == '-' {
            add_range(&mut out, c, s[i + 2]);
            i += 3;
        } else {
            add_unique(&mut out, c);
            i += 1;
        }
    }
    proof {
        lemma_class_scan_unique(s@, 0, Seq::empty());
    }
    out
}

} // verus!
