//! Scanning a pattern for balanced delimiters and for alternation bars.

use crate::chars::{slice_chars, views};
use vstd::prelude::*;

verus! {

/// The three characters that open a nested region.
pub open spec fn is_opener(c: char) -> bool {
    c == '(' || c == '[' || c == '{'
}

/// The character that closes what `c` opens.
pub open spec fn closer_of(c: char) -> char {
    if c == '(' {
        ')'
    } else if c == '[' {
        ']'
    } else {
        '}'
    }
}

/// The closers still owed after reading the unescaped character `c`.
///
/// A character equal to the innermost owed closer pays it off. Otherwise an
/// opener adds its closer, except inside a character class, where openers are
/// ordinary characters. Any other character changes nothing.
pub open spec fn scan_step(stack: Seq<char>, c: char) -> Seq<char> {
    if stack.len() > 0 && stack.last() == c {
        stack.drop_last()
    } else if is_opener(c) && (stack.len() == 0 || stack.last() != ']') {
        stack.push(closer_of(c))
    } else {
        stack
    }
}

/// The index, at or after `i`, of the character that pays off the last owed
/// closer of `stack`; `None` if the pattern ends first. A backslash hides the
/// character after it.
pub open spec fn spec_paren_scan(s: Seq<char>, i: int, stack: Seq<char>) -> Option<int>
    decreases s.len() - i,
{
    if i < 0 || i >= s.len() {
        None
    } else if s[i] == '\\' {
        if i + 1 < s.len() {
            spec_paren_scan(s, i + 2, stack)
        } else {
            None
        }
    } else if stack.len() == 1 && stack[0] == s[i] {
        Some(i)
    } else {
        spec_paren_scan(s, i + 1, scan_step(stack, s[i]))
    }
}

/// The index of the delimiter that closes the opener at `start`, if `start`
/// holds an opener and the pattern closes it.
pub open spec fn spec_find_paren_match(s: Seq<char>, start: int) -> Option<int> {
    if 0 <= start < s.len() && is_opener(s[start]) {
        spec_paren_scan(s, start + 1, seq![closer_of(s[start])])
    } else {
        None
    }
}

/// The indices, at or after `i`, of the unescaped bars that stand outside
/// every nested region, in ascending order.
pub open spec fn spec_pipe_scan(s: Seq<char>, i: int, stack: Seq<char>) -> Seq<int>
    decreases s.len() - i,
{
    if i < 0 || i >= s.len() {
        Seq::empty()
    } else if s[i] == '\\' {
        if i + 1 < s.len() {
            spec_pipe_scan(s, i + 2, stack)
        } else {
            Seq::empty()
        }
    } else if s[i] == '|' && stack.len() == 0 {
        seq![i] + spec_pipe_scan(s, i + 1, stack)
    } else {
        spec_pipe_scan(s, i + 1, scan_step(stack, s[i]))
    }
}

/// The indices of the top-level alternation bars of a pattern.
pub open spec fn spec_find_pipes(s: Seq<char>) -> Seq<int> {
    spec_pipe_scan(s, 0, Seq::empty())
}

/// The stretches of `s` from `from` on that lie between the cut points
/// `cuts[k..]`, the cut characters themselves left out.
pub open spec fn spec_pieces(s: Seq<char>, from: int, cuts: Seq<int>, k: int) -> Seq<Seq<char>>
    decreases cuts.len() - k,
{
    if k < 0 || k >= cuts.len() {
        seq![s.subrange(from, s.len() as int)]
    } else {
        seq![s.subrange(from, cuts[k])] + spec_pieces(s, cuts[k] + 1, cuts, k + 1)
    }
}

/// The alternatives of a pattern: what stands between its top-level bars.
pub open spec fn spec_split_pipes(s: Seq<char>) -> Seq<Seq<char>> {
    spec_pieces(s, 0, spec_find_pipes(s), 0)
}

/// Whether `cuts` ascends strictly and lies within `lo..hi`.
pub open spec fn ascending_within(cuts: Seq<int>, lo: int, hi: int) -> bool {
    &&& forall|k: int| 0 <= k < cuts.len() ==> lo <= #[trigger] cuts[k] < hi
    &&& forall|j: int, k: int| 0 <= j < k < cuts.len() ==> #[trigger] cuts[j] < #[trigger] cuts[k]
}

/// The bars found from `i` on lie in `i..s.len()` and ascend.
pub proof fn lemma_pipe_scan_bounds(s: Seq<char>, i: int, stack: Seq<char>)
    requires
        0 <= i,
    ensures
        ascending_within(spec_pipe_scan(s, i, stack), i, s.len() as int),
    decreases s.len() - i,
{
    let all = spec_pipe_scan(s, i, stack);
    if i >= s.len() {
        assert(all.len() == 0);
    } else if s[i] == '\\' {
        if i + 1 < s.len() {
            lemma_pipe_scan_bounds(s, i + 2, stack);
            assert(all == spec_pipe_scan(s, i + 2, stack));
        } else {
            assert(all.len() == 0);
        }
    } else if s[i] == '|' && stack.len() == 0 {
        lemma_pipe_scan_bounds(s, i + 1, stack);
        let rest = spec_pipe_scan(s, i + 1, stack);
        assert(all == seq![i] + rest);
        assert(all[0] == i);
        assert forall|k: int| 1 <= k < all.len() implies #[trigger] all[k] == rest[k - 1] by {}
        assert forall|k: int| 0 <= k < all.len() implies i <= #[trigger] all[k] < s.len() by {
            if k > 0 {
                assert(all[k] == rest[k - 1]);
            }
        }
        assert forall|j: int, k: int| 0 <= j < k < all.len() implies #[trigger] all[j]
            < #[trigger] all[k] by {
            assert(all[k] == rest[k - 1]);
            if j > 0 {
                assert(all[j] == rest[j - 1]);
            }
        }
    } else {
        lemma_pipe_scan_bounds(s, i + 1, scan_step(stack, s[i]));
        assert(all == spec_pipe_scan(s, i + 1, scan_step(stack, s[i])));
    }
}

fn is_opener_char(c: char) -> (r: bool)
    ensures
        r == is_opener(c),
{
    c == '(' || c == '[' || c == '{'
}

fn closer_char(c: char) -> (r: char)
    ensures
        r == closer_of(c),
{
    if c == '(' {
        ')'
    } else if c == '[' {
        ']'
    } else {
        '}'
    }
}

/// Updates the owed closers for one unescaped character.
fn scan_advance(stack: &mut Vec<char>, c: char)
    ensures
        final(stack)@ == scan_step(old(stack)@, c),
{
    let n: usize = stack.len();
    if n > 0 && stack[n - 1] == c {
        stack.pop();
    } else if is_opener_char(c) && (n == 0 || stack[n - 1] != ']') {
        stack.push(closer_char(c));
    }
}

/// Finds the delimiter that closes the opener at `start`.
///
/// Returns `None` when `start` does not hold an opener or the pattern ends
/// before the opener is closed.
pub fn find_paren_match_chars(s: &Vec<char>, start: usize) -> (r: Option<usize>)
    ensures
        match r {
            Some(e) => spec_find_paren_match(s@, start as int) == Some(e as int) && start < e
                < s@.len(),
            None => spec_find_paren_match(s@, start as int).is_none(),
        },
{
    if start >= s.len() || !is_opener_char(s[start]) {
        return None;
    }
    let mut stack: Vec<char> = Vec::new();
    stack.push(closer_char(s[start]));
    assert(stack@ == seq![closer_of(s@[start as int])]);
    let mut i: usize = start + 1;
    while i < s.len()
        invariant
            start < i,
            spec_find_paren_match(s@, start as int) == spec_paren_scan(s@, i as int, stack@),
        decreases s.len() - i,
    {
        let c: char = s[i];
        if c == '\\' {
            if i + 1 >= s.len() {
                return None;
            }
            i += 2;
        } else if stack.len() == 1 && stack[0] == c {
            return Some(i);
        } else {
            scan_advance(&mut stack, c);
            i += 1;
        }
    }
    None
}

/// Finds the top-level alternation bars of a pattern.
pub fn find_pipes_chars(s: &Vec<char>) -> (pipes: Vec<usize>)
    ensures
        pipes@.len() == spec_find_pipes(s@).len(),
        forall|k: int| 0 <= k < pipes@.len() ==> pipes@[k] as int == spec_find_pipes(s@)[k],
{
    let mut pipes: Vec<usize> = Vec::new();
    let mut stack: Vec<char> = Vec::new();
    let mut i: usize = 0;
    let ghost mut found: Seq<int> = Seq::empty();
    while i < s.len()
        invariant
            found.len() == pipes@.len(),
            forall|k: int| 0 <= k < pipes@.len() ==> pipes@[k] as int == found[k],
            spec_find_pipes(s@) == found + spec_pipe_scan(s@, i as int, stack@),
        decreases s.len() - i,
    {
        let c: char = s[i];
        if c == '\\' {
            if i + 1 >= s.len() {
                i += 1;
            } else {
                i += 2;
            }
        } else if c == '|' && stack.len() == 0 {
            pipes.push(i);
            proof {
                let rest = spec_pipe_scan(s@, i as int + 1, stack@);
                assert(found + (seq![i as int] + rest) == found.push(i as int) + rest);
                found = found.push(i as int);
            }
            i += 1;
        } else {
            scan_advance(&mut stack, c);
            i += 1;
        }
    }
    assert(found + Seq::<int>::empty() == found);
    pipes
}

/// Splits a pattern into its alternatives, at the top-level bars.
pub fn split_pipes_chars(s: &Vec<char>) -> (out: Vec<Vec<char>>)
    ensures
        views(out@) == spec_split_pipes(s@),
{
    let pipes = find_pipes_chars(s);
    let ghost cuts = spec_find_pipes(s@);
    proof {
        lemma_pipe_scan_bounds(s@, 0, Seq::empty());
    }
    let mut out: Vec<Vec<char>> = Vec::new();
    let n: usize = s.len();
    let mut from: usize = 0;
    let mut k: usize = 0;
    while k < pipes.len()
        invariant
            n == s@.len(),
            cuts == spec_find_pipes(s@),
            ascending_within(cuts, 0, s@.len() as int),
            pipes@.len() == cuts.len(),
            forall|j: int| 0 <= j < pipes@.len() ==> pipes@[j] as int == cuts[j],
            k <= pipes@.len(),
            from <= s@.len(),
            k < pipes@.len() ==> from <= cuts[k as int],
            spec_split_pipes(s@) == views(out@) + spec_pieces(s@, from as int, cuts, k as int),
        decreases pipes.len() - k,
    {
        let cut: usize = pipes[k];
        assert(cut as int == cuts[k as int]);
        assert(cut < s@.len());
        let piece = slice_chars(s, from, cut);
        proof {
            let rest = spec_pieces(s@, cut as int + 1, cuts, k as int + 1);
            assert(views(out@.push(piece)) =~= views(out@).push(piece@));
            assert(views(out@) + (seq![piece@] + rest) =~= views(out@).push(piece@) + rest);
            if k + 1 < pipes@.len() {
                assert(cuts[k as int] < cuts[k as int + 1]);
            }
        }
        out.push(piece);
        from = cut + 1;
        k += 1;
    }
    let last = slice_chars(s, from, n);
    proof {
        assert(views(out@.push(last)) =~= views(out@).push(last@));
        assert(views(out@) + seq![last@] =~= views(out@).push(last@));
    }
    out.push(last);
    out
}

} // verus!
