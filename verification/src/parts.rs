//! Cutting a pattern into parts: one atom each, with its repetition suffix.

use crate::chars::{slice_chars, views};
use crate::parse_regex::RegexError;
use crate::quantifier::{find_char, lemma_find_char, spec_find_char};
use crate::scan::{find_paren_match_chars, spec_find_paren_match};
use vstd::prelude::*;

verus! {

/// Whether `c` can only stand after an atom or close a nested region, so that
/// no atom can begin with it.
pub open spec fn is_suffix_or_closer(c: char) -> bool {
    c == '*' || c == '+' || c == '?' || c == '{' || c == '}' || c == ')' || c == ']'
}

/// The index just behind the atom that begins at `i`.
///
/// A group or a class runs to its closing delimiter, a backslash takes the
/// character after it along, and any other character that can begin an atom
/// is an atom by itself.
pub open spec fn spec_atom_end(s: Seq<char>, i: int) -> Option<int> {
    if s[i] == '(' || s[i] == '[' {
        match spec_find_paren_match(s, i) {
            Some(e) => Some(e + 1),
            None => None,
        }
    } else if s[i] == '\\' {
        if i + 1 < s.len() {
            Some(i + 2)
        } else {
            None
        }
    } else if is_suffix_or_closer(s[i]) {
        None
    } else {
        Some(i + 1)
    }
}

/// The index just behind the repetition suffix that begins at `e`; `e` itself
/// where none begins there.
pub open spec fn spec_suffix_end(s: Seq<char>, e: int) -> Option<int> {
    if e >= s.len() {
        Some(e)
    } else {
        let counted: Option<int> = if s[e] == '*' || s[e] == '+' {
            Some(e + 1)
        } else if s[e] == '{' {
            match spec_find_char(s, e, '}') {
                Some(p) => Some(p + 1),
                None => None,
            }
        } else {
            Some(e)
        };
        match counted {
            Some(q) => if q < s.len() && s[q] == '?' {
                Some(q + 1)
            } else {
                Some(q)
            },
            None => None,
        }
    }
}

/// The index just behind the part that begins at `i`. A bar is a part by
/// itself.
pub open spec fn spec_part_end(s: Seq<char>, i: int) -> Option<int> {
    if s[i] == '|' {
        Some(i + 1)
    } else {
        match spec_atom_end(s, i) {
            Some(e) => spec_suffix_end(s, e),
            None => None,
        }
    }
}

/// The parts of `s` from index `i` on, or `None` where no part can begin at
/// the place reached.
pub open spec fn spec_parts_from(s: Seq<char>, i: int) -> Option<Seq<Seq<char>>>
    decreases s.len() - i,
{
    if i < 0 || i >= s.len() {
        Some(Seq::empty())
    } else {
        match spec_part_end(s, i) {
            Some(q) => if i < q <= s.len() {
                match spec_parts_from(s, q) {
                    Some(rest) => Some(seq![s.subrange(i, q)] + rest),
                    None => None,
                }
            } else {
                None
            },
            None => None,
        }
    }
}

/// The parts of a pattern.
pub open spec fn spec_split_to_parts(s: Seq<char>) -> Option<Seq<Seq<char>>> {
    spec_parts_from(s, 0)
}

/// The number of characters in all parts together.
pub open spec fn total_len(parts: Seq<Seq<char>>) -> nat
    decreases parts.len(),
{
    if parts.len() == 0 {
        0
    } else {
        parts[0].len() + total_len(parts.drop_first())
    }
}

/// Whether a part is a lone bar.
pub open spec fn is_bar(part: Seq<char>) -> bool {
    part.len() == 1 && part[0] == '|'
}

/// The groups into which the lone bars among `parts[i..]` divide them, the
/// first group beginning with `cur`.
pub open spec fn spec_groups_from(parts: Seq<Seq<char>>, i: int, cur: Seq<Seq<char>>) -> Seq<
    Seq<Seq<char>>,
>
    decreases parts.len() - i,
{
    if i < 0 || i >= parts.len() {
        seq![cur]
    } else if is_bar(parts[i]) {
        seq![cur] + spec_groups_from(parts, i + 1, Seq::empty())
    } else {
        spec_groups_from(parts, i + 1, cur.push(parts[i]))
    }
}

/// The groups into which the lone bars among `parts` divide them.
pub open spec fn spec_split_pipes_vec(parts: Seq<Seq<char>>) -> Seq<Seq<Seq<char>>> {
    spec_groups_from(parts, 0, Seq::empty())
}

/// The parts of a pattern hold its characters, each once.
pub proof fn lemma_parts_total_len(s: Seq<char>, i: int)
    requires
        0 <= i <= s.len(),
        spec_parts_from(s, i).is_some(),
    ensures
        total_len(spec_parts_from(s, i).unwrap()) == s.len() - i,
    decreases s.len() - i,
{
    if i < s.len() {
        let q = spec_part_end(s, i).unwrap();
        lemma_parts_total_len(s, q);
        let rest = spec_parts_from(s, q).unwrap();
        let all = seq![s.subrange(i, q)] + rest;
        assert(all.drop_first() == rest);
    }
}

/// What a suffix end is: at or behind its start, within the pattern.
pub proof fn lemma_suffix_end_bounds(s: Seq<char>, e: int)
    requires
        0 <= e <= s.len(),
    ensures
        match spec_suffix_end(s, e) {
            Some(q) => e <= q <= s.len(),
            None => true,
        },
{
    if e < s.len() && s[e] == '{' {
        lemma_find_char(s, e, '}');
    }
}

/// Cuts a pattern into parts.
///
/// Fails where a character that cannot begin an atom stands in the place of
/// one, where a group or class is left open, where a backslash ends the
/// pattern, or where a `{` after an atom is never closed.
pub fn split_to_parts_chars(s: &Vec<char>) -> (r: Result<Vec<Vec<char>>, RegexError>)
    ensures
        match r {
            Ok(parts) => spec_split_to_parts(s@) == Some(views(parts@)),
            Err(_) => spec_split_to_parts(s@).is_none(),
        },
{
    let n: usize = s.len();
    let mut parts: Vec<Vec<char>> = Vec::new();
    let mut i: usize = 0;
    while i < n
        invariant
            n == s@.len(),
            i <= n,
            match spec_parts_from(s@, i as int) {
                Some(rest) => spec_split_to_parts(s@) == Some(views(parts@) + rest),
                None => spec_split_to_parts(s@).is_none(),
            },
        decreases n - i,
    {
        let c: char = s[i];
        let mut q: usize;
        if c == '|' {
            q = i + 1;
        } else {
            let e: usize;
            if c == '(' || c == '[' {
                match find_paren_match_chars(s, i) {
                    Some(m) => {
                        e = m + 1;
                    },
                    None => {
                        return Err(RegexError::MalformedPattern);
                    },
                }
            } else if c == '\\' {
                if n - i < 2 {
                    return Err(RegexError::MalformedPattern);
                }
                e = i + 2;
            } else if c == '*' || c == '+' || c == '?' || c == '{' || c == '}' || c == ')' || c
                == ']' {
                return Err(RegexError::MalformedPattern);
            } else {
                e = i + 1;
            }
            assert(spec_atom_end(s@, i as int) == Some(e as int));
            proof {
                lemma_suffix_end_bounds(s@, e as int);
            }
            q = e;
            if e < n {
                if s[e] == '*' || s[e] == '+' {
                    q = e + 1;
                } else if s[e] == '{' {
                    match find_char(s, e, '}') {
                        Some(p) => {
                            q = p + 1;
                        },
                        None => {
                            return Err(RegexError::MalformedPattern);
                        },
                    }
                }
                if q < n && s[q] == '?' {
                    q = q + 1;
                }
            }
            assert(spec_suffix_end(s@, e as int) == Some(q as int));
        }
        assert(spec_part_end(s@, i as int) == Some(q as int));
        let part = slice_chars(s, i, q);
        proof {
            match spec_parts_from(s@, q as int) {
                Some(rest) => {
                    assert(views(parts@.push(part)) =~= views(parts@).push(part@));
                    assert(views(parts@) + (seq![part@] + rest) =~= views(parts@).push(part@)
                        + rest);
                },
                None => {},
            }
        }
        parts.push(part);
        i = q;
    }
    assert(views(parts@) + Seq::<Seq<char>>::empty() =~= views(parts@));
    Ok(parts)
}

/// Whether a part is a lone bar.
pub fn is_bar_part(part: &Vec<char>) -> (r: bool)
    ensures
        r == is_bar(part@),
{
    part.len() == 1 && part[0] == '|'
}

/// Adding a part adds its characters to the count.
pub proof fn lemma_total_len_push(parts: Seq<Seq<char>>, part: Seq<char>)
    ensures
        total_len(parts.push(part)) == total_len(parts) + part.len(),
    decreases parts.len(),
{
    if parts.len() == 0 {
        assert(parts.push(part).drop_first() == Seq::<Seq<char>>::empty());
        assert(parts.push(part)[0] == part);
        assert(total_len(Seq::<Seq<char>>::empty()) == 0);
    } else {
        lemma_total_len_push(parts.drop_first(), part);
        assert(parts.push(part).drop_first() == parts.drop_first().push(part));
    }
}

/// No part is longer than all parts together.
pub proof fn lemma_part_le_total(parts: Seq<Seq<char>>, k: int)
    requires
        0 <= k < parts.len(),
    ensures
        parts[k].len() <= total_len(parts),
    decreases parts.len(),
{
    if k > 0 {
        lemma_part_le_total(parts.drop_first(), k - 1);
    }
}

/// The characters of `parts[i..]` together.
pub open spec fn total_len_from(parts: Seq<Seq<char>>, i: int) -> nat
    decreases parts.len() - i,
{
    if i < 0 || i >= parts.len() {
        0
    } else {
        parts[i].len() + total_len_from(parts, i + 1)
    }
}

/// Counting from the start counts all.
pub proof fn lemma_total_len_from(parts: Seq<Seq<char>>, i: int)
    requires
        0 <= i <= parts.len(),
    ensures
        total_len_from(parts, i) == total_len(parts.subrange(i, parts.len() as int)),
    decreases parts.len() - i,
{
    let tail = parts.subrange(i, parts.len() as int);
    if i < parts.len() {
        lemma_total_len_from(parts, i + 1);
        assert(tail.drop_first() == parts.subrange(i + 1, parts.len() as int));
    }
}

/// No group holds more characters than the parts it was cut from, and none
/// holds a lone bar if the group begun holds none.
pub proof fn lemma_groups_from(parts: Seq<Seq<char>>, i: int, cur: Seq<Seq<char>>)
    requires
        0 <= i <= parts.len(),
        forall|j: int| 0 <= j < cur.len() ==> !is_bar(#[trigger] cur[j]),
    ensures
        spec_groups_from(parts, i, cur).len() >= 1,
        forall|k: int|
            0 <= k < spec_groups_from(parts, i, cur).len() ==> total_len(
                #[trigger] spec_groups_from(parts, i, cur)[k],
            ) <= total_len(cur) + total_len_from(parts, i),
        forall|k: int, j: int|
            0 <= k < spec_groups_from(parts, i, cur).len() && 0 <= j < spec_groups_from(
                parts,
                i,
                cur,
            )[k].len() ==> !is_bar(#[trigger] spec_groups_from(parts, i, cur)[k][j]),
    decreases parts.len() - i,
{
    let all = spec_groups_from(parts, i, cur);
    if i >= parts.len() {
        assert(all == seq![cur]);
    } else if is_bar(parts[i]) {
        let rest = spec_groups_from(parts, i + 1, Seq::empty());
        lemma_groups_from(parts, i + 1, Seq::empty());
        assert(all == seq![cur] + rest);
        assert(all[0] == cur);
        assert forall|k: int| 1 <= k < all.len() implies #[trigger] all[k] == rest[k - 1] by {}
        assert forall|k: int| 0 <= k < all.len() implies total_len(#[trigger] all[k]) <= total_len(
            cur,
        ) + total_len_from(parts, i) by {
            if k > 0 {
                assert(all[k] == rest[k - 1]);
            }
        }
        assert forall|k: int, j: int| 0 <= k < all.len() && 0 <= j < all[k].len() implies !is_bar(
            #[trigger] all[k][j],
        ) by {
            if k > 0 {
                assert(all[k] == rest[k - 1]);
                assert(!is_bar(rest[k - 1][j]));
            }
        }
    } else {
        let next = cur.push(parts[i]);
        lemma_total_len_push(cur, parts[i]);
        assert forall|j: int| 0 <= j < next.len() implies !is_bar(#[trigger] next[j]) by {
            if j < cur.len() {
                assert(next[j] == cur[j]);
            }
        }
        lemma_groups_from(parts, i + 1, next);
        assert(all == spec_groups_from(parts, i + 1, next));
    }
}

/// Divides parts into groups at the lone bars.
pub fn split_pipes_vec_chars(parts: &Vec<Vec<char>>) -> (groups: Vec<Vec<Vec<char>>>)
    ensures
        groups@.len() == spec_split_pipes_vec(views(parts@)).len(),
        forall|k: int|
            0 <= k < groups@.len() ==> views((#[trigger] groups@[k])@) == spec_split_pipes_vec(
                views(parts@),
            )[k],
{
    let ghost all = spec_split_pipes_vec(views(parts@));
    let ghost mut done: Seq<Seq<Seq<char>>> = Seq::empty();
    let mut groups: Vec<Vec<Vec<char>>> = Vec::new();
    let mut cur: Vec<Vec<char>> = Vec::new();
    let mut i: usize = 0;
    assert(views(cur@) =~= Seq::<Seq<char>>::empty());
    assert(done + all =~= all);
    while i < parts.len()
        invariant
            i <= parts.len(),
            all == spec_split_pipes_vec(views(parts@)),
            done.len() == groups@.len(),
            forall|k: int| 0 <= k < groups@.len() ==> views((#[trigger] groups@[k])@) == done[k],
            all == done + spec_groups_from(views(parts@), i as int, views(cur@)),
        decreases parts.len() - i,
    {
        let ghost rest_bar = spec_groups_from(views(parts@), i as int + 1, Seq::empty());
        assert(views(parts@)[i as int] == parts@[i as int]@);
        if is_bar_part(&parts[i]) {
            proof {
                assert(done + (seq![views(cur@)] + rest_bar) =~= done.push(views(cur@)) + rest_bar);
                done = done.push(views(cur@));
            }
            groups.push(cur);
            cur = Vec::new();
            assert(views(cur@) =~= Seq::<Seq<char>>::empty());
        } else {
            let part = slice_chars(&parts[i], 0, parts[i].len());
            assert(part@ == parts@[i as int]@);
            assert(views(cur@.push(part)) =~= views(cur@).push(part@));
            cur.push(part);
        }
        i += 1;
    }
    proof {
        assert(done + seq![views(cur@)] =~= done.push(views(cur@)));
        done = done.push(views(cur@));
    }
    groups.push(cur);
    groups
}

/// Whether some part is a lone bar.
pub fn has_bar_part(parts: &Vec<Vec<char>>) -> (r: bool)
    ensures
        r == exists|k: int| 0 <= k < parts@.len() && is_bar(#[trigger] views(parts@)[k]),
{
    let mut i: usize = 0;
    while i < parts.len()
        invariant
            i <= parts.len(),
            forall|k: int| 0 <= k < i ==> !is_bar(#[trigger] views(parts@)[k]),
        decreases parts.len() - i,
    {
        assert(views(parts@)[i as int] == parts@[i as int]@);
        if is_bar_part(&parts[i]) {
            return true;
        }
        i += 1;
    }
    false
}

} // verus!
