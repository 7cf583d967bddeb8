//! From a pattern in the usual notation to postfix notation: the dot that
//! joins two operands is written out, then operators are put behind their
//! operands.

use crate::regex::spec_precedence;
use vstd::prelude::*;

verus! {

/// The index of the first `]` or `}` at or behind `j`.
pub open spec fn spec_bracket_end(s: Seq<char>, j: int) -> Option<int>
    decreases s.len() - j,
{
    if j < 0 || j >= s.len() {
        None
    } else if s[j] == ']' || s[j] == '}' {
        Some(j)
    } else {
        spec_bracket_end(s, j + 1)
    }
}

/// Whether no dot is written behind the character `t`.
pub open spec fn joins_nothing(t: char) -> bool {
    t == '(' || t == '|' || t == ']' || t == '}'
}

/// Whether no dot is written before the character `next`.
pub open spec fn takes_no_dot(next: char) -> bool {
    next == '*' || next == '?' || next == '+' || next == '|' || next == ')' || next == ']' || next
        == '{'
}

/// The pattern from index `i` on with the joining dots written out, added
/// to `out`; `None` where a `[` or `{` is never closed.
///
/// What stands between `[` or `{` and the next `]` or `}` is taken as it is.
/// Behind any other character but `(` and `|` a dot is written, unless the
/// pattern ends there or a repetition, a bar or a closing delimiter follows.
pub open spec fn spec_dots(s: Seq<char>, i: int, out: Seq<char>) -> Option<Seq<char>>
    decreases s.len() - i,
{
    if i < 0 || i >= s.len() {
        Some(out)
    } else if s[i] == '[' || s[i] == '{' {
        match spec_bracket_end(s, i + 1) {
            Some(j) => if i < j < s.len() {
                spec_dots(s, j + 1, out + s.subrange(i, j + 1))
            } else {
                None
            },
            None => None,
        }
    } else if joins_nothing(s[i]) || i + 1 >= s.len() || takes_no_dot(s[i + 1]) {
        spec_dots(s, i + 1, out.push(s[i]))
    } else {
        spec_dots(s, i + 1, out.push(s[i]).push('.'))
    }
}

/// The pattern with the joining dots written out.
pub open spec fn spec_insert_concat(s: Seq<char>) -> Option<Seq<char>> {
    spec_dots(s, 0, Seq::empty())
}

/// The operators waiting and the output, after the waiting operators down
/// to the last `(` have gone to the output and that `(` is dropped.
pub open spec fn spec_close_paren(stack: Seq<char>, out: Seq<char>) -> (Seq<char>, Seq<char>)
    decreases stack.len(),
{
    if stack.len() == 0 {
        (stack, out)
    } else if stack.last() == '(' {
        (stack.drop_last(), out)
    } else {
        spec_close_paren(stack.drop_last(), out.push(stack.last()))
    }
}

/// The operators waiting and the output, after every waiting operator on
/// top that binds at least as tightly as `token` has gone to the output.
pub open spec fn spec_yield(stack: Seq<char>, out: Seq<char>, token: char) -> (
    Seq<char>,
    Seq<char>,
)
    decreases stack.len(),
{
    if stack.len() == 0 {
        (stack, out)
    } else if spec_precedence(stack.last()) >= spec_precedence(token) {
        spec_yield(stack.drop_last(), out.push(stack.last()), token)
    } else {
        (stack, out)
    }
}

/// The output with every waiting operator behind it, the last first.
pub open spec fn spec_flush(stack: Seq<char>, out: Seq<char>) -> Seq<char>
    decreases stack.len(),
{
    if stack.len() == 0 {
        out
    } else {
        spec_flush(stack.drop_last(), out.push(stack.last()))
    }
}

/// The pattern from index `i` on in postfix notation, given the operators
/// that wait and the output so far.
///
/// `(` waits. `)` sends the waiting operators down to the last `(` to the
/// output. A bar, a dot or a star first sends the waiting operators that
/// bind at least as tightly to the output, then waits. Anything else goes
/// to the output. At the end the waiting operators follow.
pub open spec fn spec_shunt(s: Seq<char>, i: int, stack: Seq<char>, out: Seq<char>) -> Seq<char>
    decreases s.len() - i,
{
    if i < 0 || i >= s.len() {
        spec_flush(stack, out)
    } else if s[i] == '(' {
        spec_shunt(s, i + 1, stack.push('('), out)
    } else if s[i] == ')' {
        let r = spec_close_paren(stack, out);
        spec_shunt(s, i + 1, r.0, r.1)
    } else if s[i] == '|' || s[i] == '.' || s[i] == '*' {
        let r = spec_yield(stack, out, s[i]);
        spec_shunt(s, i + 1, r.0.push(s[i]), r.1)
    } else {
        spec_shunt(s, i + 1, stack, out.push(s[i]))
    }
}

/// A pattern with its dots written out, in postfix notation.
pub open spec fn spec_postfix(s: Seq<char>) -> Seq<char> {
    spec_shunt(s, 0, Seq::empty(), Seq::empty())
}

/// A pattern in postfix notation; `None` where a `[` or `{` is never closed.
pub open spec fn spec_to_postfix_insert_concat(raw: Seq<char>) -> Option<Seq<char>> {
    match spec_insert_concat(raw) {
        Some(s) => Some(spec_postfix(s)),
        None => None,
    }
}

/// How tightly an operator binds.
pub fn precedence_of(operator: char) -> (r: i32)
    ensures
        r == spec_precedence(operator),
{
    if operator == '|' {
        1
    } else if operator == '.' {
        2
    } else if operator == '*' {
        3
    } else {
        0
    }
}

/// Finds the first `]` or `}` at or behind `j`.
pub fn bracket_end(s: &Vec<char>, j: usize) -> (r: Option<usize>)
    ensures
        match r {
            Some(k) => spec_bracket_end(s@, j as int) == Some(k as int) && j <= k < s@.len(),
            None => spec_bracket_end(s@, j as int).is_none(),
        },
{
    let mut k: usize = j;
    while k < s.len()
        invariant
            j <= k,
            spec_bracket_end(s@, j as int) == spec_bracket_end(s@, k as int),
        decreases s.len() - k,
    {
        if s[k] == ']' || s[k] == '}' {
            return Some(k);
        }
        k += 1;
    }
    None
}

/// Writes out the joining dots of a pattern.
pub fn insert_concat_chars(s: &Vec<char>) -> (r: Option<Vec<char>>)
    ensures
        match r {
            Some(out) => spec_insert_concat(s@) == Some(out@),
            None => spec_insert_concat(s@).is_none(),
        },
{
    let n: usize = s.len();
    let mut out: Vec<char> = Vec::new();
    let mut i: usize = 0;
    while i < n
        invariant
            n == s@.len(),
            spec_insert_concat(s@) == spec_dots(s@, i as int, out@),
        decreases n - i,
    {
        let t: char = s[i];
        if t == '[' || t == '{' {
            match bracket_end(s, i + 1) {
                Some(j) => {
                    let ghost before = out@;
                    let mut k: usize = i;
                    while k <= j
                        invariant
                            i <= k <= j + 1,
                            j < n,
                            n == s@.len(),
                            out@ == before + s@.subrange(i as int, k as int),
                        decreases j + 1 - k,
                    {
                        out.push(s[k]);
                        assert(s@.subrange(i as int, k as int + 1) == s@.subrange(
                            i as int,
                            k as int,
                        ).push(s@[k as int]));
                        assert(before + s@.subrange(i as int, k as int + 1) =~= (before
                            + s@.subrange(i as int, k as int)).push(s@[k as int]));
                        k += 1;
                    }
                    i = j + 1;
                },
                None => {
                    return None;
                },
            }
        } else {
            out.push(t);
            let alone: bool = t == '(' || t == '|' || t == ']' || t == '}' || n - i <= 1;
            if !alone {
                let next: char = s[i + 1];
                if !(next == '*' || next == '?' || next == '+' || next == '|' || next == ')'
                    || next == ']' || next == '{') {
                    out.push('.');
                }
            }
            i += 1;
        }
    }
    Some(out)
}

/// Puts a pattern with its dots written out into postfix notation.
pub fn postfix_chars(s: &Vec<char>) -> (out: Vec<char>)
    ensures
        out@ == spec_postfix(s@),
{
    let mut out: Vec<char> = Vec::new();
    let mut stack: Vec<char> = Vec::new();
    let mut i: usize = 0;
    while i < s.len()
        invariant
            spec_postfix(s@) == spec_shunt(s@, i as int, stack@, out@),
        decreases s.len() - i,
    {
        let t: char = s[i];
        if t == '(' {
            stack.push('(');
        } else if t == ')' {
            let ghost stack0 = stack@;
            let ghost out0 = out@;
            let mut open: bool = false;
            while stack.len() > 0 && !open
                invariant
                    !open ==> spec_close_paren(stack0, out0) == spec_close_paren(stack@, out@),
                    open ==> spec_close_paren(stack0, out0) == (stack@, out@),
                decreases stack.len() + if open { 0int } else { 1int },
            {
                let ghost before = stack@;
                let top: char = stack.pop().unwrap();
                assert(stack@ == before.drop_last());
                if top == '(' {
                    open = true;
                } else {
                    out.push(top);
                }
            }
        } else if t == '|' || t == '.' || t == '*' {
            let ghost stack0 = stack@;
            let ghost out0 = out@;
            let mut go: bool = true;
            while stack.len() > 0 && go
                invariant
                    go ==> spec_yield(stack0, out0, t) == spec_yield(stack@, out@, t),
                    !go ==> spec_yield(stack0, out0, t) == (stack@, out@),
                decreases stack.len() + if go { 1int } else { 0int },
            {
                let top: char = stack[stack.len() - 1];
                if precedence_of(top) >= precedence_of(t) {
                    let ghost before = stack@;
                    stack.pop();
                    assert(stack@ == before.drop_last());
                    out.push(top);
                } else {
                    go = false;
                }
            }
            stack.push(t);
        } else {
            out.push(t);
        }
        i += 1;
    }
    while stack.len() > 0
        invariant
            spec_postfix(s@) == spec_flush(stack@, out@),
        decreases stack.len(),
    {
        let ghost before = stack@;
        let top: char = stack.pop().unwrap();
        assert(stack@ == before.drop_last());
        out.push(top);
    }
    out
}

} // verus!
