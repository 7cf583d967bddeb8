//! What assembling a pattern in postfix form gives: the table of states,
//! step by step.

use crate::assemble::spec_add;
use crate::class::spec_add_range;
use crate::node::NodeValue;
use crate::postfix::spec_to_postfix_insert_concat;
use crate::regex::{
    spec_asterisk,
    spec_character_class,
    spec_concat,
    spec_from_epsilon,
    spec_from_symbol,
    spec_plus,
    spec_question,
    spec_union,
    v_end,
    v_eps,
    v_node,
    RegexValue,
};
use vstd::prelude::*;

verus! {

/// A table of states under assembly: the states, the fragment made last and
/// the number that the next new state gets.
pub struct Table {
    pub nodes: Seq<NodeValue>,
    pub start: int,
    pub end: int,
    pub id: int,
}

/// A fragment of a table: its first and its last state.
pub type Frag = (int, int);

/// Whether the fragment lies within the first `len` states.
pub open spec fn within(f: Frag, len: int) -> bool {
    0 <= f.0 < len && 0 <= f.1 < len
}

/// The table after an operation that made the fragment `v` and used up
/// `used` numbers.
pub open spec fn after(m: Table, v: RegexValue, used: int) -> Table {
    Table { nodes: v.nodes, start: v.start, end: v.end, id: m.id + used }
}

/// The value of a decimal digit.
pub open spec fn spec_digit(c: char) -> Option<int> {
    if '0' <= c <= '9' {
        Some(c as int - '0' as int)
    } else {
        None
    }
}

/// The bounds of a counted repetition and the index of its closing brace,
/// read from index `k` on, `lower` and `upper` being the bounds read so far.
///
/// At a comma the character before it, unless it is the opening brace, is
/// the least count, and the character behind it, unless it is the closing
/// brace, the greatest. Without any bound at the closing brace, the
/// character before the brace is both. A bound must be a digit; -1 stands
/// for a bound left out.
pub open spec fn spec_bounds_scan(p: Seq<char>, k: int, lower: int, upper: int) -> Option<
    (int, int, int),
>
    decreases p.len() - k,
{
    if k < 1 || k >= p.len() {
        None
    } else if p[k] == '}' {
        if upper == -1 && lower == -1 {
            match spec_digit(p[k - 1]) {
                Some(d) => Some((d, d, k)),
                None => None,
            }
        } else {
            Some((lower, upper, k))
        }
    } else if p[k] == ',' {
        let low: Option<int> = if p[k - 1] != '{' {
            spec_digit(p[k - 1])
        } else {
            Some(lower)
        };
        if k + 1 >= p.len() {
            None
        } else {
            let high: Option<int> = if p[k + 1] != '}' {
                spec_digit(p[k + 1])
            } else {
                Some(upper)
            };
            match (low, high) {
                (Some(l), Some(u)) => spec_bounds_scan(p, k + 1, l, u),
                _ => None,
            }
        }
    } else {
        spec_bounds_scan(p, k + 1, lower, upper)
    }
}

/// The symbols of a class and the index of its closing bracket, read from
/// index `k` on, `acc` being the symbols read so far. A `-` stands for every
/// symbol from the character before it to the character behind it; a dot is
/// left out.
pub open spec fn spec_class_text(p: Seq<char>, k: int, acc: Seq<char>) -> Option<(Seq<char>, int)>
    decreases p.len() - k,
{
    if k < 1 || k >= p.len() {
        None
    } else if p[k] == ']' {
        Some((acc, k))
    } else if p[k] == '-' {
        if k + 1 >= p.len() {
            None
        } else {
            spec_class_text(p, k + 2, spec_add_range(acc, p[k - 1] as int, p[k + 1] as int))
        }
    } else if p[k] != '.' {
        spec_class_text(p, k + 1, acc.push(p[k]))
    } else {
        spec_class_text(p, k + 1, acc)
    }
}

/// The table with a copy of the states `curr` behind it and the fragment `n`
/// joined to the copy, which is taken to span `span` states from the state
/// behind the last state of `n`. `None` where the copy does not fit the
/// machine or a fragment does not lie in the table.
pub open spec fn spec_attach(m: Table, curr: Seq<NodeValue>, n: Frag, span: int) -> Option<Table> {
    let len = m.nodes.len() as int;
    let count = curr.len() as int;
    if count > usize::MAX - len || count > 0x7fff_ffff || m.id > i32::MAX - count {
        None
    } else if n.1 + 1 + span > usize::MAX {
        None
    } else {
        let second = (n.1 + 1, n.1 + 1 + span);
        if within(n, len + count) && within(second, len + count) {
            Some(after(m, spec_concat(spec_add(m.nodes, curr, m.id), n, second), count))
        } else {
            None
        }
    }
}

/// The table with the last state of the fragment made last accepting no
/// more, and a new accepting state reached from `from` without a symbol.
pub open spec fn spec_cap(m: Table, from: int) -> Option<Table> {
    if m.id > i32::MAX - 1 {
        None
    } else {
        let e = m.nodes.len() as int;
        let nodes = v_eps(v_end(m.nodes, m.end, false).push(v_node(m.id, true)), from, e);
        Some(Table { nodes, start: m.start, end: e, id: m.id + 1 })
    }
}

/// The state of a run of copies: the table, the fragment reached, the
/// number of copies made, and where the table ended before the last copy.
pub struct Copies {
    pub m: Table,
    pub n: Frag,
    pub dup: int,
    pub prev: int,
}

/// Copies attached one after the other until `dup` reaches `limit - 1`.
/// Where `link` is set, each copy can be left out: the last state of the
/// fragment before it goes on to the last state of the copy.
pub open spec fn spec_copies(
    c: Copies,
    curr: Seq<NodeValue>,
    span: int,
    limit: int,
    link: bool,
) -> Option<Copies>
    decreases limit - c.dup,
{
    if c.dup >= limit - 1 {
        Some(c)
    } else {
        match spec_attach(c.m, curr, c.n, span) {
            Some(m1) => {
                let m2 = if link {
                    Table {
                        nodes: v_eps(m1.nodes, c.n.1, m1.end),
                        start: m1.start,
                        end: m1.end,
                        id: m1.id,
                    }
                } else {
                    m1
                };
                spec_copies(
                    Copies {
                        m: m2,
                        n: (m1.start, m1.end),
                        dup: c.dup + 1,
                        prev: c.m.nodes.len() as int,
                    },
                    curr,
                    span,
                    limit,
                    link,
                )
            },
            None => None,
        }
    }
}

/// The last copy of a counted repetition with a greatest count: one more
/// copy is attached, and a new accepting state is reached from the last
/// state of the fragment before it.
pub open spec fn spec_finish(c: Copies, curr: Seq<NodeValue>, span: int) -> Option<Table> {
    match spec_attach(c.m, curr, c.n, span) {
        Some(m1) => spec_cap(m1, c.n.1),
        None => None,
    }
}

/// The table with the fragment `first` repeated as the bounds say, -1
/// standing for a bound left out.
///
/// With equal bounds, copies are attached up to the count. Without a
/// greatest count, copies are attached up to the least count, and the last
/// state reached goes on to a new accepting state and back to where the
/// table ended before the last copy. Otherwise copies are attached up to the
/// least count, then copies that can be left out up to the greatest; where
/// there is no least count, the first state accepts as well.
pub open spec fn spec_repeat(m: Table, first: Frag, lower: int, upper: int) -> Option<Table> {
    if first.1 < first.0 {
        None
    } else {
        let span = first.1 - first.0;
        let curr = m.nodes;
        let c0 = Copies { m, n: first, dup: 0, prev: m.nodes.len() as int };
        if lower == upper {
            match spec_copies(c0, curr, span, lower, false) {
                Some(c) => spec_finish(c, curr, span),
                None => None,
            }
        } else if upper == -1 {
            match spec_copies(c0, curr, span, lower, false) {
                Some(c) => {
                    let len = c.m.nodes.len() as int;
                    if c.m.id > i32::MAX - 1 || !(0 <= c.m.end < len) || !(0 <= c.m.start < len) {
                        None
                    } else {
                        let pushed = c.m.nodes.push(v_node(c.m.id, true));
                        let g0 = v_end(pushed, c.m.end, false);
                        let g1 = v_eps(g0, c.m.end, len);
                        Some(
                            Table {
                                nodes: v_eps(g1, c.m.end, c.prev),
                                start: c.m.start,
                                end: len,
                                id: c.m.id + 1,
                            },
                        )
                    }
                },
                None => None,
            }
        } else {
            let c1 = if lower > -1 {
                spec_copies(c0, curr, span, lower, false)
            } else {
                Some(c0)
            };
            match c1 {
                Some(c) => match spec_copies(c, curr, span, upper, true) {
                    Some(c2) => match spec_finish(c2, curr, span) {
                        Some(m3) => if lower == -1 {
                            Some(
                                Table {
                                    nodes: v_end(m3.nodes, m3.start, true),
                                    start: m3.start,
                                    end: m3.end,
                                    id: m3.id,
                                },
                            )
                        } else {
                            Some(m3)
                        },
                        None => None,
                    },
                    None => None,
                },
                None => None,
            }
        }
    }
}

/// The table and the waiting fragments after the token at index `i` of `p`,
/// and the index behind the token.
///
/// A repetition takes the fragment on top, the dot and the bar the two on
/// top; a class and any other character make a fragment of their own. The
/// fragment made waits in turn. `None` where a fragment is missing, a
/// bracket or brace is left open, a bound is no digit, or the numbers of the
/// states run out.
pub open spec fn spec_step(p: Seq<char>, i: int, m: Table, stack: Seq<Frag>) -> Option<
    (Table, Seq<Frag>, int),
> {
    if m.id > i32::MAX - 2 {
        None
    } else {
        let t = p[i];
        if t == '*' || t == '+' || t == '?' {
            if stack.len() < 1 {
                None
            } else {
                let f = stack.last();
                let v = if t == '*' {
                    spec_asterisk(m.nodes, f, m.id)
                } else if t == '+' {
                    spec_plus(m.nodes, f, m.id)
                } else {
                    spec_question(m.nodes, f, m.id)
                };
                Some((after(m, v, 2), stack.drop_last().push((v.start, v.end)), i + 1))
            }
        } else if t == '|' || t == '.' {
            if stack.len() < 2 {
                None
            } else {
                let right = stack.last();
                let left = stack.drop_last().last();
                let rest = stack.drop_last().drop_last();
                if t == '|' {
                    let v = spec_union(m.nodes, left, right, m.id);
                    Some((after(m, v, 2), rest.push((v.start, v.end)), i + 1))
                } else {
                    let v = spec_concat(m.nodes, left, right);
                    Some((after(m, v, 0), rest.push((v.start, v.end)), i + 1))
                }
            }
        } else if t == '{' {
            match spec_bounds_scan(p, i + 1, -1, -1) {
                Some((lower, upper, close)) => if stack.len() < 1 {
                    None
                } else {
                    match spec_repeat(m, stack.last(), lower, upper) {
                        Some(m1) => Some(
                            (m1, stack.drop_last().push((m1.start, m1.end)), close + 1),
                        ),
                        None => None,
                    }
                },
                None => None,
            }
        } else if t == '[' {
            match spec_class_text(p, i + 1, Seq::empty()) {
                Some((chars, close)) => {
                    let v = spec_character_class(m.nodes, chars, m.id);
                    Some((after(m, v, 2), stack.push((v.start, v.end)), close + 1))
                },
                None => None,
            }
        } else {
            let v = spec_from_symbol(m.nodes, t, m.id);
            Some((after(m, v, 2), stack.push((v.start, v.end)), i + 1))
        }
    }
}

/// The table and the waiting fragments after the tokens of `p` from index
/// `i` on.
pub open spec fn spec_eval(p: Seq<char>, i: int, m: Table, stack: Seq<Frag>) -> Option<
    (Table, Seq<Frag>),
>
    decreases p.len() - i,
{
    if i < 0 || i >= p.len() {
        Some((m, stack))
    } else {
        match spec_step(p, i, m, stack) {
            Some((m1, s1, j)) => if i < j <= p.len() {
                spec_eval(p, j, m1, s1)
            } else {
                None
            },
            None => None,
        }
    }
}

/// The automaton of a pattern in postfix notation: for the empty pattern the
/// fragment that accepts the empty input; else the table that the tokens
/// make, with the fragment picked out that waits on top at the end.
pub open spec fn spec_from_postfix(p: Seq<char>) -> Option<RegexValue> {
    if p.len() == 0 {
        Some(spec_from_epsilon(Seq::empty(), 0))
    } else {
        match spec_eval(p, 0, Table { nodes: Seq::empty(), start: 0, end: 0, id: 0 }, Seq::empty()) {
            Some((m, stack)) => if stack.len() < 1 {
                None
            } else {
                Some(RegexValue { nodes: m.nodes, start: stack.last().0, end: stack.last().1 })
            },
            None => None,
        }
    }
}

/// The automaton of a pattern in the usual notation.
pub open spec fn spec_new(regex: Seq<char>) -> Option<RegexValue> {
    match spec_to_postfix_insert_concat(regex) {
        Some(p) => spec_from_postfix(p),
        None => None,
    }
}

} // verus!
