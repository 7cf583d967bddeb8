//! The fragment automaton: built from a pattern in postfix form, one
//! fragment for each operand and operator, and searched directly.

use crate::chars::str_to_chars;
use crate::node::{node_closed, Node, NodeValue};
use vstd::prelude::*;

verus! {

/// A table of states that holds fragments of an automaton, and the first
/// and last state of the fragment made last.
#[derive(Debug)]
pub struct Regex {
    pub all_nodes: Vec<Node>,
    pub start: usize,
    pub end: usize,
}

/// A fragment: its first and its last state.
pub type Fragment = (usize, usize);

/// The value of a table of states with a fragment picked out.
pub struct RegexValue {
    pub nodes: Seq<NodeValue>,
    pub start: int,
    pub end: int,
}

/// The values of a list of states.
pub open spec fn values(nodes: Seq<Node>) -> Seq<NodeValue> {
    Seq::new(nodes.len(), |i: int| nodes[i]@)
}

/// Whether every transition of every state leads to a state of the table.
pub open spec fn closed(nodes: Seq<Node>) -> bool {
    forall|a: int| 0 <= a < nodes.len() ==> node_closed(#[trigger] nodes[a], nodes.len())
}

/// A state without transitions.
pub open spec fn v_node(id: int, is_end: bool) -> NodeValue {
    NodeValue { id, is_end, goes: Map::empty(), eps: Seq::empty() }
}

/// `nodes` with two more states: one that does not accept, numbered `id`,
/// and one that accepts, numbered `id + 1`.
pub open spec fn v_pair(nodes: Seq<NodeValue>, id: int) -> Seq<NodeValue> {
    nodes.push(v_node(id, false)).push(v_node(id + 1, true))
}

/// `nodes` with one more transition without a symbol, from `from` to `to`.
pub open spec fn v_eps(nodes: Seq<NodeValue>, from: int, to: int) -> Seq<NodeValue> {
    nodes.update(
        from,
        NodeValue {
            id: nodes[from].id,
            is_end: nodes[from].is_end,
            goes: nodes[from].goes,
            eps: nodes[from].eps.push(to as usize),
        },
    )
}

/// `nodes` with `symbol` leading from `from` to `to`.
pub open spec fn v_goes(nodes: Seq<NodeValue>, from: int, symbol: char, to: int) -> Seq<
    NodeValue,
> {
    nodes.update(
        from,
        NodeValue {
            id: nodes[from].id,
            is_end: nodes[from].is_end,
            goes: nodes[from].goes.insert(symbol, to as usize),
            eps: nodes[from].eps,
        },
    )
}

/// `nodes` with the state `a` accepting or not, as `flag` says.
pub open spec fn v_end(nodes: Seq<NodeValue>, a: int, flag: bool) -> Seq<NodeValue> {
    nodes.update(
        a,
        NodeValue { id: nodes[a].id, is_end: flag, goes: nodes[a].goes, eps: nodes[a].eps },
    )
}

/// The fragment that accepts the empty input alone.
pub open spec fn spec_from_epsilon(nodes: Seq<NodeValue>, id: int) -> RegexValue {
    let n = nodes.len() as int;
    RegexValue { nodes: v_eps(v_pair(nodes, id), n, n + 1), start: n, end: n + 1 }
}

/// The fragment that accepts the one symbol alone.
pub open spec fn spec_from_symbol(nodes: Seq<NodeValue>, symbol: char, id: int) -> RegexValue {
    let n = nodes.len() as int;
    RegexValue { nodes: v_goes(v_pair(nodes, id), n, symbol, n + 1), start: n, end: n + 1 }
}

/// `nodes` with each of the first `k` symbols of `chars` leading from `from`
/// to `to`.
pub open spec fn v_class(nodes: Seq<NodeValue>, from: int, to: int, chars: Seq<char>, k: nat) -> Seq<
    NodeValue,
>
    decreases k,
{
    if k == 0 || k > chars.len() {
        nodes
    } else {
        v_goes(v_class(nodes, from, to, chars, (k - 1) as nat), from, chars[k - 1], to)
    }
}

/// The fragment that accepts any one of the symbols `chars`.
pub open spec fn spec_character_class(nodes: Seq<NodeValue>, chars: Seq<char>, id: int) -> RegexValue {
    let n = nodes.len() as int;
    RegexValue {
        nodes: v_class(v_pair(nodes, id), n, n + 1, chars, chars.len()),
        start: n,
        end: n + 1,
    }
}

/// The fragment `f` repeated any number of times: a new first and a new
/// last state; from the new first state and from the old last state the
/// automaton goes on to the new last state or to the old first state.
pub open spec fn spec_asterisk(nodes: Seq<NodeValue>, f: (int, int), id: int) -> RegexValue {
    let s = nodes.len() as int;
    let e = s + 1;
    let g0 = v_end(v_pair(nodes, id), f.1, false);
    let g1 = v_eps(g0, f.1, e);
    let g2 = v_eps(g1, f.1, f.0);
    let g3 = v_eps(g2, s, e);
    RegexValue { nodes: v_eps(g3, s, f.0), start: s, end: e }
}

/// The fragment `f` made optional: a new first and a new last state; the
/// new first state goes on to the new last state or to the old first state,
/// the old last state to the new last state.
pub open spec fn spec_question(nodes: Seq<NodeValue>, f: (int, int), id: int) -> RegexValue {
    let s = nodes.len() as int;
    let e = s + 1;
    let g0 = v_end(v_pair(nodes, id), f.1, false);
    let g1 = v_eps(g0, f.1, e);
    let g2 = v_eps(g1, s, e);
    RegexValue { nodes: v_eps(g2, s, f.0), start: s, end: e }
}

/// The fragment `f` repeated at least once: a new first and a new last
/// state; the new first state goes on to the old first state, the old last
/// state to the new last state or back to the old first state.
pub open spec fn spec_plus(nodes: Seq<NodeValue>, f: (int, int), id: int) -> RegexValue {
    let s = nodes.len() as int;
    let e = s + 1;
    let g0 = v_end(v_pair(nodes, id), f.1, false);
    let g1 = v_eps(g0, f.1, e);
    let g2 = v_eps(g1, f.1, f.0);
    RegexValue { nodes: v_eps(g2, s, f.0), start: s, end: e }
}

/// The fragment `first` followed by the fragment `second`.
pub open spec fn spec_concat(nodes: Seq<NodeValue>, first: (int, int), second: (int, int)) -> RegexValue {
    RegexValue {
        nodes: v_end(v_eps(nodes, first.1, second.0), first.1, false),
        start: first.0,
        end: second.1,
    }
}

/// The choice between the fragments `first` and `second`: a new first state
/// that goes on to either first state, and a new last state that either
/// last state goes on to.
pub open spec fn spec_union(
    nodes: Seq<NodeValue>,
    first: (int, int),
    second: (int, int),
    id: int,
) -> RegexValue {
    let s = nodes.len() as int;
    let e = s + 1;
    let g0 = v_eps(v_pair(nodes, id), s, first.0);
    let g1 = v_eps(g0, s, second.0);
    let g2 = v_end(v_eps(g1, first.1, e), first.1, false);
    RegexValue { nodes: v_end(v_eps(g2, second.1, e), second.1, false), start: s, end: e }
}

impl Regex {
    /// The states of the table, as values.
    pub open spec fn nodes(&self) -> Seq<NodeValue> {
        values(self.all_nodes@)
    }

    /// The table with its fragment, as a value.
    pub open spec fn value(&self) -> RegexValue {
        RegexValue { nodes: self.nodes(), start: self.start as int, end: self.end as int }
    }

    /// Whether every transition leads to a state of the table.
    pub open spec fn is_closed(&self) -> bool {
        closed(self.all_nodes@)
    }

    /// Whether the table is closed and the fragment picked out lies in it.
    pub open spec fn wf(&self) -> bool {
        &&& self.is_closed()
        &&& self.start < self.all_nodes@.len()
        &&& self.end < self.all_nodes@.len()
    }

    /// An empty table.
    pub fn empty() -> (r: Regex)
        ensures
            r.all_nodes@.len() == 0,
            r.start == 0,
            r.end == 0,
            r.is_closed(),
    {
        Regex { all_nodes: Vec::new(), start: 0, end: 0 }
    }

    /// Whether the table is closed and the fragment picked out lies in it.
    pub fn check(&self) -> (r: bool)
        ensures
            r == self.wf(),
    {
        let n: usize = self.all_nodes.len();
        if self.start >= n || self.end >= n {
            return false;
        }
        let mut a: usize = 0;
        while a < n
            invariant
                a <= n,
                n == self.all_nodes@.len(),
                forall|x: int| 0 <= x < a ==> node_closed(#[trigger] self.all_nodes@[x], n as nat),
            decreases n - a,
        {
            let node = &self.all_nodes[a];
            let mut i: usize = 0;
            while i < node.transition.len()
                invariant
                    i <= node.transition@.len(),
                    a < n,
                    n == self.all_nodes@.len(),
                    *node == self.all_nodes@[a as int],
                    forall|k: int| 0 <= k < i ==> (#[trigger] node.transition@[k]).1 < n,
                decreases node.transition.len() - i,
            {
                if node.transition[i].1 >= n {
                    assert(!node_closed(self.all_nodes@[a as int], n as nat));
                    return false;
                }
                i += 1;
            }
            let mut j: usize = 0;
            while j < node.epsilon_transitions.len()
                invariant
                    j <= node.epsilon_transitions@.len(),
                    a < n,
                    n == self.all_nodes@.len(),
                    *node == self.all_nodes@[a as int],
                    forall|k: int| 0 <= k < node.transition@.len() ==> (
                    #[trigger] node.transition@[k]).1 < n,
                    forall|k: int| 0 <= k < j ==> (#[trigger] node.epsilon_transitions@[k]) < n,
                decreases node.epsilon_transitions.len() - j,
            {
                if node.epsilon_transitions[j] >= n {
                    assert(!node_closed(self.all_nodes@[a as int], n as nat));
                    return false;
                }
                j += 1;
            }
            a += 1;
        }
        true
    }

    /// A copy of the states of the table.
    pub fn all_nodes(&self) -> (nodes: Vec<Node>)
        ensures
            values(nodes@) == self.nodes(),
            nodes@.len() == self.all_nodes@.len(),
            forall|k: int|
                0 <= k < nodes@.len() ==> {
                    &&& (#[trigger] nodes@[k]).id == self.all_nodes@[k].id
                    &&& nodes@[k].is_end == self.all_nodes@[k].is_end
                    &&& nodes@[k].transition@ == self.all_nodes@[k].transition@
                    &&& nodes@[k].epsilon_transitions@ == self.all_nodes@[k].epsilon_transitions@
                },
    {
        let mut nodes: Vec<Node> = Vec::new();
        let mut i: usize = 0;
        while i < self.all_nodes.len()
            invariant
                i <= self.all_nodes@.len(),
                nodes@.len() == i,
                forall|k: int| 0 <= k < i ==> (#[trigger] nodes@[k])@ == self.all_nodes@[k]@,
                forall|k: int|
                    0 <= k < i ==> {
                        &&& (#[trigger] nodes@[k]).id == self.all_nodes@[k].id
                        &&& nodes@[k].is_end == self.all_nodes@[k].is_end
                        &&& nodes@[k].transition@ == self.all_nodes@[k].transition@
                        &&& nodes@[k].epsilon_transitions@
                            == self.all_nodes@[k].epsilon_transitions@
                    },
            decreases self.all_nodes.len() - i,
        {
            nodes.push(self.all_nodes[i].copy());
            i += 1;
        }
        assert(values(nodes@) =~= self.nodes());
        nodes
    }

    /// The first state of the fragment made last.
    pub fn start(&self) -> (r: usize)
        ensures
            r == self.start,
    {
        self.start
    }

    /// The last state of the fragment made last.
    pub fn end(&self) -> (r: usize)
        ensures
            r == self.end,
    {
        self.end
    }

    /// Adds a transition without a symbol from `from` to `to`.
    pub fn add_epsilon_transition(&mut self, from: usize, to: usize)
        requires
            from < old(self).all_nodes@.len(),
        ensures
            final(self).nodes() == v_eps(old(self).nodes(), from as int, to as int),
            final(self).all_nodes@.len() == old(self).all_nodes@.len(),
            final(self).start == old(self).start,
            final(self).end == old(self).end,
            old(self).is_closed() && to < old(self).all_nodes@.len() ==> final(self).is_closed(),
    {
        self.all_nodes[from].epsilon_transitions.push(to);
        assert(self.nodes() =~= v_eps(old(self).nodes(), from as int, to as int));
    }

    /// Makes `symbol` lead from `from` to `to`, whatever it led to before.
    pub fn add_transition(&mut self, from: usize, to: usize, symbol: char)
        requires
            from < old(self).all_nodes@.len(),
        ensures
            final(self).nodes() == v_goes(old(self).nodes(), from as int, symbol, to as int),
            final(self).all_nodes@.len() == old(self).all_nodes@.len(),
            final(self).start == old(self).start,
            final(self).end == old(self).end,
            old(self).is_closed() && to < old(self).all_nodes@.len() ==> final(self).is_closed(),
    {
        self.all_nodes[from].set_target(symbol, to);
        assert(self.nodes() =~= v_goes(old(self).nodes(), from as int, symbol, to as int));
    }

    /// Makes the state `a` accepting or not, as `flag` says.
    pub fn set_end(&mut self, a: usize, flag: bool)
        requires
            a < old(self).all_nodes@.len(),
        ensures
            final(self).nodes() == v_end(old(self).nodes(), a as int, flag),
            final(self).all_nodes@.len() == old(self).all_nodes@.len(),
            final(self).start == old(self).start,
            final(self).end == old(self).end,
            old(self).is_closed() ==> final(self).is_closed(),
    {
        self.all_nodes[a].is_end = flag;
        assert(self.nodes() =~= v_end(old(self).nodes(), a as int, flag));
    }

    /// Adds a state that does not accept and one that does, numbered `id`
    /// and `id + 1`, and returns the place of the first.
    fn push_pair(&mut self, id: &mut i32) -> (pair: (usize, usize))
        requires
            *old(id) <= i32::MAX - 2,
        ensures
            pair.0 == old(self).all_nodes@.len(),
            pair.1 == old(self).all_nodes@.len() + 1,
            *final(id) == *old(id) + 2,
            final(self).nodes() == v_pair(old(self).nodes(), *old(id) as int),
            final(self).all_nodes@.len() == old(self).all_nodes@.len() + 2,
            final(self).start == old(self).start,
            final(self).end == old(self).end,
            old(self).is_closed() ==> final(self).is_closed(),
    {
        let n: usize = self.all_nodes.len();
        let start = Node::new(false, *id);
        *id += 1;
        let end = Node::new(true, *id);
        *id += 1;
        self.all_nodes.push(start);
        self.all_nodes.push(end);
        assert(self.nodes() =~= v_pair(old(self).nodes(), *old(id) as int));
        (n, self.all_nodes.len() - 1)
    }
}

impl Regex {
    /// Makes the fragment that accepts the empty input alone.
    pub fn from_epsilon(&mut self, id: &mut i32)
        requires
            *old(id) <= i32::MAX - 2,
        ensures
            *final(id) == *old(id) + 2,
            final(self).value() == spec_from_epsilon(old(self).nodes(), *old(id) as int),
            final(self).all_nodes@.len() == old(self).all_nodes@.len() + 2,
            old(self).is_closed() ==> final(self).wf(),
    {
        let (n, e) = self.push_pair(id);
        self.add_epsilon_transition(n, e);
        self.start = n;
        self.end = e;
    }

    /// Makes the fragment that accepts the one symbol alone.
    pub fn from_symbol(&mut self, symbol: char, id: &mut i32)
        requires
            *old(id) <= i32::MAX - 2,
        ensures
            *final(id) == *old(id) + 2,
            final(self).value() == spec_from_symbol(old(self).nodes(), symbol, *old(id) as int),
            final(self).all_nodes@.len() == old(self).all_nodes@.len() + 2,
            old(self).is_closed() ==> final(self).wf(),
    {
        let (n, e) = self.push_pair(id);
        self.add_transition(n, e, symbol);
        self.start = n;
        self.end = e;
    }

    /// Makes the fragment that accepts any one of the symbols of
    /// `characters`.
    pub fn character_class(&mut self, characters: String, id: &mut i32)
        requires
            *old(id) <= i32::MAX - 2,
        ensures
            *final(id) == *old(id) + 2,
            final(self).value() == spec_character_class(
                old(self).nodes(),
                characters@,
                *old(id) as int,
            ),
            final(self).all_nodes@.len() == old(self).all_nodes@.len() + 2,
            old(self).is_closed() ==> final(self).wf(),
    {
        let chars = str_to_chars(characters.as_str());
        let (n, e) = self.push_pair(id);
        let ghost g0 = self.nodes();
        let mut k: usize = 0;
        while k < chars.len()
            invariant
                k <= chars@.len(),
                chars@ == characters@,
                self.all_nodes@.len() == old(self).all_nodes@.len() + 2,
                n == old(self).all_nodes@.len(),
                e == n + 1,
                old(self).is_closed() ==> self.is_closed(),
                self.nodes() == v_class(g0, n as int, n + 1, chars@, k as nat),
            decreases chars.len() - k,
        {
            self.add_transition(n, e, chars[k]);
            k += 1;
        }
        self.start = n;
        self.end = e;
    }

    /// Makes the fragment `nfa` repeated any number of times.
    pub fn asterisk(&mut self, nfa: Fragment, id: &mut i32)
        requires
            *old(id) <= i32::MAX - 2,
            nfa.0 < old(self).all_nodes@.len(),
            nfa.1 < old(self).all_nodes@.len(),
        ensures
            *final(id) == *old(id) + 2,
            final(self).value() == spec_asterisk(
                old(self).nodes(),
                (nfa.0 as int, nfa.1 as int),
                *old(id) as int,
            ),
            final(self).all_nodes@.len() == old(self).all_nodes@.len() + 2,
            old(self).is_closed() ==> final(self).wf(),
    {
        let (s, e) = self.push_pair(id);
        self.set_end(nfa.1, false);
        self.add_epsilon_transition(nfa.1, e);
        self.add_epsilon_transition(nfa.1, nfa.0);
        self.add_epsilon_transition(s, e);
        self.add_epsilon_transition(s, nfa.0);
        self.start = s;
        self.end = e;
    }

    /// Makes the fragment `nfa` optional.
    pub fn question(&mut self, nfa: Fragment, id: &mut i32)
        requires
            *old(id) <= i32::MAX - 2,
            nfa.0 < old(self).all_nodes@.len(),
            nfa.1 < old(self).all_nodes@.len(),
        ensures
            *final(id) == *old(id) + 2,
            final(self).value() == spec_question(
                old(self).nodes(),
                (nfa.0 as int, nfa.1 as int),
                *old(id) as int,
            ),
            final(self).all_nodes@.len() == old(self).all_nodes@.len() + 2,
            old(self).is_closed() ==> final(self).wf(),
    {
        let (s, e) = self.push_pair(id);
        self.set_end(nfa.1, false);
        self.add_epsilon_transition(nfa.1, e);
        self.add_epsilon_transition(s, e);
        self.add_epsilon_transition(s, nfa.0);
        self.start = s;
        self.end = e;
    }

    /// Makes the fragment `nfa` repeated at least once.
    pub fn plus(&mut self, nfa: Fragment, id: &mut i32)
        requires
            *old(id) <= i32::MAX - 2,
            nfa.0 < old(self).all_nodes@.len(),
            nfa.1 < old(self).all_nodes@.len(),
        ensures
            *final(id) == *old(id) + 2,
            final(self).value() == spec_plus(
                old(self).nodes(),
                (nfa.0 as int, nfa.1 as int),
                *old(id) as int,
            ),
            final(self).all_nodes@.len() == old(self).all_nodes@.len() + 2,
            old(self).is_closed() ==> final(self).wf(),
    {
        let (s, e) = self.push_pair(id);
        self.set_end(nfa.1, false);
        self.add_epsilon_transition(nfa.1, e);
        self.add_epsilon_transition(nfa.1, nfa.0);
        self.add_epsilon_transition(s, nfa.0);
        self.start = s;
        self.end = e;
    }

    /// Makes the fragment `first` followed by the fragment `second`.
    pub fn concat(&mut self, first: Fragment, second: Fragment)
        requires
            first.1 < old(self).all_nodes@.len(),
        ensures
            final(self).value() == spec_concat(
                old(self).nodes(),
                (first.0 as int, first.1 as int),
                (second.0 as int, second.1 as int),
            ),
            final(self).all_nodes@.len() == old(self).all_nodes@.len(),
            old(self).is_closed() && first.0 < old(self).all_nodes@.len() && second.0 < old(
                self,
            ).all_nodes@.len() && second.1 < old(self).all_nodes@.len() ==> final(self).wf(),
    {
        self.add_epsilon_transition(first.1, second.0);
        self.set_end(first.1, false);
        self.start = first.0;
        self.end = second.1;
    }

    /// Makes the choice between the fragments `first` and `second`.
    pub fn union(&mut self, first: Fragment, second: Fragment, id: &mut i32)
        requires
            *old(id) <= i32::MAX - 2,
            first.1 < old(self).all_nodes@.len(),
            second.1 < old(self).all_nodes@.len(),
        ensures
            *final(id) == *old(id) + 2,
            final(self).value() == spec_union(
                old(self).nodes(),
                (first.0 as int, first.1 as int),
                (second.0 as int, second.1 as int),
                *old(id) as int,
            ),
            final(self).all_nodes@.len() == old(self).all_nodes@.len() + 2,
            old(self).is_closed() && first.0 < old(self).all_nodes@.len() && second.0 < old(
                self,
            ).all_nodes@.len() ==> final(self).wf(),
    {
        let (s, e) = self.push_pair(id);
        self.add_epsilon_transition(s, first.0);
        self.add_epsilon_transition(s, second.0);
        self.add_epsilon_transition(first.1, e);
        self.set_end(first.1, false);
        self.add_epsilon_transition(second.1, e);
        self.set_end(second.1, false);
        self.start = s;
        self.end = e;
    }

    /// How tightly an operator binds: the bar least, then the dot, then the
    /// star; anything else not at all.
    pub fn precedence(&mut self, operator: char) -> (r: i32)
        ensures
            r == spec_precedence(operator),
            *final(self) == *old(self),
    {
        if operator == '|' {
            1
        } else if operator == '.' {
            2
        } else if operator == '*' {
            3
        } else {
            0
        }
    }
}

/// How tightly an operator binds.
pub open spec fn spec_precedence(operator: char) -> int {
    if operator == '|' {
        1
    } else if operator == '.' {
        2
    } else if operator == '*' {
        3
    } else {
        0
    }
}

} // verus!
