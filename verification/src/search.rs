//! Searching the fragment automaton: the set of states that the input read
//! so far can have led to is followed symbol by symbol.

use crate::chars::str_to_chars;
use crate::epsilon::{lemma_reach_same, marked, marked_below};
use crate::graph::{adj_closed, adj_edge, node_set, reach, reach_from_set, reachable_from};
use crate::matcher::{marks_to_list, no_marks};
use crate::node::{lemma_table_get, node_closed, Node, NodeValue};
use crate::prune::lemma_single_source;
use crate::regex::{closed, values, Fragment, Regex};
use vstd::prelude::*;

verus! {

/// The relation "goes on to without reading a symbol" of a table of states.
pub open spec fn silent(nodes: Seq<NodeValue>) -> spec_fn(int, int) -> bool {
    |a: int, b: int| 0 <= a < nodes.len() && 0 <= b <= usize::MAX && nodes[a].eps.contains(b as usize)
}

/// Whether the state `b` goes nowhere without reading a symbol.
pub open spec fn is_leaf(nodes: Seq<NodeValue>, b: int) -> bool {
    0 <= b < nodes.len() && nodes[b].eps.len() == 0
}

/// The states at which the automaton comes to rest when it goes on from the
/// states `s` without reading a symbol: those that can be reached and go
/// nowhere further without a symbol.
pub open spec fn leaves(nodes: Seq<NodeValue>, s: Set<int>) -> Set<int> {
    Set::new(|b: int| is_leaf(nodes, b) && reach_from_set(silent(nodes), s, b))
}

/// The states that the symbol `c` leads to from a state of `s`.
pub open spec fn moved(nodes: Seq<NodeValue>, s: Set<int>, c: char) -> Set<int> {
    Set::new(
        |t: int|
            exists|a: int|
                s.contains(a) && 0 <= a < nodes.len() && nodes[a].goes.dom().contains(c)
                    && nodes[a].goes[c] == t,
    )
}

/// Whether some state of `s` accepts.
pub open spec fn ends(nodes: Seq<NodeValue>, s: Set<int>) -> bool {
    exists|a: int| s.contains(a) && 0 <= a < nodes.len() && nodes[a].is_end
}

/// Whether the automaton, resting in the states `s`, accepts the input `w`.
pub open spec fn frag_run(nodes: Seq<NodeValue>, s: Set<int>, w: Seq<char>) -> bool
    decreases w.len(),
{
    if w.len() == 0 {
        ends(nodes, s)
    } else {
        frag_run(nodes, leaves(nodes, moved(nodes, s, w[0])), w.drop_first())
    }
}

/// Whether the automaton accepts the input `w` from the state `start`.
pub open spec fn search_accepts(nodes: Seq<NodeValue>, start: int, w: Seq<char>) -> bool {
    frag_run(nodes, leaves(nodes, set![start]), w)
}

/// What a list holds once a value is added.
pub proof fn lemma_push_contains(s: Seq<usize>, v: usize, x: usize)
    ensures
        s.push(v).contains(x) == (s.contains(x) || x == v),
{
    if s.contains(x) {
        let i = choose|i: int| 0 <= i < s.len() && s[i] == x;
        assert(s.push(v)[i] == x);
    }
    if x == v {
        assert(s.push(v)[s.len() as int] == x);
    }
    if s.push(v).contains(x) {
        let i = choose|i: int| 0 <= i < s.push(v).len() && s.push(v)[i] == x;
        if i < s.len() {
            assert(s[i] == x);
        }
    }
}

/// Whether `x` occurs in `v`.
pub fn list_contains(v: &Vec<usize>, x: usize) -> (r: bool)
    ensures
        r == v@.contains(x),
{
    let mut i: usize = 0;
    while i < v.len()
        invariant
            i <= v@.len(),
            forall|k: int| 0 <= k < i ==> v@[k] != x,
        decreases v.len() - i,
    {
        if v[i] == x {
            return true;
        }
        i += 1;
    }
    false
}

impl Regex {
    /// For each state, the states that it goes on to without a symbol.
    pub fn eps_lists(&self) -> (adj: Vec<Vec<usize>>)
        requires
            self.is_closed(),
        ensures
            adj@.len() == self.all_nodes@.len(),
            adj_closed(adj@),
            forall|a: int| 0 <= a < adj@.len() ==> (#[trigger] adj@[a])@ == self.nodes()[a].eps,
            forall|x: int, y: int| #[trigger] adj_edge(adj@)(x, y) == silent(self.nodes())(x, y),
    {
        let mut adj: Vec<Vec<usize>> = Vec::new();
        let mut a: usize = 0;
        while a < self.all_nodes.len()
            invariant
                a <= self.all_nodes@.len(),
                self.is_closed(),
                adj@.len() == a,
                forall|x: int|
                    0 <= x < a ==> (#[trigger] adj@[x])@ == self.all_nodes@[x].epsilon_transitions@,
            decreases self.all_nodes.len() - a,
        {
            let src = &self.all_nodes[a].epsilon_transitions;
            let mut out: Vec<usize> = Vec::new();
            let mut j: usize = 0;
            while j < src.len()
                invariant
                    j <= src@.len(),
                    out@ == src@.subrange(0, j as int),
                decreases src.len() - j,
            {
                out.push(src[j]);
                assert(src@.subrange(0, j as int + 1) == src@.subrange(0, j as int).push(
                    src@[j as int],
                ));
                j += 1;
            }
            assert(src@.subrange(0, src@.len() as int) == src@);
            adj.push(out);
            a += 1;
        }
        proof {
            assert forall|x: int, j: int|
                0 <= x < adj@.len() && 0 <= j < adj@[x]@.len() implies (#[trigger] adj@[x]@[j])
                < adj@.len() by {
                assert(node_closed(self.all_nodes@[x], self.all_nodes@.len()));
                assert(adj@[x]@[j] == self.all_nodes@[x].epsilon_transitions@[j]);
            }
            assert forall|x: int, y: int| #[trigger] adj_edge(adj@)(x, y) == silent(self.nodes())(
                x,
                y,
            ) by {
                if 0 <= x < adj@.len() {
                    assert(adj@[x]@ == self.nodes()[x].eps);
                }
            }
        }
        adj
    }

    /// The states at which the automaton comes to rest when it goes on from
    /// the states `from` without reading a symbol, as a row of marks.
    pub fn leaf_marks(&self, adj: &Vec<Vec<usize>>, from: &Vec<usize>) -> (marks: Vec<bool>)
        requires
            self.is_closed(),
            adj@.len() == self.all_nodes@.len(),
            adj_closed(adj@),
            forall|x: int, y: int| #[trigger] adj_edge(adj@)(x, y) == silent(self.nodes())(x, y),
            forall|k: int| 0 <= k < from@.len() ==> from@[k] < self.all_nodes@.len(),
        ensures
            marks@.len() == self.all_nodes@.len(),
            marked(marks@) == leaves(self.nodes(), node_set(from@)),
    {
        let ghost nodes = self.nodes();
        let n: usize = self.all_nodes.len();
        let reached = reachable_from(adj, from);
        let mut marks: Vec<bool> = Vec::new();
        let mut b: usize = 0;
        while b < n
            invariant
                b <= n,
                n == self.all_nodes@.len(),
                nodes == self.nodes(),
                reached@.len() == n,
                marks@.len() == b,
                forall|x: int|
                    0 <= x < b ==> #[trigger] marks@[x] == (reached@[x] && is_leaf(nodes, x)),
            decreases n - b,
        {
            assert(nodes[b as int].eps == self.all_nodes@[b as int].epsilon_transitions@);
            marks.push(reached[b] && self.all_nodes[b].epsilon_transitions.len() == 0);
            b += 1;
        }
        proof {
            assert forall|x: int| marked(marks@).contains(x) <==> leaves(
                nodes,
                node_set(from@),
            ).contains(x) by {
                if 0 <= x < n {
                    if reached@[x] {
                        let a = choose|a: int|
                            node_set(from@).contains(a) && reach(adj_edge(adj@), a, x);
                        lemma_reach_same(adj_edge(adj@), silent(nodes), a, x);
                    }
                    if reach_from_set(silent(nodes), node_set(from@), x) {
                        let a = choose|a: int|
                            node_set(from@).contains(a) && reach(silent(nodes), a, x);
                        lemma_reach_same(adj_edge(adj@), silent(nodes), a, x);
                        assert(reach_from_set(adj_edge(adj@), node_set(from@), x));
                    }
                }
            }
            assert(marked(marks@) =~= leaves(nodes, node_set(from@)));
        }
        marks
    }

    /// The states that the symbol `c` leads to from a marked state, as a row
    /// of marks.
    pub fn move_marks(&self, cur: &Vec<bool>, c: char) -> (next: Vec<bool>)
        requires
            self.is_closed(),
            cur@.len() == self.all_nodes@.len(),
        ensures
            next@.len() == self.all_nodes@.len(),
            marked(next@) == moved(self.nodes(), marked(cur@), c),
    {
        let ghost nodes = self.nodes();
        let n: usize = self.all_nodes.len();
        let mut next = no_marks(n);
        let mut a: usize = 0;
        assert(marked(next@) =~= moved(nodes, marked_below(cur@, 0), c));
        while a < n
            invariant
                a <= n,
                n == self.all_nodes@.len(),
                self.is_closed(),
                nodes == self.nodes(),
                cur@.len() == n,
                next@.len() == n,
                marked(next@) == moved(nodes, marked_below(cur@, a as int), c),
            decreases n - a,
        {
            let ghost lo = marked_below(cur@, a as int);
            let ghost hi = marked_below(cur@, a as int + 1);
            let ghost prev = next@;
            let mut hit: Option<usize> = None;
            if cur[a] {
                hit = self.all_nodes[a].target(c);
                match hit {
                    Some(t) => {
                        proof {
                            lemma_table_get(self.all_nodes@[a as int].transition@, c);
                            assert(node_closed(self.all_nodes@[a as int], n as nat));
                        }
                        next.set(t, true);
                    },
                    None => {},
                }
            }
            proof {
                assert forall|t: int| marked(next@).contains(t) <==> moved(nodes, hi, c).contains(
                    t,
                ) by {
                    let was = marked(prev).contains(t);
                    assert(was == moved(nodes, lo, c).contains(t));
                    let now_hit = cur@[a as int] && hit == Some(t as usize) && 0 <= t
                        <= usize::MAX;
                    assert(marked(next@).contains(t) == (was || now_hit)) by {
                        if cur@[a as int] && hit.is_some() {
                            assert(next@ == prev.update(hit.unwrap() as int, true));
                        } else {
                            assert(next@ == prev);
                        }
                    }
                    if moved(nodes, hi, c).contains(t) {
                        let x = choose|x: int|
                            hi.contains(x) && 0 <= x < nodes.len() && nodes[x].goes.dom().contains(
                                c,
                            ) && nodes[x].goes[c] == t;
                        if x < a {
                            assert(lo.contains(x));
                            assert(moved(nodes, lo, c).contains(t));
                        } else {
                            assert(x == a);
                            assert(now_hit);
                        }
                    }
                    if was {
                        let x = choose|x: int|
                            lo.contains(x) && 0 <= x < nodes.len() && nodes[x].goes.dom().contains(
                                c,
                            ) && nodes[x].goes[c] == t;
                        assert(hi.contains(x));
                    }
                    if now_hit {
                        assert(hi.contains(a as int));
                        assert(nodes[a as int].goes.dom().contains(c));
                        assert(nodes[a as int].goes[c] == t);
                    }
                }
                assert(marked(next@) =~= moved(nodes, hi, c));
            }
            a += 1;
        }
        assert(marked_below(cur@, n as int) =~= marked(cur@));
        next
    }

    /// Whether some marked state accepts.
    pub fn any_end(&self, marks: &Vec<bool>) -> (r: bool)
        requires
            marks@.len() == self.all_nodes@.len(),
        ensures
            r == ends(self.nodes(), marked(marks@)),
    {
        let ghost nodes = self.nodes();
        let mut a: usize = 0;
        while a < self.all_nodes.len()
            invariant
                a <= self.all_nodes@.len(),
                marks@.len() == self.all_nodes@.len(),
                nodes == self.nodes(),
                forall|x: int| 0 <= x < a ==> !(marks@[x] && nodes[x].is_end),
            decreases self.all_nodes.len() - a,
        {
            if marks[a] && self.all_nodes[a].is_end {
                assert(marked(marks@).contains(a as int) && nodes[a as int].is_end);
                return true;
            }
            a += 1;
        }
        false
    }

    /// Whether the automaton accepts `word` from the first state of the
    /// fragment `nfa`. Before the first symbol and after each symbol the
    /// automaton goes on without a symbol as far as it can; a state that
    /// goes on without a symbol is passed through, never rested in.
    pub fn search(&mut self, nfa: Fragment, word: String) -> (r: bool)
        requires
            old(self).is_closed(),
            nfa.0 < old(self).all_nodes@.len(),
        ensures
            *final(self) == *old(self),
            r == search_accepts(old(self).nodes(), nfa.0 as int, word@),
    {
        let ghost nodes = self.nodes();
        let w = str_to_chars(word.as_str());
        let adj = self.eps_lists();
        let mut from: Vec<usize> = Vec::new();
        from.push(nfa.0);
        proof {
            lemma_single_source(from@, nfa.0);
        }
        let mut cur = self.leaf_marks(&adj, &from);
        let mut i: usize = 0;
        assert(w@.subrange(0, w@.len() as int) == w@);
        while i < w.len()
            invariant
                i <= w@.len(),
                *self == *old(self),
                self.is_closed(),
                nodes == self.nodes(),
                adj@.len() == self.all_nodes@.len(),
                adj_closed(adj@),
                forall|x: int, y: int| #[trigger] adj_edge(adj@)(x, y) == silent(nodes)(x, y),
                cur@.len() == self.all_nodes@.len(),
                search_accepts(nodes, nfa.0 as int, w@) == frag_run(
                    nodes,
                    marked(cur@),
                    w@.subrange(i as int, w@.len() as int),
                ),
            decreases w.len() - i,
        {
            let ghost rest = w@.subrange(i as int, w@.len() as int);
            assert(rest.drop_first() == w@.subrange(i as int + 1, w@.len() as int));
            assert(rest[0] == w@[i as int]);
            let next = self.move_marks(&cur, w[i]);
            let list = marks_to_list(&next);
            cur = self.leaf_marks(&adj, &list);
            i += 1;
        }
        self.any_end(&cur)
    }
}

/// The relation "goes on to without a symbol" cut down to the targets that
/// have not been visited.
pub open spec fn fresh(nodes: Seq<NodeValue>, visited: Seq<usize>) -> spec_fn(int, int) -> bool {
    |a: int, b: int| silent(nodes)(a, b) && !visited.contains(b as usize)
}

impl Regex {
    /// For each state, the states not in `visited` that it goes on to
    /// without a symbol.
    pub fn fresh_lists(&self, visited: &Vec<usize>) -> (adj: Vec<Vec<usize>>)
        requires
            self.is_closed(),
        ensures
            adj@.len() == self.all_nodes@.len(),
            adj_closed(adj@),
            forall|x: int, y: int|
                #[trigger] adj_edge(adj@)(x, y) == fresh(self.nodes(), visited@)(x, y),
    {
        let ghost nodes = self.nodes();
        let mut adj: Vec<Vec<usize>> = Vec::new();
        let mut a: usize = 0;
        while a < self.all_nodes.len()
            invariant
                a <= self.all_nodes@.len(),
                self.is_closed(),
                nodes == self.nodes(),
                adj@.len() == a,
                forall|x: int, j: int|
                    0 <= x < a && 0 <= j < adj@[x]@.len() ==> (#[trigger] adj@[x]@[j])
                        < self.all_nodes@.len(),
                forall|x: int, b: usize|
                    0 <= x < a ==> (#[trigger] adj@[x]@.contains(b) <==> nodes[x].eps.contains(b)
                        && !visited@.contains(b)),
            decreases self.all_nodes.len() - a,
        {
            let src = &self.all_nodes[a].epsilon_transitions;
            assert(node_closed(self.all_nodes@[a as int], self.all_nodes@.len()));
            assert(nodes[a as int].eps == src@);
            let mut out: Vec<usize> = Vec::new();
            let mut j: usize = 0;
            while j < src.len()
                invariant
                    j <= src@.len(),
                    forall|i: int| 0 <= i < src@.len() ==> (#[trigger] src@[i])
                        < self.all_nodes@.len(),
                    forall|i: int| 0 <= i < out@.len() ==> (#[trigger] out@[i])
                        < self.all_nodes@.len(),
                    forall|b: usize|
                        out@.contains(b) <==> !visited@.contains(b) && exists|i: int|
                            0 <= i < j && src@[i] == b,
                decreases src.len() - j,
            {
                let t: usize = src[j];
                let ghost before = out@;
                if !list_contains(visited, t) {
                    out.push(t);
                }
                assert forall|b: usize|
                    out@.contains(b) <==> !visited@.contains(b) && exists|i: int|
                        0 <= i < j + 1 && src@[i] == b by {
                    if out@ != before {
                        lemma_push_contains(before, t, b);
                    }
                    if before.contains(b) {
                        let i = choose|i: int| 0 <= i < j && src@[i] == b;
                        assert(0 <= i < j + 1 && src@[i] == b);
                    }
                    if exists|i: int| 0 <= i < j + 1 && src@[i] == b {
                        let i = choose|i: int| 0 <= i < j + 1 && src@[i] == b;
                        if i < j {
                            assert(exists|i: int| 0 <= i < j && src@[i] == b);
                        }
                    }
                }
                j += 1;
            }
            proof {
                assert forall|b: usize| #[trigger] out@.contains(b) <==> src@.contains(b)
                    && !visited@.contains(b) by {
                    if out@.contains(b) {
                        let i = choose|i: int| 0 <= i < src@.len() && src@[i] == b;
                        assert(src@[i] == b);
                    }
                    if src@.contains(b) {
                        let i = choose|i: int| 0 <= i < src@.len() && src@[i] == b;
                        assert(0 <= i < j && src@[i] == b);
                    }
                }
            }
            adj.push(out);
            a += 1;
        }
        assert forall|x: int, y: int| #[trigger] adj_edge(adj@)(x, y) == fresh(nodes, visited@)(
            x,
            y,
        ) by {
            if 0 <= x < adj@.len() && 0 <= y <= usize::MAX {
                let yu = y as usize;
                assert(adj@[x]@.contains(yu) <==> nodes[x].eps.contains(yu) && !visited@.contains(
                    yu,
                ));
            }
        }
        adj
    }

    /// Goes on from `state` without reading a symbol, not entering a state
    /// that is in `visited` already. Each state at which the automaton comes
    /// to rest is added to `next_states`, and each state entered on the way
    /// to `visited`.
    pub fn add_next_state(
        &mut self,
        state: usize,
        next_states: &mut Vec<usize>,
        visited: &mut Vec<usize>,
    )
        requires
            old(self).is_closed(),
            state < old(self).all_nodes@.len(),
        ensures
            *final(self) == *old(self),
            forall|b: usize|
                #[trigger] final(next_states)@.contains(b) <==> (old(next_states)@.contains(b)
                    || rests_at(old(self).nodes(), old(visited)@, state as int, b)),
            forall|b: usize|
                #[trigger] final(visited)@.contains(b) <==> (old(visited)@.contains(b) || enters(
                    old(self).nodes(),
                    old(visited)@,
                    state as int,
                    b,
                )),
    {
        let ghost nodes = self.nodes();
        let ghost seen = visited@;
        let ghost rel = fresh(nodes, seen);
        let n: usize = self.all_nodes.len();
        let adj = self.fresh_lists(visited);
        let mut from: Vec<usize> = Vec::new();
        from.push(state);
        let reached = reachable_from(&adj, &from);
        proof {
            lemma_single_source(from@, state);
            assert forall|b: int| 0 <= b < n implies reached@[b] == reach(rel, state as int, b) by {
                lemma_reach_same(adj_edge(adj@), rel, state as int, b);
                if reached@[b] {
                    let a = choose|a: int|
                        node_set(from@).contains(a) && reach(adj_edge(adj@), a, b);
                    assert(a == state);
                }
                if reach(rel, state as int, b) {
                    assert(node_set(from@).contains(state as int));
                    assert(reach_from_set(adj_edge(adj@), node_set(from@), b));
                }
            }
            assert forall|b: int| reach(rel, state as int, b) implies 0 <= b < n by {
                lemma_fresh_in_range(nodes, seen, state as int, b, self.all_nodes@);
            }
        }
        let mut b: usize = 0;
        while b < n
            invariant
                b <= n,
                n == self.all_nodes@.len(),
                *self == *old(self),
                nodes == self.nodes(),
                reached@.len() == n,
                forall|x: usize|
                    #[trigger] next_states@.contains(x) <==> (old(next_states)@.contains(x)
                        || leaf_below(nodes, reached@, x, b as int)),
            decreases n - b,
        {
            assert(nodes[b as int].eps == self.all_nodes@[b as int].epsilon_transitions@);
            let ghost before = next_states@;
            let rest: bool = reached[b] && self.all_nodes[b].epsilon_transitions.len() == 0;
            if rest {
                next_states.push(b);
            }
            assert forall|x: usize| #[trigger] next_states@.contains(x) <==> (old(
                next_states,
            )@.contains(x) || leaf_below(nodes, reached@, x, b as int + 1)) by {
                assert(before.contains(x) <==> (old(next_states)@.contains(x) || leaf_below(
                    nodes,
                    reached@,
                    x,
                    b as int,
                )));
                if rest {
                    lemma_push_contains(before, b, x);
                }
                assert(leaf_below(nodes, reached@, x, b as int + 1) == (leaf_below(
                    nodes,
                    reached@,
                    x,
                    b as int,
                ) || (rest && x == b)));
            }
            b += 1;
        }
        let mut a: usize = 0;
        assert forall|x: usize| !entered_below(nodes, reached@, x, 0) by {}
        while a < n
            invariant
                a <= n,
                n == self.all_nodes@.len(),
                *self == *old(self),
                self.is_closed(),
                nodes == self.nodes(),
                reached@.len() == n,
                forall|x: usize|
                    #[trigger] visited@.contains(x) <==> (seen.contains(x) || entered_below(
                        nodes,
                        reached@,
                        x,
                        a as int,
                    )),
            decreases n - a,
        {
            let src = &self.all_nodes[a].epsilon_transitions;
            assert(nodes[a as int].eps == src@);
            if reached[a] {
                let mut j: usize = 0;
                assert forall|x: usize| !among(src@, x, 0) by {}
                while j < src.len()
                    invariant
                        j <= src@.len(),
                        forall|x: usize|
                            #[trigger] visited@.contains(x) <==> (seen.contains(x) || entered_below(
                                nodes,
                                reached@,
                                x,
                                a as int,
                            ) || among(src@, x, j as int)),
                    decreases src.len() - j,
                {
                    let t: usize = src[j];
                    let ghost before = visited@;
                    let is_new: bool = !list_contains(visited, t);
                    if is_new {
                        visited.push(t);
                    }
                    assert forall|x: usize| #[trigger] visited@.contains(x) <==> (seen.contains(x)
                        || entered_below(nodes, reached@, x, a as int) || among(
                        src@,
                        x,
                        j as int + 1,
                    )) by {
                        assert(before.contains(x) <==> (seen.contains(x) || entered_below(
                            nodes,
                            reached@,
                            x,
                            a as int,
                        ) || among(src@, x, j as int)));
                        if is_new {
                            lemma_push_contains(before, t, x);
                        }
                        lemma_among_step(src@, x, j as int);
                    }
                    j += 1;
                }
            }
            proof {
                assert forall|x: usize| #[trigger] visited@.contains(x) <==> (seen.contains(x)
                    || entered_below(nodes, reached@, x, a as int + 1)) by {
                    lemma_entered_step(nodes, reached@, x, a as int);
                    if reached@[a as int] {
                        assert(among(src@, x, src@.len() as int) == src@.contains(x)) by {
                            if src@.contains(x) {
                                let i = choose|i: int| 0 <= i < src@.len() && src@[i] == x;
                                assert(0 <= i < src@.len() && src@[i] == x);
                            }
                        }
                    }
                }
            }
            a += 1;
        }
        proof {
            assert forall|x: usize| #[trigger] next_states@.contains(x) <==> (old(
                next_states,
            )@.contains(x) || rests_at(nodes, seen, state as int, x)) by {
                if rests_at(nodes, seen, state as int, x) {
                    assert(reached@[x as int]);
                }
            }
            assert forall|x: usize| #[trigger] visited@.contains(x) <==> (seen.contains(x)
                || enters(nodes, seen, state as int, x)) by {
                if entered_below(nodes, reached@, x, n as int) {
                    let y = choose|y: int| 0 <= y < n && reached@[y] && nodes[y].eps.contains(x);
                    assert(reach(rel, state as int, y) && silent(nodes)(y, x as int));
                }
                if enters(nodes, seen, state as int, x) {
                    let y = choose|y: int|
                        reach(fresh(nodes, seen), state as int, y) && silent(nodes)(y, x as int);
                    assert(0 <= y < n && reached@[y] && nodes[y].eps.contains(x));
                }
            }
        }
    }
}

/// Whether the automaton, going on from `state` without a symbol and not
/// entering a state of `seen`, comes to rest at the state `b`.
pub open spec fn rests_at(nodes: Seq<NodeValue>, seen: Seq<usize>, state: int, b: usize) -> bool {
    is_leaf(nodes, b as int) && reach(fresh(nodes, seen), state, b as int)
}

/// Whether the automaton, going on from `state` without a symbol and not
/// entering a state of `seen`, comes to a state that goes on to `b`.
pub open spec fn enters(nodes: Seq<NodeValue>, seen: Seq<usize>, state: int, b: usize) -> bool {
    exists|a: int| reach(fresh(nodes, seen), state, a) && silent(nodes)(a, b as int)
}

/// Whether `x` is a marked state below `b` that goes nowhere without a
/// symbol.
pub open spec fn leaf_below(nodes: Seq<NodeValue>, reached: Seq<bool>, x: usize, b: int) -> bool {
    x < b && reached[x as int] && is_leaf(nodes, x as int)
}

/// Whether a marked state below `a` goes on to `x` without a symbol.
pub open spec fn entered_below(nodes: Seq<NodeValue>, reached: Seq<bool>, x: usize, a: int) -> bool {
    exists|y: int| 0 <= y < a && reached[y] && nodes[y].eps.contains(x)
}

/// Whether `x` is among the first `j` entries of `src`.
pub open spec fn among(src: Seq<usize>, x: usize, j: int) -> bool {
    exists|i: int| 0 <= i < j && src[i] == x
}

/// What is among one entry more.
pub proof fn lemma_among_step(src: Seq<usize>, x: usize, j: int)
    requires
        0 <= j < src.len(),
    ensures
        among(src, x, j + 1) == (among(src, x, j) || src[j] == x),
{
    if among(src, x, j + 1) {
        let i = choose|i: int| 0 <= i < j + 1 && src[i] == x;
        if i < j {
            assert(among(src, x, j));
        }
    }
    if among(src, x, j) {
        let i = choose|i: int| 0 <= i < j && src[i] == x;
        assert(0 <= i < j + 1 && src[i] == x);
    }
    if src[j] == x {
        assert(0 <= j < j + 1 && src[j] == x);
    }
}

/// What is entered from one state more.
pub proof fn lemma_entered_step(nodes: Seq<NodeValue>, reached: Seq<bool>, x: usize, a: int)
    requires
        0 <= a < nodes.len(),
        a < reached.len(),
    ensures
        entered_below(nodes, reached, x, a + 1) == (entered_below(nodes, reached, x, a) || (
        reached[a] && nodes[a].eps.contains(x))),
{
    if entered_below(nodes, reached, x, a + 1) {
        let y = choose|y: int| 0 <= y < a + 1 && reached[y] && nodes[y].eps.contains(x);
        if y < a {
            assert(entered_below(nodes, reached, x, a));
        }
    }
    if entered_below(nodes, reached, x, a) {
        let y = choose|y: int| 0 <= y < a && reached[y] && nodes[y].eps.contains(x);
        assert(0 <= y < a + 1 && reached[y] && nodes[y].eps.contains(x));
    }
    if reached[a] && nodes[a].eps.contains(x) {
        assert(0 <= a < a + 1 && reached[a] && nodes[a].eps.contains(x));
    }
}

/// Going on without a symbol from a state of a closed table leads to states
/// of the table.
pub proof fn lemma_fresh_in_range(
    nodes: Seq<NodeValue>,
    seen: Seq<usize>,
    a: int,
    b: int,
    raw: Seq<Node>,
)
    requires
        nodes == values(raw),
        closed(raw),
        0 <= a < nodes.len(),
        reach(fresh(nodes, seen), a, b),
    ensures
        0 <= b < nodes.len(),
{
    let rel = fresh(nodes, seen);
    let n = choose|n: nat| crate::graph::reach_in(rel, a, b, n);
    let inside = |x: int| 0 <= x < nodes.len();
    assert forall|x: int, y: int| inside(x) && #[trigger] rel(x, y) implies inside(y) by {
        assert(node_closed(raw[x], raw.len()));
        let j = choose|j: int| 0 <= j < nodes[x].eps.len() && nodes[x].eps[j] == y as usize;
        assert(raw[x].epsilon_transitions@[j] < raw.len());
    }
    crate::graph::lemma_closed_holds_reach(rel, inside, a, b, n);
}

} // verus!
