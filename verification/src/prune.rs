//! Pruning a deterministic automaton: states that cannot be reached, and
//! states from which nothing is accepted, are removed.

use crate::class::EPSILON;
use crate::dfa::{next_state, no_node, slot_view, walk, DfaNode, DFA};
use crate::epsilon::{lemma_reach_same, marked};
use crate::graph::{
    adj_closed,
    adj_edge,
    lemma_reach_extend,
    lemma_reach_in_mono,
    lemma_reach_self,
    lemma_reach_trans,
    node_set,
    reach,
    reach_from_set,
    reach_in,
    reachable_from,
    unmarked_lists,
};
use crate::matcher::no_marks;
use crate::language::{deterministic, eps_free};
use crate::nfa::{has_edge, Id, NodeModel};
use vstd::prelude::*;

verus! {

/// The relation "has an edge to" of an automaton, whatever the label.
pub open spec fn any_edge(g: Seq<NodeModel>) -> spec_fn(int, int) -> bool {
    |a: int, b: int| exists|c: char| has_edge(g, a, c, b)
}

/// Whether the state `b` can be reached from the start state.
pub open spec fn reachable(g: Seq<NodeModel>, b: int) -> bool {
    reach(any_edge(g), 0, b)
}

/// The automaton with every state that cannot be reached from the start
/// state removed.
pub open spec fn purged(g: Seq<NodeModel>) -> Seq<NodeModel> {
    Seq::new(
        g.len(),
        |i: int|
            if reachable(g, i) {
                g[i]
            } else {
                no_node()
            },
    )
}

/// Whether some accepting state can be reached from the state `a`.
pub open spec fn live(g: Seq<NodeModel>, a: int) -> bool {
    exists|t: int| reach(any_edge(g), a, t) && 0 <= t < g.len() && g[t].is_terminal
}

/// The edges of the state `a` that lead to a live state.
pub open spec fn live_paths(g: Seq<NodeModel>, a: int) -> Set<(char, usize)> {
    Set::new(|p: (char, usize)| g[a].paths.contains(p) && live(g, p.1 as int))
}

/// The automaton with every state from which nothing is accepted removed,
/// along with the edges that led to such a state.
pub open spec fn cleaned(g: Seq<NodeModel>) -> Seq<NodeModel> {
    Seq::new(
        g.len(),
        |i: int|
            if live(g, i) {
                NodeModel { is_terminal: g[i].is_terminal, paths: live_paths(g, i) }
            } else {
                no_node()
            },
    )
}

/// What can be reached in the purged automaton is what could be reached.
pub proof fn lemma_purged_reach(g: Seq<NodeModel>, b: int, n: nat)
    requires
        reach_in(any_edge(g), 0, b, n),
    ensures
        reach(any_edge(purged(g)), 0, b),
    decreases n,
{
    let h = purged(g);
    if n == 0 {
        lemma_reach_self(any_edge(h), 0);
    } else if reach_in(any_edge(g), 0, b, (n - 1) as nat) {
        lemma_purged_reach(g, b, (n - 1) as nat);
    } else {
        let m = choose|m: int|
            reach_in(any_edge(g), 0, m, (n - 1) as nat) && #[trigger] any_edge(g)(m, b);
        lemma_purged_reach(g, m, (n - 1) as nat);
        assert(reachable(g, m));
        let c = choose|c: char| has_edge(g, m, c, b);
        assert(h[m] == g[m]);
        assert(has_edge(h, m, c, b));
        assert(any_edge(h)(m, b));
        lemma_reach_extend(any_edge(h), 0, m, b);
    }
}

/// The purged automaton has no edge that the automaton had not.
pub proof fn lemma_purged_edges(g: Seq<NodeModel>)
    ensures
        forall|x: int, y: int| #[trigger] any_edge(purged(g))(x, y) ==> any_edge(g)(x, y),
{
    let h = purged(g);
    assert forall|x: int, y: int| #[trigger] any_edge(h)(x, y) implies any_edge(g)(x, y) by {
        let c = choose|c: char| has_edge(h, x, c, y);
        assert(has_edge(g, x, c, y));
    }
}

/// Purging keeps what can be reached.
pub proof fn lemma_purged_reachable(g: Seq<NodeModel>, b: int)
    ensures
        reachable(purged(g), b) == reachable(g, b),
{
    let h = purged(g);
    if reachable(g, b) {
        let n = choose|n: nat| reach_in(any_edge(g), 0, b, n);
        lemma_purged_reach(g, b, n);
    }
    if reachable(h, b) {
        let n = choose|n: nat| reach_in(any_edge(h), 0, b, n);
        lemma_purged_edges(g);
        lemma_reach_in_mono(any_edge(h), any_edge(g), 0, b, n);
    }
}

/// Purging an automaton that has been purged changes nothing.
pub proof fn lemma_purge_idempotent(g: Seq<NodeModel>)
    ensures
        purged(purged(g)) == purged(g),
{
    let h = purged(g);
    assert forall|i: int| 0 <= i < g.len() implies purged(h)[i] == h[i] by {
        lemma_purged_reachable(g, i);
    }
    assert(purged(h) =~= h);
}

/// From a state that can be reached, the purged automaton accepts what the
/// automaton itself accepted.
pub proof fn lemma_purge_walk(g: Seq<NodeModel>, k: int, w: Seq<char>)
    requires
        deterministic(g),
        reachable(g, k),
    ensures
        walk(purged(g), k, w) == walk(g, k, w),
    decreases w.len(),
{
    let h = purged(g);
    if w.len() == 0 {
    } else {
        let c = w[0];
        if 0 <= k < g.len() {
            assert(h[k] == g[k]);
        }
        assert forall|t: int| has_edge(h, k, c, t) == has_edge(g, k, c, t) by {}
        if c != EPSILON && exists|t: int| has_edge(g, k, c, t) {
            let t = next_state(g, k, c);
            let t2 = next_state(h, k, c);
            assert(has_edge(h, k, c, t));
            assert(has_edge(g, k, c, t2));
            assert(g[k].paths.contains((c, t as usize)) && g[k].paths.contains((c, t2 as usize)));
            assert(t == t2);
            assert(any_edge(g)(k, t));
            lemma_reach_extend(any_edge(g), 0, k, t);
            lemma_purge_walk(g, t, w.drop_first());
        }
    }
}

/// An edge can be put before a path.
pub proof fn lemma_reach_prepend(edge: spec_fn(int, int) -> bool, a: int, m: int, b: int)
    requires
        edge(a, m),
        reach(edge, m, b),
    ensures
        reach(edge, a, b),
{
    lemma_reach_self(edge, a);
    lemma_reach_extend(edge, a, a, m);
    lemma_reach_trans(edge, a, m, b);
}

/// A path along the edges turned round leads back along the edges.
pub proof fn lemma_reach_reverse_in(
    edge: spec_fn(int, int) -> bool,
    back: spec_fn(int, int) -> bool,
    a: int,
    b: int,
    n: nat,
)
    requires
        forall|x: int, y: int| #[trigger] back(x, y) ==> edge(y, x),
        reach_in(back, a, b, n),
    ensures
        reach(edge, b, a),
    decreases n,
{
    if n == 0 {
        lemma_reach_self(edge, a);
    } else if reach_in(back, a, b, (n - 1) as nat) {
        lemma_reach_reverse_in(edge, back, a, b, (n - 1) as nat);
    } else {
        let m = choose|m: int| reach_in(back, a, m, (n - 1) as nat) && #[trigger] back(m, b);
        lemma_reach_reverse_in(edge, back, a, m, (n - 1) as nat);
        assert(edge(b, m));
        lemma_reach_prepend(edge, b, m, a);
    }
}

/// The edges turned round reach what reaches along the edges.
pub proof fn lemma_reach_reverse(
    edge: spec_fn(int, int) -> bool,
    back: spec_fn(int, int) -> bool,
    a: int,
    b: int,
)
    requires
        forall|x: int, y: int| #[trigger] back(x, y) == edge(y, x),
    ensures
        reach(back, a, b) == reach(edge, b, a),
{
    if reach(back, a, b) {
        let n = choose|n: nat| reach_in(back, a, b, n);
        lemma_reach_reverse_in(edge, back, a, b, n);
    }
    if reach(edge, b, a) {
        let n = choose|n: nat| reach_in(edge, b, a, n);
        assert forall|x: int, y: int| #[trigger] edge(x, y) implies back(y, x) by {
            assert(back(y, x) == edge(x, y));
        }
        lemma_reach_reverse_in(back, edge, b, a, n);
    }
}

/// A state with an edge to a live state is live.
pub proof fn lemma_live_back(g: Seq<NodeModel>, a: int, b: int)
    requires
        any_edge(g)(a, b),
        live(g, b),
    ensures
        live(g, a),
{
    let t = choose|t: int| reach(any_edge(g), b, t) && 0 <= t < g.len() && g[t].is_terminal;
    lemma_reach_prepend(any_edge(g), a, b, t);
}

/// From a state that is not live nothing is accepted.
pub proof fn lemma_dead_rejects(g: Seq<NodeModel>, k: int, w: Seq<char>)
    requires
        !live(g, k),
    ensures
        !walk(g, k, w),
    decreases w.len(),
{
    if w.len() == 0 {
        if 0 <= k < g.len() && g[k].is_terminal {
            lemma_reach_self(any_edge(g), k);
        }
    } else if w[0] != EPSILON && exists|t: int| has_edge(g, k, w[0], t) {
        let t = next_state(g, k, w[0]);
        assert(any_edge(g)(k, t));
        if live(g, t) {
            lemma_live_back(g, k, t);
        }
        lemma_dead_rejects(g, t, w.drop_first());
    }
}

/// The cleaned automaton accepts from each state what the automaton did.
pub proof fn lemma_clean_walk(g: Seq<NodeModel>, k: int, w: Seq<char>)
    requires
        deterministic(g),
    ensures
        walk(cleaned(g), k, w) == walk(g, k, w),
    decreases w.len(),
{
    let h = cleaned(g);
    if !live(g, k) {
        lemma_dead_rejects(g, k, w);
        if 0 <= k < g.len() {
            assert(h[k] == no_node());
        }
        if w.len() > 0 {
            assert forall|t: int| !has_edge(h, k, w[0], t) by {}
        }
    } else if w.len() == 0 {
    } else {
        let c = w[0];
        let rest = w.drop_first();
        if c != EPSILON && exists|t: int| has_edge(g, k, c, t) {
            let t = next_state(g, k, c);
            assert(g[k].paths.contains((c, t as usize)));
            if live(g, t) {
                assert(h[k].paths.contains((c, t as usize)));
                assert(has_edge(h, k, c, t));
                let t2 = next_state(h, k, c);
                assert(has_edge(h, k, c, t2));
                assert(g[k].paths.contains((c, t2 as usize)));
                assert(t2 == t);
                lemma_clean_walk(g, t, rest);
            } else {
                lemma_dead_rejects(g, t, rest);
                assert forall|x: int| !has_edge(h, k, c, x) by {
                    if has_edge(h, k, c, x) {
                        let p = (c, x as usize);
                        assert(h[k].paths.contains(p));
                        assert(live_paths(g, k).contains(p));
                        assert(g[k].paths.contains(p) && live(g, p.1 as int));
                        assert(x as usize == t as usize);
                        assert(x == t);
                    }
                }
            }
        } else if c != EPSILON {
            assert forall|x: int| !has_edge(h, k, c, x) by {
                if has_edge(h, k, c, x) {
                    assert(live_paths(g, k).contains((c, x as usize)));
                    assert(has_edge(g, k, c, x));
                }
            }
        }
    }
}

/// A path to a live state stays when the automaton is cleaned.
pub proof fn lemma_cleaned_reach(g: Seq<NodeModel>, a: int, b: int, n: nat)
    requires
        reach_in(any_edge(g), a, b, n),
        live(g, b),
    ensures
        reach(any_edge(cleaned(g)), a, b),
    decreases n,
{
    let h = cleaned(g);
    if n == 0 {
        lemma_reach_self(any_edge(h), a);
    } else if reach_in(any_edge(g), a, b, (n - 1) as nat) {
        lemma_cleaned_reach(g, a, b, (n - 1) as nat);
    } else {
        let m = choose|m: int|
            reach_in(any_edge(g), a, m, (n - 1) as nat) && #[trigger] any_edge(g)(m, b);
        lemma_live_back(g, m, b);
        lemma_cleaned_reach(g, a, m, (n - 1) as nat);
        let c = choose|c: char| has_edge(g, m, c, b);
        assert(h[m].paths.contains((c, b as usize)));
        assert(has_edge(h, m, c, b));
        assert(any_edge(h)(m, b));
        lemma_reach_extend(any_edge(h), a, m, b);
    }
}

/// Cleaning keeps what is live.
pub proof fn lemma_cleaned_live(g: Seq<NodeModel>, a: int)
    ensures
        live(cleaned(g), a) == live(g, a),
{
    let h = cleaned(g);
    if live(g, a) {
        let t = choose|t: int| reach(any_edge(g), a, t) && 0 <= t < g.len() && g[t].is_terminal;
        let n = choose|n: nat| reach_in(any_edge(g), a, t, n);
        lemma_reach_self(any_edge(g), t);
        assert(live(g, t));
        lemma_cleaned_reach(g, a, t, n);
        assert(h[t].is_terminal);
    }
    if live(h, a) {
        let t = choose|t: int| reach(any_edge(h), a, t) && 0 <= t < h.len() && h[t].is_terminal;
        let n = choose|n: nat| reach_in(any_edge(h), a, t, n);
        assert forall|x: int, y: int| #[trigger] any_edge(h)(x, y) implies any_edge(g)(x, y) by {
            let c = choose|c: char| has_edge(h, x, c, y);
            assert(has_edge(g, x, c, y));
        }
        lemma_reach_in_mono(any_edge(h), any_edge(g), a, t, n);
        assert(reach(any_edge(g), a, t));
        assert(g[t].is_terminal);
    }
}

/// Cleaning an automaton that has been cleaned changes nothing.
pub proof fn lemma_clean_idempotent(g: Seq<NodeModel>)
    ensures
        cleaned(cleaned(g)) == cleaned(g),
{
    let h = cleaned(g);
    assert forall|i: int| 0 <= i < g.len() implies cleaned(h)[i] == h[i] by {
        lemma_cleaned_live(g, i);
        if live(g, i) {
            assert forall|p: (char, usize)| live_paths(h, i).contains(p) == live_paths(
                g,
                i,
            ).contains(p) by {
                lemma_cleaned_live(g, p.1 as int);
            }
            assert(live_paths(h, i) =~= live_paths(g, i));
        }
    }
    assert(cleaned(h) =~= h);
}

/// The relation "has an edge to" cut down to the targets that are not
/// marked.
pub open spec fn unvisited_edge(g: Seq<NodeModel>, seen: Seq<bool>) -> spec_fn(int, int) -> bool {
    |a: int, b: int| any_edge(g)(a, b) && 0 <= b < seen.len() && !seen[b]
}

/// Whether a walk from `cur` that enters no marked state comes to `b`;
/// there is no such walk where `cur` is marked itself.
pub open spec fn spreads(g: Seq<NodeModel>, seen: Seq<bool>, cur: int, b: int) -> bool {
    !seen[cur] && reach(unvisited_edge(g, seen), cur, b)
}

/// The list with the start state alone marks the start state alone.
pub proof fn lemma_single_source(from: Seq<usize>, s: usize)
    requires
        from == seq![s],
    ensures
        node_set(from) == set![s as int],
{
    assert(from[0] == s);
    assert(from.contains(s));
    assert forall|a: int| node_set(from).contains(a) implies a == s by {
        let k = choose|k: int| 0 <= k < from.len() && from[k] == a as usize;
    }
    assert(node_set(from) =~= set![s as int]);
}

impl DFA {
    /// For each state, the states that its edges lead to.
    pub fn edge_lists(&self) -> (adj: Vec<Vec<usize>>)
        requires
            self.wf(),
        ensures
            adj@.len() == self.data@.len(),
            adj_closed(adj@),
            forall|x: int, y: int| #[trigger] adj_edge(adj@)(x, y) == any_edge(self.graph())(x, y),
    {
        let ghost g = self.graph();
        let mut adj: Vec<Vec<usize>> = Vec::new();
        let mut a: usize = 0;
        while a < self.data.len()
            invariant
                a <= self.data@.len(),
                self.wf(),
                g == self.graph(),
                adj@.len() == a,
                forall|x: int, j: int|
                    0 <= x < a && 0 <= j < adj@[x]@.len() ==> (#[trigger] adj@[x]@[j])
                        < self.data@.len(),
                forall|x: int, b: usize|
                    0 <= x < a ==> (#[trigger] adj@[x]@.contains(b) <==> exists|c: char|
                        g[x].paths.contains((c, b))),
            decreases self.data.len() - a,
        {
            let mut out: Vec<usize> = Vec::new();
            match &self.data[a] {
                Some(node) => {
                    let mut j: usize = 0;
                    while j < node.paths.len()
                        invariant
                            j <= node.paths@.len(),
                            out@.len() == j,
                            forall|i: int| 0 <= i < j ==> out@[i] == node.paths@[i].1,
                        decreases node.paths.len() - j,
                    {
                        out.push(node.paths[j].1);
                        j += 1;
                    }
                    proof {
                        assert(g[a as int] == node@);
                        assert forall|b: usize| #[trigger] out@.contains(b) <==> exists|c: char|
                            g[a as int].paths.contains((c, b)) by {
                            if out@.contains(b) {
                                let i = choose|i: int| 0 <= i < out@.len() && out@[i] == b;
                                assert(node.paths@.contains(node.paths@[i]));
                                assert(g[a as int].paths.contains((node.paths@[i].0, b)));
                            }
                            if exists|c: char| g[a as int].paths.contains((c, b)) {
                                let c = choose|c: char| g[a as int].paths.contains((c, b));
                                let i = choose|i: int|
                                    0 <= i < node.paths@.len() && node.paths@[i] == (c, b);
                                assert(out@[i] == b);
                            }
                        }
                        assert forall|i: int| 0 <= i < out@.len() implies (#[trigger] out@[i])
                            < self.data@.len() by {
                            assert(node.paths@.contains(node.paths@[i]));
                            assert(g[a as int].paths.contains(node.paths@[i]));
                            assert(self.alive().contains(node.paths@[i].1 as int));
                        }
                    }
                },
                None => {
                    proof {
                        assert(g[a as int] == no_node());
                        assert forall|b: usize| #[trigger] out@.contains(b) <==> exists|c: char|
                            g[a as int].paths.contains((c, b)) by {}
                    }
                },
            }
            adj.push(out);
            a += 1;
        }
        assert forall|x: int, y: int| #[trigger] adj_edge(adj@)(x, y) == any_edge(g)(x, y) by {
            if adj_edge(adj@)(x, y) {
                let yu = y as usize;
                assert(adj@[x]@.contains(yu));
                let c = choose|c: char| g[x].paths.contains((c, yu));
                assert(has_edge(g, x, c, y));
            }
            if any_edge(g)(x, y) {
                let c = choose|c: char| has_edge(g, x, c, y);
                let yu = y as usize;
                assert(g[x].paths.contains((c, yu)));
                assert(adj@[x]@.contains(yu));
            }
        }
        adj
    }

    /// Marks every state that can be reached from `cur` through states that
    /// are not marked yet, `cur` included; nothing is marked where `cur` is
    /// marked already.
    pub fn spread_through(&self, cur: Id, visited: &mut Vec<bool>)
        requires
            self.wf(),
            cur < self.data@.len(),
            old(visited)@.len() == self.data@.len(),
        ensures
            final(visited)@.len() == old(visited)@.len(),
            forall|b: int|
                0 <= b < self.data@.len() ==> #[trigger] final(visited)@[b] == (old(visited)@[b]
                    || spreads(self.graph(), old(visited)@, cur as int, b)),
    {
        let ghost g = self.graph();
        let ghost seen = visited@;
        let n: usize = self.data.len();
        if visited[cur] {
            return ;
        }
        let adj = self.edge_lists();
        let open = unmarked_lists(&adj, visited);
        let mut from: Vec<Id> = Vec::new();
        from.push(cur);
        let reached = reachable_from(&open, &from);
        proof {
            lemma_single_source(from@, cur);
            assert forall|x: int, y: int| #[trigger] adj_edge(open@)(x, y) == unvisited_edge(
                g,
                seen,
            )(x, y) by {
                assert(adj_edge(adj@)(x, y) == any_edge(g)(x, y));
            }
            assert forall|b: int| 0 <= b < n implies reached@[b] == spreads(
                g,
                seen,
                cur as int,
                b,
            ) by {
                lemma_reach_same(adj_edge(open@), unvisited_edge(g, seen), cur as int, b);
                if reached@[b] {
                    let a = choose|a: int|
                        node_set(from@).contains(a) && reach(adj_edge(open@), a, b);
                    assert(a == cur);
                }
                if spreads(g, seen, cur as int, b) {
                    assert(node_set(from@).contains(cur as int));
                    assert(reach_from_set(adj_edge(open@), node_set(from@), b));
                }
            }
        }
        let mut b: usize = 0;
        while b < n
            invariant
                b <= n,
                n == self.data@.len(),
                reached@.len() == n,
                visited@.len() == n,
                seen.len() == n,
                forall|x: int|
                    0 <= x < n ==> #[trigger] visited@[x] == (seen[x] || (x < b && reached@[x])),
            decreases n - b,
        {
            if reached[b] {
                visited.set(b, true);
            }
            b += 1;
        }
    }

    /// Removes every state that cannot be reached from the start state.
    /// What the automaton accepts stays as it was.
    pub fn purge(&mut self)
        requires
            old(self).wf(),
        ensures
            final(self).wf(),
            final(self).graph() == purged(old(self).graph()),
            final(self).alive() == Set::new(
                |i: int| old(self).alive().contains(i) && reachable(old(self).graph(), i),
            ),
            final(self).regex == old(self).regex,
            final(self).flags == old(self).flags,
            forall|w: Seq<char>| final(self).accepts(w) == old(self).accepts(w),
    {
        let ghost g = self.graph();
        let n: usize = self.data.len();
        let mut visited = no_marks(n);
        let ghost none = visited@;
        self.spread_through(0, &mut visited);
        proof {
            assert forall|x: int| 0 <= x < n implies !none[x] by {
                assert(!marked(none).contains(x));
            }
            assert forall|x: int, y: int| #[trigger] unvisited_edge(g, none)(x, y) == any_edge(g)(
                x,
                y,
            ) by {
                if any_edge(g)(x, y) {
                    let c = choose|c: char| has_edge(g, x, c, y);
                    assert(g[x].paths.contains((c, y as usize)));
                    assert(self.alive().contains(y));
                }
            }
            assert forall|b: int| 0 <= b < n implies visited@[b] == reachable(g, b) by {
                lemma_reach_same(unvisited_edge(g, none), any_edge(g), 0, b);
            }
        }
        let mut i: usize = 0;
        while i < n
            invariant
                i <= n,
                n == self.data@.len(),
                n == old(self).data@.len(),
                visited@.len() == n,
                self.regex == old(self).regex,
                self.flags == old(self).flags,
                forall|x: int| 0 <= x < i && !visited@[x] ==> (#[trigger] self.data@[x]).is_none(),
                forall|x: int|
                    0 <= x < n && (x >= i || visited@[x]) ==> #[trigger] self.data@[x] == old(
                        self,
                    ).data@[x],
            decreases n - i,
        {
            if !visited[i] {
                self.data.set(i, None);
            }
            i += 1;
        }
        proof {
            let h = self.graph();
            assert forall|x: int| 0 <= x < n implies h[x] == purged(g)[x] by {
                if visited@[x] {
                    assert(self.data@[x] == old(self).data@[x]);
                } else {
                    assert(self.data@[x].is_none());
                }
            }
            assert(h =~= purged(g));
            lemma_reach_self(any_edge(g), 0);
            assert(self.alive() =~= Set::new(
                |i: int| old(self).alive().contains(i) && reachable(g, i),
            )) by {
                assert forall|x: int| self.alive().contains(x) <==> (old(self).alive().contains(x)
                    && reachable(g, x)) by {
                    if 0 <= x < n {
                        if visited@[x] {
                            assert(self.data@[x] == old(self).data@[x]);
                        } else {
                            assert(self.data@[x].is_none());
                        }
                    }
                }
            }
            assert forall|a: int, p: (char, usize)|
                0 <= a < n && #[trigger] h[a].paths.contains(p) implies self.alive().contains(
                p.1 as int,
            ) by {
                assert(visited@[a]);
                assert(g[a].paths.contains(p));
                assert(old(self).alive().contains(p.1 as int));
                assert(has_edge(g, a, p.0, p.1 as int));
                assert(any_edge(g)(a, p.1 as int));
                lemma_reach_extend(any_edge(g), 0, a, p.1 as int);
            }
            assert forall|x: int, b: usize| 0 <= x < h.len() implies !(#[trigger] h[x].paths.contains(
                (EPSILON, b),
            )) by {
                if visited@[x] {
                    assert(h[x] == g[x]);
                }
            }
            assert forall|x: int, c: char, t1: usize, t2: usize|
                0 <= x < h.len() && #[trigger] h[x].paths.contains((c, t1))
                    && #[trigger] h[x].paths.contains((c, t2)) implies t1 == t2 by {
                if visited@[x] {
                    assert(h[x] == g[x]);
                }
            }
            assert forall|x: int| 0 <= x < n && (#[trigger] self.data@[x]).is_some()
                implies self.data@[x].unwrap().id == x by {
                assert(self.data@[x] == old(self).data@[x]);
            }
            assert(reachable(g, 0));
            assert(visited@[0]);
            assert(self.data@[0] == old(self).data@[0]);
            assert(eps_free(h));
            assert(deterministic(h));
            assert forall|w: Seq<char>| self.accepts(w) == old(self).accepts(w) by {
                lemma_purge_walk(g, 0, w);
            }
        }
    }
}

/// The edges of a place, in the order in which they are kept.
pub open spec fn slot_paths(slot: Option<DfaNode>) -> Seq<(char, usize)> {
    match slot {
        Some(node) => node.paths@,
        None => Seq::empty(),
    }
}

/// Whether one of the first `j` edges of a place leads to the state `t`.
pub open spec fn points_to(slot: Option<DfaNode>, t: int, j: int) -> bool {
    exists|i: int| 0 <= i < j && i < slot_paths(slot).len() && (#[trigger] slot_paths(slot)[i]).1 == t
}

impl DfaNode {
    /// The state with those of its edges alone that lead to a marked state.
    pub fn keep_marked(&self, marks: &Vec<bool>) -> (node: DfaNode)
        requires
            forall|p: (char, usize)| self@.paths.contains(p) ==> p.1 < marks@.len(),
        ensures
            node.id == self.id,
            node.is_terminal == self.is_terminal,
            node@.paths == Set::new(
                |p: (char, usize)| self@.paths.contains(p) && marks@[p.1 as int],
            ),
    {
        let mut paths: Vec<(char, Id)> = Vec::new();
        let mut j: usize = 0;
        while j < self.paths.len()
            invariant
                j <= self.paths@.len(),
                forall|p: (char, usize)| self@.paths.contains(p) ==> p.1 < marks@.len(),
                forall|p: (char, usize)|
                    paths@.contains(p) <==> marks@[p.1 as int] && exists|i: int|
                        0 <= i < j && self.paths@[i] == p,
            decreases self.paths.len() - j,
        {
            let p: (char, Id) = self.paths[j];
            assert(self.paths@.contains(p));
            assert(self@.paths.contains(p));
            let ghost before = paths@;
            if marks[p.1] {
                paths.push(p);
            }
            assert forall|q: (char, usize)| paths@.contains(q) <==> marks@[q.1 as int] && exists|
                i: int,
            |
                0 <= i < j + 1 && self.paths@[i] == q by {
                if paths@.contains(q) {
                    let k = choose|k: int| 0 <= k < paths@.len() && paths@[k] == q;
                    if k < before.len() {
                        assert(before.contains(q));
                        let i = choose|i: int| 0 <= i < j && self.paths@[i] == q;
                        assert(0 <= i < j + 1 && self.paths@[i] == q);
                    } else {
                        assert(q == p);
                        assert(self.paths@[j as int] == q);
                    }
                }
                if marks@[q.1 as int] && exists|i: int| 0 <= i < j + 1 && self.paths@[i] == q {
                    let i = choose|i: int| 0 <= i < j + 1 && self.paths@[i] == q;
                    if i < j {
                        assert(before.contains(q));
                        let k = choose|k: int| 0 <= k < before.len() && before[k] == q;
                        assert(paths@[k] == q);
                    } else {
                        assert(paths@[before.len() as int] == q);
                    }
                }
            }
            j += 1;
        }
        let node = DfaNode { id: self.id, is_terminal: self.is_terminal, paths };
        assert(node@.paths =~= Set::new(
            |p: (char, usize)| self@.paths.contains(p) && marks@[p.1 as int],
        )) by {
            assert forall|p: (char, usize)| node@.paths.contains(p) <==> (self@.paths.contains(p)
                && marks@[p.1 as int]) by {
                if node@.paths.contains(p) {
                    let i = choose|i: int| 0 <= i < self.paths@.len() && self.paths@[i] == p;
                    assert(self.paths@.contains(p));
                }
                if self@.paths.contains(p) && marks@[p.1 as int] {
                    let i = choose|i: int| 0 <= i < self.paths@.len() && self.paths@[i] == p;
                    assert(paths@.contains(p));
                }
            }
        }
        node
    }
}

impl DFA {
    /// For each state, the states that have an edge to it.
    pub fn reverse_edge_lists(&self) -> (back: Vec<Vec<usize>>)
        requires
            self.wf(),
        ensures
            back@.len() == self.data@.len(),
            adj_closed(back@),
            forall|x: int, y: int|
                #[trigger] adj_edge(back@)(x, y) == any_edge(self.graph())(y, x),
    {
        let ghost g = self.graph();
        let n: usize = self.data.len();
        let mut back: Vec<Vec<usize>> = Vec::new();
        let mut k: usize = 0;
        while k < n
            invariant
                k <= n,
                back@.len() == k,
                forall|t: int| 0 <= t < k ==> (#[trigger] back@[t])@.len() == 0,
            decreases n - k,
        {
            back.push(Vec::new());
            k += 1;
        }
        let mut a: usize = 0;
        while a < n
            invariant
                a <= n,
                n == self.data@.len(),
                self.wf(),
                g == self.graph(),
                back@.len() == n,
                forall|t: int, i: int|
                    0 <= t < n && 0 <= i < back@[t]@.len() ==> (#[trigger] back@[t]@[i]) < n,
                forall|t: int, s: usize|
                    0 <= t < n ==> (#[trigger] back@[t]@.contains(s) <==> s < a && points_to(
                        self.data@[s as int],
                        t,
                        slot_paths(self.data@[s as int]).len() as int,
                    )),
            decreases n - a,
        {
            match &self.data[a] {
                Some(node) => {
                    let mut j: usize = 0;
                    while j < node.paths.len()
                        invariant
                            j <= node.paths@.len(),
                            a < n,
                            n == self.data@.len(),
                            self.wf(),
                            g == self.graph(),
                            self.data@[a as int] == Some(*node),
                            back@.len() == n,
                            forall|t: int, i: int|
                                0 <= t < n && 0 <= i < back@[t]@.len() ==> (
                                #[trigger] back@[t]@[i]) < n,
                            forall|t: int, s: usize|
                                0 <= t < n ==> (#[trigger] back@[t]@.contains(s) <==> (s < a
                                    && points_to(
                                    self.data@[s as int],
                                    t,
                                    slot_paths(self.data@[s as int]).len() as int,
                                )) || (s == a && points_to(self.data@[a as int], t, j as int))),
                        decreases node.paths.len() - j,
                    {
                        let t: usize = node.paths[j].1;
                        proof {
                            assert(node.paths@.contains(node.paths@[j as int]));
                            assert(g[a as int] == node@);
                            assert(g[a as int].paths.contains(node.paths@[j as int]));
                            assert(self.alive().contains(t as int));
                        }
                        let ghost prev = back@;
                        back[t].push(a);
                        proof {
                            assert forall|t2: int, i: int|
                                0 <= t2 < n && 0 <= i < back@[t2]@.len() implies (
                            #[trigger] back@[t2]@[i]) < n by {
                                if t2 == t {
                                    if i < prev[t2]@.len() {
                                        assert(back@[t2]@[i] == prev[t2]@[i]);
                                    }
                                } else {
                                    assert(back@[t2] == prev[t2]);
                                }
                            }
                            assert forall|t2: int, s: usize| 0 <= t2 < n implies (
                            #[trigger] back@[t2]@.contains(s) <==> (s < a && points_to(
                                self.data@[s as int],
                                t2,
                                slot_paths(self.data@[s as int]).len() as int,
                            )) || (s == a && points_to(self.data@[a as int], t2, j as int + 1))) by {
                                let was = prev[t2]@.contains(s);
                                let now = back@[t2]@.contains(s);
                                let hit = t2 == t && s == a;
                                assert(now == (was || hit)) by {
                                    if t2 == t {
                                        assert(back@[t2]@ == prev[t2]@.push(a));
                                        if was {
                                            let i = choose|i: int|
                                                0 <= i < prev[t2]@.len() && prev[t2]@[i] == s;
                                            assert(back@[t2]@[i] == s);
                                        }
                                        if s == a {
                                            assert(back@[t2]@[prev[t2]@.len() as int] == a);
                                        }
                                        if now {
                                            let i = choose|i: int|
                                                0 <= i < back@[t2]@.len() && back@[t2]@[i] == s;
                                            if i < prev[t2]@.len() {
                                                assert(prev[t2]@[i] == s);
                                            }
                                        }
                                    } else {
                                        assert(back@[t2] == prev[t2]);
                                    }
                                }
                                let slot = self.data@[a as int];
                                assert(points_to(slot, t2, j as int + 1) == (points_to(
                                    slot,
                                    t2,
                                    j as int,
                                ) || t2 == t)) by {
                                    if points_to(slot, t2, j as int + 1) {
                                        let i = choose|i: int|
                                            0 <= i < j + 1 && i < slot_paths(slot).len() && (
                                            #[trigger] slot_paths(slot)[i]).1 == t2;
                                        if i < j {
                                            assert(points_to(slot, t2, j as int));
                                        }
                                    }
                                    if points_to(slot, t2, j as int) {
                                        let i = choose|i: int|
                                            0 <= i < j && i < slot_paths(slot).len() && (
                                            #[trigger] slot_paths(slot)[i]).1 == t2;
                                        assert(0 <= i < j + 1 && slot_paths(slot)[i].1 == t2);
                                    }
                                    if t2 == t {
                                        assert(slot_paths(slot)[j as int].1 == t2);
                                    }
                                }
                            }
                        }
                        j += 1;
                    }
                },
                None => {
                    proof {
                        assert forall|t: int| !points_to(self.data@[a as int], t, 0) by {}
                    }
                },
            }
            proof {
                assert forall|t: int, s: usize| 0 <= t < n implies (#[trigger] back@[t]@.contains(s)
                    <==> s < a + 1 && points_to(
                    self.data@[s as int],
                    t,
                    slot_paths(self.data@[s as int]).len() as int,
                )) by {
                    if s == a {
                        if self.data@[a as int].is_none() {
                            assert(!points_to(self.data@[a as int], t, 0));
                        }
                    }
                }
            }
            a += 1;
        }
        proof {
            assert forall|x: int, y: int| #[trigger] adj_edge(back@)(x, y) == any_edge(g)(y, x) by {
                if adj_edge(back@)(x, y) {
                    let yu = y as usize;
                    assert(back@[x]@.contains(yu));
                    let slot = self.data@[y];
                    let i = choose|i: int|
                        0 <= i < slot_paths(slot).len() && i < slot_paths(slot).len() && (
                        #[trigger] slot_paths(slot)[i]).1 == x;
                    let p = slot_paths(slot)[i];
                    assert(slot.unwrap().paths@.contains(p));
                    assert(g[y].paths.contains((p.0, x as usize)));
                    assert(has_edge(g, y, p.0, x));
                }
                if any_edge(g)(y, x) {
                    let c = choose|c: char| has_edge(g, y, c, x);
                    let slot = self.data@[y];
                    assert(g[y].paths.contains((c, x as usize)));
                    assert(slot.is_some());
                    let i = choose|i: int|
                        0 <= i < slot.unwrap().paths@.len() && slot.unwrap().paths@[i] == (
                            c,
                            x as usize,
                        );
                    assert(slot_paths(slot)[i].1 == x);
                    assert(points_to(slot, x, slot_paths(slot).len() as int));
                    assert(self.alive().contains(x));
                    assert(back@[x]@.contains(y as usize));
                }
            }
        }
        back
    }

    /// The accepting states, as a list.
    pub fn terminals(&self) -> (list: Vec<Id>)
        ensures
            forall|k: int| 0 <= k < list@.len() ==> list@[k] < self.data@.len(),
            forall|a: int|
                node_set(list@).contains(a) <==> 0 <= a < self.data@.len()
                    && self.graph()[a].is_terminal,
    {
        let ghost g = self.graph();
        let mut list: Vec<Id> = Vec::new();
        let mut i: usize = 0;
        while i < self.data.len()
            invariant
                i <= self.data@.len(),
                g == self.graph(),
                forall|k: int| 0 <= k < list@.len() ==> list@[k] < self.data@.len(),
                forall|a: usize|
                    list@.contains(a) <==> a < i && g[a as int].is_terminal,
            decreases self.data.len() - i,
        {
            let accepting: bool = match &self.data[i] {
                Some(node) => node.is_terminal,
                None => false,
            };
            let ghost before = list@;
            if accepting {
                list.push(i);
            }
            assert forall|a: usize| list@.contains(a) <==> a < i + 1 && g[a as int].is_terminal by {
                if list@.contains(a) {
                    let k = choose|k: int| 0 <= k < list@.len() && list@[k] == a;
                    if k < before.len() {
                        assert(before.contains(a));
                    }
                }
                if a < i + 1 && g[a as int].is_terminal {
                    if a < i {
                        assert(before.contains(a));
                        let k = choose|k: int| 0 <= k < before.len() && before[k] == a;
                        assert(list@[k] == a);
                    } else {
                        assert(list@[before.len() as int] == a);
                    }
                }
            }
            i += 1;
        }
        assert forall|a: int|
            node_set(list@).contains(a) <==> 0 <= a < self.data@.len()
                && g[a].is_terminal by {
            if 0 <= a < self.data@.len() && g[a].is_terminal {
                assert(list@.contains(a as usize));
            }
        }
        list
    }

    /// Removes every state from which nothing is accepted, the start state
    /// excepted, along with the edges that lead to such a state. What the
    /// automaton accepts stays as it was.
    pub fn clean(&mut self)
        requires
            old(self).wf(),
        ensures
            final(self).wf(),
            final(self).graph() == cleaned(old(self).graph()),
            final(self).alive() == Set::new(
                |i: int| old(self).alive().contains(i) && (i == 0 || live(old(self).graph(), i)),
            ),
            final(self).regex == old(self).regex,
            final(self).flags == old(self).flags,
            forall|w: Seq<char>| final(self).accepts(w) == old(self).accepts(w),
    {
        let ghost g = self.graph();
        let n: usize = self.data.len();
        let back = self.reverse_edge_lists();
        let from = self.terminals();
        let marks = reachable_from(&back, &from);
        proof {
            assert forall|a: int| 0 <= a < n implies marks@[a] == live(g, a) by {
                if marks@[a] {
                    let t = choose|t: int|
                        node_set(from@).contains(t) && reach(adj_edge(back@), t, a);
                    lemma_reach_reverse(any_edge(g), adj_edge(back@), t, a);
                }
                if live(g, a) {
                    let t = choose|t: int|
                        reach(any_edge(g), a, t) && 0 <= t < g.len() && g[t].is_terminal;
                    lemma_reach_reverse(any_edge(g), adj_edge(back@), t, a);
                    assert(node_set(from@).contains(t));
                    assert(reach_from_set(adj_edge(back@), node_set(from@), a));
                }
            }
        }
        let mut data: Vec<Option<DfaNode>> = Vec::new();
        let mut i: usize = 0;
        while i < n
            invariant
                i <= n,
                n == self.data@.len(),
                self.wf(),
                g == self.graph(),
                marks@.len() == n,
                forall|a: int| 0 <= a < n ==> marks@[a] == live(g, a),
                data@.len() == i,
                forall|x: int|
                    0 <= x < i ==> slot_view(#[trigger] data@[x]) == cleaned(g)[x],
                forall|x: int|
                    0 <= x < i ==> ((#[trigger] data@[x]).is_some() <==> self.data@[x].is_some()
                        && (x == 0 || live(g, x))),
                forall|x: int|
                    0 <= x < i && (#[trigger] data@[x]).is_some() ==> data@[x].unwrap().id == x,
            decreases n - i,
        {
            let slot: Option<DfaNode> = match &self.data[i] {
                Some(node) => {
                    assert(g[i as int] == node@);
                    if marks[i] {
                        assert forall|p: (char, usize)| node@.paths.contains(p) implies p.1
                            < marks@.len() by {
                            assert(g[i as int].paths.contains(p));
                            assert(self.alive().contains(p.1 as int));
                        }
                        let kept = node.keep_marked(&marks);
                        assert(kept@.paths =~= live_paths(g, i as int)) by {
                            assert forall|p: (char, usize)| kept@.paths.contains(p)
                                <==> live_paths(g, i as int).contains(p) by {
                                if g[i as int].paths.contains(p) {
                                    assert(self.alive().contains(p.1 as int));
                                }
                            }
                        }
                        Some(kept)
                    } else if i == 0 {
                        Some(DfaNode::new(0))
                    } else {
                        None
                    }
                },
                None => {
                    proof {
                        assert(g[i as int] == no_node());
                        if live(g, i as int) {
                            let t = choose|t: int|
                                reach(any_edge(g), i as int, t) && 0 <= t < g.len()
                                    && g[t].is_terminal;
                            let m = choose|m: nat| reach_in(any_edge(g), i as int, t, m);
                            lemma_no_edges_reach(g, i as int, t, m);
                        }
                    }
                    None
                },
            };
            data.push(slot);
            i += 1;
        }
        self.data = data;
        proof {
            let h = self.graph();
            assert(h =~= cleaned(g));
            assert(self.alive() =~= Set::new(
                |i: int| old(self).alive().contains(i) && (i == 0 || live(g, i)),
            ));
            assert forall|a: int, p: (char, usize)|
                0 <= a < n && #[trigger] h[a].paths.contains(p) implies self.alive().contains(
                p.1 as int,
            ) by {
                assert(live_paths(g, a).contains(p));
                assert(g[a].paths.contains(p));
                assert(old(self).alive().contains(p.1 as int));
            }
            assert forall|x: int, b: usize| 0 <= x < h.len() implies !(#[trigger] h[x].paths.contains(
                (EPSILON, b),
            )) by {
                if h[x].paths.contains((EPSILON, b)) {
                    assert(live_paths(g, x).contains((EPSILON, b)));
                    assert(g[x].paths.contains((EPSILON, b)));
                }
            }
            assert forall|x: int, c: char, t1: usize, t2: usize|
                0 <= x < h.len() && #[trigger] h[x].paths.contains((c, t1))
                    && #[trigger] h[x].paths.contains((c, t2)) implies t1 == t2 by {
                assert(live_paths(g, x).contains((c, t1)));
                assert(live_paths(g, x).contains((c, t2)));
                assert(g[x].paths.contains((c, t1)) && g[x].paths.contains((c, t2)));
            }
            assert(eps_free(h));
            assert(deterministic(h));
            assert forall|w: Seq<char>| self.accepts(w) == old(self).accepts(w) by {
                lemma_clean_walk(g, 0, w);
            }
        }
    }
}

/// A state without edges reaches itself alone.
pub proof fn lemma_no_edges_reach(g: Seq<NodeModel>, a: int, b: int, n: nat)
    requires
        0 <= a < g.len(),
        g[a] == no_node(),
        reach_in(any_edge(g), a, b, n),
    ensures
        a == b,
    decreases n,
{
    if n == 0 {
    } else if reach_in(any_edge(g), a, b, (n - 1) as nat) {
        lemma_no_edges_reach(g, a, b, (n - 1) as nat);
    } else {
        let m = choose|m: int|
            reach_in(any_edge(g), a, m, (n - 1) as nat) && #[trigger] any_edge(g)(m, b);
        lemma_no_edges_reach(g, a, m, (n - 1) as nat);
        let c = choose|c: char| has_edge(g, m, c, b);
        assert(g[a].paths.contains((c, b as usize)));
    }
}

} // verus!
