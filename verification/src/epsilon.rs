//! Removing the empty-label edges of an automaton.

use crate::class::EPSILON;
use crate::graph::{
    adj_closed,
    adj_edge,
    lemma_reach_in_mono,
    node_set,
    reach,
    reach_from_set,
    reach_in,
    reachable_from,
};
use crate::language::{
    accepting,
    closure,
    eps_edge,
    eps_free,
    lemma_closure_identity,
    nfa_accepts,
    run,
    step,
};
use crate::nfa::{graph_closed, has_edge, Id, NfaNode, NodeModel, NFA};
use vstd::prelude::*;

verus! {

/// The edges with a symbol that the states of `set` have, all together.
pub open spec fn merged_paths(g: Seq<NodeModel>, set: Set<int>) -> Set<(char, usize)> {
    Set::new(
        |p: (char, usize)|
            p.0 != EPSILON && exists|r: int|
                set.contains(r) && 0 <= r < g.len() && g[r].paths.contains(p),
    )
}

/// The state that stands for all states of `set` at once: it accepts if one
/// of them does, and it has every edge with a symbol that one of them has.
pub open spec fn merged(g: Seq<NodeModel>, set: Set<int>) -> NodeModel {
    NodeModel { is_terminal: accepting(g, set), paths: merged_paths(g, set) }
}

/// What a state becomes when the empty-label edges are removed: the merge of
/// the states of its closure.
pub open spec fn remove_eps_node(g: Seq<NodeModel>, s: int) -> NodeModel {
    merged(g, closure(g, set![s]))
}

/// The automaton without its empty-label edges.
pub open spec fn spec_remove_eps(g: Seq<NodeModel>) -> Seq<NodeModel> {
    Seq::new(g.len(), |s: int| remove_eps_node(g, s))
}

/// From what is no state, nothing else is reached.
pub proof fn lemma_reach_from_outside(g: Seq<NodeModel>, a: int, b: int, n: nat)
    requires
        !(0 <= a < g.len()),
        reach_in(eps_edge(g), a, b, n),
    ensures
        a == b,
    decreases n,
{
    if n == 0 {
    } else if reach_in(eps_edge(g), a, b, (n - 1) as nat) {
        lemma_reach_from_outside(g, a, b, (n - 1) as nat);
    } else {
        let m = choose|m: int|
            reach_in(eps_edge(g), a, m, (n - 1) as nat) && #[trigger] eps_edge(g)(m, b);
        lemma_reach_from_outside(g, a, m, (n - 1) as nat);
    }
}

/// The automaton without its empty-label edges has none.
pub proof fn lemma_remove_eps_free(g: Seq<NodeModel>)
    ensures
        eps_free(spec_remove_eps(g)),
        spec_remove_eps(g).len() == g.len(),
        graph_closed(g) ==> graph_closed(spec_remove_eps(g)),
{
    let h = spec_remove_eps(g);
    if graph_closed(g) {
        assert forall|a: int, p: (char, usize)|
            0 <= a < h.len() && #[trigger] h[a].paths.contains(p) implies p.1 < h.len() by {
            let r = choose|r: int|
                closure(g, set![a]).contains(r) && 0 <= r < g.len() && g[r].paths.contains(p);
            assert(g[r].paths.contains(p));
        }
    }
}

/// A symbol followed in the automaton without empty-label edges leads where
/// it leads in the given automaton from the closure.
pub proof fn lemma_remove_eps_step(g: Seq<NodeModel>, s: Set<int>, c: char)
    ensures
        step(spec_remove_eps(g), s, c) == step(g, closure(g, s), c),
{
    let h = spec_remove_eps(g);
    assert forall|t: int| step(h, s, c).contains(t) implies step(g, closure(g, s), c).contains(
        t,
    ) by {
        let a = choose|a: int| s.contains(a) && has_edge(h, a, c, t);
        let p = (c, t as usize);
        let r = choose|r: int|
            closure(g, set![a]).contains(r) && 0 <= r < g.len() && g[r].paths.contains(p);
        let a0 = choose|a0: int| set![a].contains(a0) && reach(eps_edge(g), a0, r);
        assert(a0 == a);
        assert(reach_from_set(eps_edge(g), s, r));
        assert(closure(g, s).contains(r) && has_edge(g, r, c, t));
    }
    assert forall|t: int| step(g, closure(g, s), c).contains(t) implies step(h, s, c).contains(
        t,
    ) by {
        let r = choose|r: int| closure(g, s).contains(r) && has_edge(g, r, c, t);
        let a = choose|a: int| s.contains(a) && reach(eps_edge(g), a, r);
        if !(0 <= a < g.len()) {
            let n = choose|n: nat| reach_in(eps_edge(g), a, r, n);
            lemma_reach_from_outside(g, a, r, n);
        }
        assert(set![a].contains(a));
        assert(reach_from_set(eps_edge(g), set![a], r));
        assert(closure(g, set![a]).contains(r));
        assert(h[a].paths.contains((c, t as usize)));
        assert(has_edge(h, a, c, t));
    }
    assert(step(h, s, c) =~= step(g, closure(g, s), c));
}

/// The automaton without empty-label edges is in an accepting state where
/// the closure was in the given automaton.
pub proof fn lemma_remove_eps_accepting(g: Seq<NodeModel>, s: Set<int>)
    ensures
        accepting(spec_remove_eps(g), s) == accepting(g, closure(g, s)),
{
    let h = spec_remove_eps(g);
    if accepting(h, s) {
        let a = choose|a: int| s.contains(a) && 0 <= a < h.len() && h[a].is_terminal;
        let r = choose|r: int|
            closure(g, set![a]).contains(r) && 0 <= r < g.len() && g[r].is_terminal;
        let a0 = choose|a0: int| set![a].contains(a0) && reach(eps_edge(g), a0, r);
        assert(a0 == a);
        assert(reach_from_set(eps_edge(g), s, r));
        assert(closure(g, s).contains(r));
    }
    if accepting(g, closure(g, s)) {
        let r = choose|r: int| closure(g, s).contains(r) && 0 <= r < g.len() && g[r].is_terminal;
        let a = choose|a: int| s.contains(a) && reach(eps_edge(g), a, r);
        if !(0 <= a < g.len()) {
            let n = choose|n: nat| reach_in(eps_edge(g), a, r, n);
            lemma_reach_from_outside(g, a, r, n);
        }
        assert(set![a].contains(a));
        assert(reach_from_set(eps_edge(g), set![a], r));
        assert(closure(g, set![a]).contains(r));
        assert(accepting(g, closure(g, set![a])));
        assert(h[a].is_terminal);
    }
}

/// A run of the automaton without empty-label edges accepts what a run of
/// the given automaton accepts from the closure.
pub proof fn lemma_remove_eps_run(g: Seq<NodeModel>, s: Set<int>, w: Seq<char>)
    ensures
        run(spec_remove_eps(g), s, w) == run(g, closure(g, s), w),
    decreases w.len(),
{
    let h = spec_remove_eps(g);
    lemma_remove_eps_free(g);
    if w.len() == 0 {
        lemma_remove_eps_accepting(g, s);
    } else {
        let next = step(h, s, w[0]);
        lemma_closure_identity(h, next);
        lemma_remove_eps_step(g, s, w[0]);
        lemma_remove_eps_run(g, next, w.drop_first());
    }
}

/// Removing the empty-label edges changes nothing of what is accepted.
pub proof fn lemma_remove_eps_language(g: Seq<NodeModel>, w: Seq<char>)
    ensures
        nfa_accepts(spec_remove_eps(g), w) == nfa_accepts(g, w),
{
    let h = spec_remove_eps(g);
    lemma_remove_eps_free(g);
    lemma_closure_identity(h, set![0int]);
    lemma_remove_eps_run(g, set![0int], w);
}

/// The states that a row of marks marks.
pub open spec fn marked(v: Seq<bool>) -> Set<int> {
    Set::new(|a: int| 0 <= a < v.len() && v[a])
}

/// Two relations that hold the same edges reach the same states.
pub proof fn lemma_reach_same(
    e1: spec_fn(int, int) -> bool,
    e2: spec_fn(int, int) -> bool,
    a: int,
    b: int,
)
    requires
        forall|x: int, y: int| #[trigger] e1(x, y) == e2(x, y),
    ensures
        reach(e1, a, b) == reach(e2, a, b),
{
    if reach(e1, a, b) {
        let n = choose|n: nat| reach_in(e1, a, b, n);
        lemma_reach_in_mono(e1, e2, a, b, n);
    }
    if reach(e2, a, b) {
        let n = choose|n: nat| reach_in(e2, a, b, n);
        assert forall|x: int, y: int| #[trigger] e2(x, y) implies e1(x, y) by {
            assert(e1(x, y) == e2(x, y));
        }
        lemma_reach_in_mono(e2, e1, a, b, n);
    }
}

impl NFA {
    /// Whether some edge has the empty label.
    pub fn has_epsilon(&self) -> (r: bool)
        ensures
            r == !eps_free(self.graph()),
    {
        let ghost g = self.graph();
        let mut a: usize = 0;
        while a < self.data.len()
            invariant
                a <= self.data@.len(),
                g == self.graph(),
                forall|x: int, b: usize|
                    0 <= x < a ==> !(#[trigger] g[x].paths.contains((EPSILON, b))),
            decreases self.data.len() - a,
        {
            let node = &self.data[a];
            let mut j: usize = 0;
            while j < node.paths.len()
                invariant
                    j <= node.paths@.len(),
                    a < self.data@.len(),
                    g == self.graph(),
                    *node == self.data@[a as int],
                    forall|i: int| 0 <= i < j ==> node.paths@[i].0 != EPSILON,
                decreases node.paths.len() - j,
            {
                if node.paths[j].0 == EPSILON {
                    assert(node.paths@.contains(node.paths@[j as int]));
                    assert(g[a as int].paths.contains((EPSILON, node.paths@[j as int].1)));
                    return true;
                }
                j += 1;
            }
            assert forall|b: usize| !(#[trigger] g[a as int].paths.contains((EPSILON, b))) by {
                if g[a as int].paths.contains((EPSILON, b)) {
                    let i = choose|i: int|
                        0 <= i < node.paths@.len() && node.paths@[i] == (EPSILON, b);
                    assert(node.paths@[i].0 == EPSILON);
                }
            }
            a += 1;
        }
        false
    }

    /// For each state, the states that its empty-label edges lead to.
    pub fn eps_adjacency(&self) -> (adj: Vec<Vec<usize>>)
        requires
            self.wf(),
        ensures
            adj@.len() == self.data@.len(),
            adj_closed(adj@),
            forall|x: int, y: int|
                #[trigger] adj_edge(adj@)(x, y) == eps_edge(self.graph())(x, y),
    {
        let ghost g = self.graph();
        let mut adj: Vec<Vec<usize>> = Vec::new();
        let mut a: usize = 0;
        while a < self.data.len()
            invariant
                a <= self.data@.len(),
                g == self.graph(),
                graph_closed(g),
                adj@.len() == a,
                forall|x: int, j: int|
                    0 <= x < a && 0 <= j < adj@[x]@.len() ==> (#[trigger] adj@[x]@[j])
                        < self.data@.len(),
                forall|x: int, b: usize|
                    0 <= x < a ==> (adj@[x]@.contains(b) <==> #[trigger] g[x].paths.contains(
                        (EPSILON, b),
                    )),
            decreases self.data.len() - a,
        {
            let node = &self.data[a];
            let mut out: Vec<usize> = Vec::new();
            let mut j: usize = 0;
            while j < node.paths.len()
                invariant
                    j <= node.paths@.len(),
                    forall|b: usize|
                        out@.contains(b) <==> exists|i: int|
                            0 <= i < j && #[trigger] node.paths@[i] == (EPSILON, b),
                decreases node.paths.len() - j,
            {
                let p: (char, Id) = node.paths[j];
                if p.0 == EPSILON {
                    let ghost before = out@;
                    out.push(p.1);
                    assert forall|b: usize| out@.contains(b) implies exists|i: int|
                        0 <= i < j + 1 && #[trigger] node.paths@[i] == (EPSILON, b) by {
                        let k = choose|k: int| 0 <= k < out@.len() && out@[k] == b;
                        if k < before.len() {
                            assert(before.contains(b));
                        } else {
                            assert(node.paths@[j as int] == (EPSILON, b));
                        }
                    }
                    assert forall|b: usize|
                        (exists|i: int|
                            0 <= i < j + 1 && #[trigger] node.paths@[i] == (
                                EPSILON,
                                b,
                            )) implies out@.contains(b) by {
                        let i = choose|i: int|
                            0 <= i < j + 1 && #[trigger] node.paths@[i] == (EPSILON, b);
                        if i < j {
                            assert(before.contains(b));
                            let k = choose|k: int| 0 <= k < before.len() && before[k] == b;
                            assert(out@[k] == b);
                        } else {
                            assert(out@[before.len() as int] == b);
                        }
                    }
                }
                j += 1;
            }
            proof {
                assert forall|b: usize| out@.contains(b) <==> #[trigger] g[a as int].paths.contains(
                    (EPSILON, b),
                ) by {
                    if out@.contains(b) {
                        let i = choose|i: int|
                            0 <= i < node.paths@.len() && #[trigger] node.paths@[i] == (
                                EPSILON,
                                b,
                            );
                        assert(node.paths@.contains((EPSILON, b)));
                    }
                    if g[a as int].paths.contains((EPSILON, b)) {
                        let i = choose|i: int|
                            0 <= i < node.paths@.len() && node.paths@[i] == (EPSILON, b);
                        assert(node.paths@[i] == (EPSILON, b));
                    }
                }
                assert forall|k: int| 0 <= k < out@.len() implies (#[trigger] out@[k])
                    < self.data@.len() by {
                    assert(out@.contains(out@[k]));
                    assert(g[a as int].paths.contains((EPSILON, out@[k])));
                }
            }
            adj.push(out);
            a += 1;
        }
        assert forall|x: int, y: int| #[trigger] adj_edge(adj@)(x, y) == eps_edge(g)(x, y) by {}
        adj
    }

    /// The states that can be reached from the states `from` along
    /// empty-label edges alone, marked in a row with one mark for each state.
    pub fn follow_epsilon(&self, from: &Vec<Id>) -> (marks: Vec<bool>)
        requires
            self.wf(),
            forall|k: int| 0 <= k < from@.len() ==> from@[k] < self.data@.len(),
        ensures
            marks@.len() == self.data@.len(),
            marked(marks@) == closure(self.graph(), node_set(from@)),
    {
        let adj = self.eps_adjacency();
        let marks = reachable_from(&adj, from);
        proof {
            let g = self.graph();
            assert forall|b: int| marked(marks@).contains(b) <==> closure(
                g,
                node_set(from@),
            ).contains(b) by {
                if marked(marks@).contains(b) {
                    let a = choose|a: int|
                        node_set(from@).contains(a) && reach(adj_edge(adj@), a, b);
                    lemma_reach_same(adj_edge(adj@), eps_edge(g), a, b);
                }
                if closure(g, node_set(from@)).contains(b) {
                    let a = choose|a: int| node_set(from@).contains(a) && reach(eps_edge(g), a, b);
                    lemma_reach_same(adj_edge(adj@), eps_edge(g), a, b);
                    assert(reach_from_set(adj_edge(adj@), node_set(from@), b));
                    lemma_closure_in_range(g, node_set(from@), b);
                }
            }
            assert(marked(marks@) =~= closure(g, node_set(from@)));
        }
        marks
    }
}

/// The states below `r` that a row of marks marks.
pub open spec fn marked_below(v: Seq<bool>, r: int) -> Set<int> {
    Set::new(|a: int| 0 <= a < r && a < v.len() && v[a])
}

/// The edges with a symbol among the first `j` of a list.
pub open spec fn symbol_paths(paths: Seq<(char, usize)>, j: int) -> Set<(char, usize)> {
    Set::new(|p: (char, usize)| p.0 != EPSILON && exists|i: int| 0 <= i < j && paths[i] == p)
}

impl NFA {
    /// The state with number `id` that stands for all marked states at once.
    pub fn merged_node(&self, id: Id, marks: &Vec<bool>) -> (node: NfaNode)
        requires
            marks@.len() == self.data@.len(),
        ensures
            node.id == id,
            node@ == merged(self.graph(), marked(marks@)),
    {
        let ghost g = self.graph();
        let n: usize = self.data.len();
        let mut node = NfaNode::new(id);
        let mut r: usize = 0;
        assert(node@.paths =~= merged_paths(g, marked_below(marks@, 0)));
        while r < n
            invariant
                r <= n,
                n == self.data@.len(),
                marks@.len() == n,
                g == self.graph(),
                node.id == id,
                node@.paths == merged_paths(g, marked_below(marks@, r as int)),
                node.is_terminal == accepting(g, marked_below(marks@, r as int)),
            decreases n - r,
        {
            let ghost base = merged_paths(g, marked_below(marks@, r as int));
            let ghost acc0 = accepting(g, marked_below(marks@, r as int));
            if marks[r] {
                let src = &self.data[r];
                if src.is_terminal {
                    node.is_terminal = true;
                }
                let mut j: usize = 0;
                assert(node@.paths =~= base.union(symbol_paths(src.paths@, 0)));
                while j < src.paths.len()
                    invariant
                        j <= src.paths@.len(),
                        node.id == id,
                        node.is_terminal == (acc0 || src.is_terminal),
                        node@.paths == base.union(symbol_paths(src.paths@, j as int)),
                    decreases src.paths.len() - j,
                {
                    let p: (char, Id) = src.paths[j];
                    if p.0 != EPSILON {
                        node.add_path(p.0, p.1);
                    }
                    assert(node@.paths =~= base.union(symbol_paths(src.paths@, j as int + 1))) by {
                        let before = symbol_paths(src.paths@, j as int);
                        let after = symbol_paths(src.paths@, j as int + 1);
                        assert forall|q: (char, usize)| after.contains(q) implies before.contains(q)
                            || q == p by {
                            let i = choose|i: int| 0 <= i < j + 1 && src.paths@[i] == q;
                            if i < j {
                            }
                        }
                        assert forall|q: (char, usize)| before.contains(q) implies after.contains(
                            q,
                        ) by {
                            let i = choose|i: int| 0 <= i < j && src.paths@[i] == q;
                            assert(0 <= i < j + 1 && src.paths@[i] == q);
                        }
                        if p.0 != EPSILON {
                            assert(src.paths@[j as int] == p);
                            assert(after.contains(p));
                        }
                    }
                    j += 1;
                }
                proof {
                    let lo = marked_below(marks@, r as int);
                    let hi = marked_below(marks@, r as int + 1);
                    assert(src@ == g[r as int]);
                    assert forall|q: (char, usize)|
                        merged_paths(g, hi).contains(q) <==> base.union(
                            symbol_paths(src.paths@, src.paths@.len() as int),
                        ).contains(q) by {
                        if merged_paths(g, hi).contains(q) {
                            let x = choose|x: int|
                                hi.contains(x) && 0 <= x < g.len() && g[x].paths.contains(q);
                            if x < r {
                                assert(lo.contains(x));
                            } else {
                                let i = choose|i: int|
                                    0 <= i < src.paths@.len() && src.paths@[i] == q;
                                assert(symbol_paths(src.paths@, src.paths@.len() as int).contains(q));
                            }
                        }
                        if base.contains(q) {
                            let x = choose|x: int|
                                lo.contains(x) && 0 <= x < g.len() && g[x].paths.contains(q);
                            assert(hi.contains(x));
                        }
                        if symbol_paths(src.paths@, src.paths@.len() as int).contains(q) {
                            let i = choose|i: int| 0 <= i < src.paths@.len() && src.paths@[i] == q;
                            assert(src.paths@.contains(q));
                            assert(hi.contains(r as int));
                            assert(g[r as int].paths.contains(q));
                        }
                    }
                    assert(node@.paths =~= merged_paths(g, hi));
                    if accepting(g, hi) {
                        let x = choose|x: int| hi.contains(x) && 0 <= x < g.len() && g[x].is_terminal;
                        if x < r {
                            assert(lo.contains(x));
                        }
                    }
                    if acc0 {
                        let x = choose|x: int| lo.contains(x) && 0 <= x < g.len() && g[x].is_terminal;
                        assert(hi.contains(x));
                    }
                    if src.is_terminal {
                        assert(hi.contains(r as int));
                    }
                }
            } else {
                proof {
                    let lo = marked_below(marks@, r as int);
                    let hi = marked_below(marks@, r as int + 1);
                    assert(lo =~= hi);
                }
            }
            r += 1;
        }
        assert(marked_below(marks@, n as int) =~= marked(marks@));
        node
    }

    /// Removes the empty-label edges: each state takes over the edges with a
    /// symbol of every state that it reached by empty-label edges alone, and
    /// accepts if one of those states did.
    pub fn remove_epsilons(&mut self)
        requires
            old(self).wf(),
        ensures
            final(self).wf(),
            final(self).graph() == spec_remove_eps(old(self).graph()),
            eps_free(final(self).graph()),
            final(self).cur_last == old(self).cur_last,
            final(self).regex == old(self).regex,
            final(self).flags == old(self).flags,
            forall|w: Seq<char>|
                nfa_accepts(final(self).graph(), w) == nfa_accepts(old(self).graph(), w),
    {
        let ghost g = self.graph();
        let n: usize = self.data.len();
        let mut data: Vec<NfaNode> = Vec::new();
        let mut s: usize = 0;
        while s < n
            invariant
                s <= n,
                n == self.data@.len(),
                self.wf(),
                g == self.graph(),
                data@.len() == s,
                forall|k: int| 0 <= k < s ==> (#[trigger] data@[k]).id == k,
                forall|k: int| 0 <= k < s ==> (#[trigger] data@[k])@ == remove_eps_node(g, k),
            decreases n - s,
        {
            let mut from: Vec<Id> = Vec::new();
            from.push(s);
            let marks = self.follow_epsilon(&from);
            assert(node_set(from@) =~= set![s as int]) by {
                assert(from@[0] == s);
                assert forall|a: int| node_set(from@).contains(a) implies a == s by {
                    let k = choose|k: int| 0 <= k < from@.len() && from@[k] == a as usize;
                }
                assert(from@.contains(s));
            }
            let node = self.merged_node(s, &marks);
            data.push(node);
            s += 1;
        }
        self.data = data;
        proof {
            assert(self.graph() =~= spec_remove_eps(g));
            lemma_remove_eps_free(g);
            assert forall|w: Seq<char>| nfa_accepts(self.graph(), w) == nfa_accepts(g, w) by {
                lemma_remove_eps_language(g, w);
            }
        }
    }
}

/// From states of the automaton, empty-label edges lead to states of it.
pub proof fn lemma_closure_in_range(g: Seq<NodeModel>, s: Set<int>, b: int)
    requires
        graph_closed(g),
        forall|a: int| s.contains(a) ==> 0 <= a < g.len(),
        closure(g, s).contains(b),
    ensures
        0 <= b < g.len(),
{
    let a = choose|a: int| s.contains(a) && reach(eps_edge(g), a, b);
    let n = choose|n: nat| reach_in(eps_edge(g), a, b, n);
    let inside = |x: int| 0 <= x < g.len();
    assert forall|x: int, y: int| inside(x) && #[trigger] eps_edge(g)(x, y) implies inside(y) by {
        assert(g[x].paths.contains((EPSILON, y as usize)));
    }
    crate::graph::lemma_closed_holds_reach(eps_edge(g), inside, a, b, n);
}

} // verus!
