//! What an automaton accepts: the simulation of all its runs at once.

use crate::class::EPSILON;
use crate::graph::{reach, reach_from_set, reach_in};
use crate::nfa::{has_edge, NodeModel};
use vstd::prelude::*;

verus! {

/// The relation "has an empty-label edge to" of an automaton.
pub open spec fn eps_edge(g: Seq<NodeModel>) -> spec_fn(int, int) -> bool {
    |a: int, b: int| has_edge(g, a, EPSILON, b)
}

/// The states that can be reached from states of `s` along empty-label edges
/// alone, the states of `s` included.
pub open spec fn closure(g: Seq<NodeModel>, s: Set<int>) -> Set<int> {
    Set::new(|b: int| reach_from_set(eps_edge(g), s, b))
}

/// The states that an edge with the symbol `c` reaches from a state of `s`.
/// The empty label is no symbol: it reaches nothing.
pub open spec fn step(g: Seq<NodeModel>, s: Set<int>, c: char) -> Set<int> {
    Set::new(|t: int| c != EPSILON && exists|a: int| s.contains(a) && has_edge(g, a, c, t))
}

/// Whether some state of `s` accepts.
pub open spec fn accepting(g: Seq<NodeModel>, s: Set<int>) -> bool {
    exists|a: int| s.contains(a) && 0 <= a < g.len() && g[a].is_terminal
}

/// Whether the automaton, being in the states `s`, accepts the input `w`:
/// each symbol in turn is followed from every state, then empty-label edges
/// are followed as far as they lead, and at the end of the input some state
/// reached must accept.
pub open spec fn run(g: Seq<NodeModel>, s: Set<int>, w: Seq<char>) -> bool
    decreases w.len(),
{
    if w.len() == 0 {
        accepting(g, s)
    } else {
        run(g, closure(g, step(g, s, w[0])), w.drop_first())
    }
}

/// Whether the automaton accepts `w` from its start state.
pub open spec fn nfa_accepts(g: Seq<NodeModel>, w: Seq<char>) -> bool {
    run(g, closure(g, set![0int]), w)
}

/// Whether the automaton has no empty-label edge.
pub open spec fn eps_free(g: Seq<NodeModel>) -> bool {
    forall|a: int, b: usize| 0 <= a < g.len() ==> !(#[trigger] g[a].paths.contains((EPSILON, b)))
}

/// Whether no state has two edges with one symbol.
pub open spec fn deterministic(g: Seq<NodeModel>) -> bool {
    forall|a: int, c: char, t1: usize, t2: usize|
        0 <= a < g.len() && #[trigger] g[a].paths.contains((c, t1)) && #[trigger] g[a].paths.contains(
            (c, t2),
        ) ==> t1 == t2
}

/// Without empty-label edges a state reaches itself alone.
pub proof fn lemma_eps_free_reach(g: Seq<NodeModel>, a: int, b: int, n: nat)
    requires
        eps_free(g),
        reach_in(eps_edge(g), a, b, n),
    ensures
        a == b,
    decreases n,
{
    if n == 0 {
    } else if reach_in(eps_edge(g), a, b, (n - 1) as nat) {
        lemma_eps_free_reach(g, a, b, (n - 1) as nat);
    } else {
        let m = choose|m: int|
            reach_in(eps_edge(g), a, m, (n - 1) as nat) && #[trigger] eps_edge(g)(m, b);
        assert(has_edge(g, m, EPSILON, b));
        assert(g[m].paths.contains((EPSILON, b as usize)));
    }
}

/// Every set lies in its closure.
pub proof fn lemma_closure_holds(g: Seq<NodeModel>, s: Set<int>, a: int)
    requires
        s.contains(a),
    ensures
        closure(g, s).contains(a),
{
    crate::graph::lemma_reach_self(eps_edge(g), a);
}

/// Without empty-label edges the closure of a set is the set.
pub proof fn lemma_closure_identity(g: Seq<NodeModel>, s: Set<int>)
    requires
        eps_free(g),
    ensures
        closure(g, s) == s,
{
    assert forall|b: int| closure(g, s).contains(b) implies s.contains(b) by {
        let a = choose|a: int| s.contains(a) && reach(eps_edge(g), a, b);
        let n = choose|n: nat| reach_in(eps_edge(g), a, b, n);
        lemma_eps_free_reach(g, a, b, n);
    }
    assert forall|b: int| s.contains(b) implies closure(g, s).contains(b) by {
        lemma_closure_holds(g, s, b);
    }
    assert(closure(g, s) =~= s);
}

/// From no state at all nothing is accepted.
pub proof fn lemma_run_empty(g: Seq<NodeModel>, w: Seq<char>)
    ensures
        !run(g, Set::empty(), w),
    decreases w.len(),
{
    if w.len() > 0 {
        assert(step(g, Set::empty(), w[0]) =~= Set::empty());
        assert(closure(g, Set::<int>::empty()) =~= Set::empty());
        lemma_run_empty(g, w.drop_first());
    }
}

} // verus!
