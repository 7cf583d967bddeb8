//! Checking automata that were put together by hand.

use crate::class::EPSILON;
use crate::determinize::{paths_are_dfa, paths_dfa};
use crate::dfa::{no_node, DFA};
use crate::language::{deterministic, eps_free};
use crate::nfa::{graph_closed, Id, NFA};
use crate::parse_regex::RegexError;
use vstd::prelude::*;

verus! {

/// Whether every edge of a list leads to a state below `len`.
fn targets_below(paths: &Vec<(char, Id)>, len: usize) -> (r: bool)
    ensures
        r == forall|p: (char, usize)| paths@.to_set().contains(p) ==> p.1 < len,
{
    let mut j: usize = 0;
    while j < paths.len()
        invariant
            j <= paths@.len(),
            forall|i: int| 0 <= i < j ==> (#[trigger] paths@[i]).1 < len,
        decreases paths.len() - j,
    {
        if paths[j].1 >= len {
            assert(paths@.to_set().contains(paths@[j as int]));
            return false;
        }
        j += 1;
    }
    assert forall|p: (char, usize)| paths@.to_set().contains(p) implies p.1 < len by {
        let i = choose|i: int| 0 <= i < paths@.len() && paths@[i] == p;
        assert(paths@[i].1 < len);
    }
    true
}

impl NFA {
    /// Checks that the automaton is well formed.
    ///
    /// Fails with `InvalidAutomaton` exactly where it is not: it has no
    /// state, a state does not carry its own number, an edge leads to a
    /// state that is not there, or `cur_last` does.
    pub fn validate(&self) -> (r: Result<(), RegexError>)
        ensures
            r.is_ok() == self.wf(),
            r.is_err() ==> r == Err::<(), RegexError>(RegexError::InvalidAutomaton),
    {
        let n: usize = self.data.len();
        if n == 0 || self.cur_last >= n {
            return Err(RegexError::InvalidAutomaton);
        }
        let ghost g = self.graph();
        let mut a: usize = 0;
        while a < n
            invariant
                a <= n,
                n == self.data@.len(),
                g == self.graph(),
                forall|i: int| 0 <= i < a ==> (#[trigger] self.data@[i]).id == i,
                forall|i: int, p: (char, usize)|
                    0 <= i < a && #[trigger] g[i].paths.contains(p) ==> p.1 < n,
            decreases n - a,
        {
            if self.data[a].id != a {
                return Err(RegexError::InvalidAutomaton);
            }
            if !targets_below(&self.data[a].paths, n) {
                assert(g[a as int].paths == self.data@[a as int].paths@.to_set());
                let ghost p = choose|p: (char, usize)| g[a as int].paths.contains(p) && !(p.1 < n);
                assert(g[a as int].paths.contains(p));
                assert(!graph_closed(g));
                return Err(RegexError::InvalidAutomaton);
            }
            assert(g[a as int].paths == self.data@[a as int].paths@.to_set());
            a += 1;
        }
        Ok(())
    }
}

impl DFA {
    /// Checks that the automaton is well formed.
    ///
    /// Fails with `InvalidAutomaton` exactly where it is not: the start
    /// state is missing, a state does not carry its own number, an edge
    /// leads to a state that is not there, an edge has the empty label, or
    /// a state has two edges with one symbol.
    pub fn validate(&self) -> (r: Result<(), RegexError>)
        ensures
            r.is_ok() == self.wf(),
            r.is_err() ==> r == Err::<(), RegexError>(RegexError::InvalidAutomaton),
    {
        let n: usize = self.data.len();
        if n == 0 || self.data[0].is_none() {
            return Err(RegexError::InvalidAutomaton);
        }
        let ghost g = self.graph();
        let mut a: usize = 0;
        while a < n
            invariant
                a <= n,
                n == self.data@.len(),
                g == self.graph(),
                forall|i: int|
                    0 <= i < a && (#[trigger] self.data@[i]).is_some() ==> self.data@[i].unwrap().id
                        == i,
                forall|i: int, p: (char, usize)|
                    0 <= i < a && #[trigger] g[i].paths.contains(p) ==> self.alive().contains(
                        p.1 as int,
                    ),
                forall|i: int| 0 <= i < a ==> paths_dfa(#[trigger] g[i].paths),
            decreases n - a,
        {
            match &self.data[a] {
                Some(node) => {
                    assert(g[a as int].paths == node.paths@.to_set());
                    if node.id != a {
                        return Err(RegexError::InvalidAutomaton);
                    }
                    if !paths_are_dfa(&node.paths) {
                        proof {
                            if eps_free(g) && deterministic(g) {
                                assert(paths_dfa(g[a as int].paths));
                            }
                        }
                        return Err(RegexError::InvalidAutomaton);
                    }
                    let mut j: usize = 0;
                    while j < node.paths.len()
                        invariant
                            j <= node.paths@.len(),
                            a < n,
                            n == self.data@.len(),
                            g == self.graph(),
                            g[a as int].paths == node.paths@.to_set(),
                            forall|i: int|
                                0 <= i < j ==> self.alive().contains(
                                    (#[trigger] node.paths@[i]).1 as int,
                                ),
                        decreases node.paths.len() - j,
                    {
                        let t: Id = node.paths[j].1;
                        if t >= n || self.data[t].is_none() {
                            assert(node.paths@.to_set().contains(node.paths@[j as int]));
                            assert(g[a as int].paths.contains(node.paths@[j as int]));
                            return Err(RegexError::InvalidAutomaton);
                        }
                        j += 1;
                    }
                    assert forall|p: (char, usize)| g[a as int].paths.contains(
                        p,
                    ) implies self.alive().contains(p.1 as int) by {
                        let i = choose|i: int| 0 <= i < node.paths@.len() && node.paths@[i] == p;
                        assert(self.alive().contains(node.paths@[i].1 as int));
                    }
                },
                None => {
                    assert(g[a as int] == no_node());
                },
            }
            a += 1;
        }
        proof {
            assert forall|x: int, b: usize| 0 <= x < g.len() implies !(#[trigger] g[x].paths.contains(
                (EPSILON, b),
            )) by {
                assert(paths_dfa(g[x].paths));
            }
            assert forall|x: int, c: char, t1: usize, t2: usize|
                0 <= x < g.len() && #[trigger] g[x].paths.contains((c, t1))
                    && #[trigger] g[x].paths.contains((c, t2)) implies t1 == t2 by {
                assert(paths_dfa(g[x].paths));
            }
        }
        Ok(())
    }
}

} // verus!
