//! Compiling a pattern: from its text to the deterministic automaton that
//! the matcher runs.

use crate::build_spec::spec_build;
use crate::dfa::{lemma_walk_is_accepts, walk};
use crate::language::nfa_accepts;
use crate::parse_regex::{spec_process_regex, RegexError};
use crate::prune::{
    any_edge,
    lemma_cleaned_live,
    lemma_cleaned_reach,
    lemma_purged_reachable,
    live,
    reachable,
};
use crate::graph::reach_in;
use vstd::prelude::*;

pub use crate::dfa::{DfaNode, DFA};
pub use crate::nfa::{Id, NfaNode, NFA};

verus! {

/// Whether the pattern `regex` is well formed and its automaton accepts the
/// input `w`.
pub open spec fn pattern_accepts(regex: Seq<char>, w: Seq<char>) -> bool {
    match spec_process_regex(regex) {
        Some((tokens, _)) => nfa_accepts(spec_build(tokens).nodes, w),
        None => false,
    }
}

impl NFA {
    /// Whether this is the automaton that the pattern `regex` is built into.
    pub open spec fn built_from(&self, regex: Seq<char>) -> bool {
        &&& self.wf()
        &&& spec_process_regex(regex).is_some()
        &&& self.built() == spec_build(spec_process_regex(regex).unwrap().0)
    }

    /// Whether the automaton accepts `w`.
    pub open spec fn accepts(&self, w: Seq<char>) -> bool {
        nfa_accepts(self.graph(), w)
    }
}

impl DFA {
    /// Whether this automaton accepts exactly what the automaton built from
    /// the pattern `regex` accepts.
    pub open spec fn recognizes(&self, regex: Seq<char>) -> bool {
        &&& self.wf()
        &&& spec_process_regex(regex).is_some()
        &&& forall|w: Seq<char>| self.accepts(w) == pattern_accepts(regex, w)
    }

    /// Whether the automaton is pruned: each of its states but the start
    /// state can be reached from the start state and reaches an accepting
    /// state.
    pub open spec fn pruned(&self) -> bool {
        forall|i: int|
            #[trigger] self.alive().contains(i) && i != 0 ==> reachable(self.graph(), i) && live(
                self.graph(),
                i,
            )
    }

    /// Compiles a pattern into a deterministic automaton: the pattern is
    /// built into a nondeterministic automaton, which is freed of its
    /// empty-label edges, made deterministic and pruned.
    ///
    /// Fails with `MalformedPattern` exactly where the pattern cannot be
    /// tokenized.
    pub fn from(regex: String) -> (r: Result<DFA, RegexError>)
        ensures
            match r {
                Ok(dfa) => {
                    &&& dfa.recognizes(regex@)
                    &&& dfa.pruned()
                    &&& dfa.regex@ == regex@
                    &&& dfa.flags@ == spec_process_regex(regex@).unwrap().1
                },
                Err(_) => spec_process_regex(regex@).is_none(),
            },
    {
        let mut nfa = match NFA::from(regex) {
            Ok(nfa) => nfa,
            Err(e) => {
                return Err(e);
            },
        };
        let ghost g0 = nfa.graph();
        nfa.make_dfa();
        let ghost g1 = nfa.graph();
        let mut dfa = nfa.to_dfa();
        dfa.purge();
        let ghost g2 = dfa.graph();
        dfa.clean();
        proof {
            assert forall|i: int| #[trigger] dfa.alive().contains(i) && i != 0 implies reachable(
                dfa.graph(),
                i,
            ) && live(dfa.graph(), i) by {
                lemma_cleaned_live(g2, i);
                lemma_purged_reachable(g1, i);
                let n = choose|n: nat| reach_in(any_edge(g2), 0, i, n);
                lemma_cleaned_reach(g2, 0, i, n);
            }
            assert forall|w: Seq<char>| dfa.accepts(w) == pattern_accepts(regex@, w) by {
                lemma_walk_is_accepts(g1, w);
                assert(walk(g1, 0, w) == nfa_accepts(g0, w));
            }
        }
        Ok(dfa)
    }
}

/// Compiles a pattern into the automaton that [`matches`] runs.
///
/// Fails with `MalformedPattern` exactly where the pattern cannot be
/// tokenized; no automaton is returned then.
pub fn compile(pattern: &str) -> (r: Result<DFA, RegexError>)
    ensures
        match r {
            Ok(dfa) => {
                &&& dfa.recognizes(pattern@)
                &&& dfa.pruned()
                &&& dfa.regex@ == pattern@
                &&& dfa.flags@ == spec_process_regex(pattern@).unwrap().1
            },
            Err(_) => spec_process_regex(pattern@).is_none(),
        },
{
    DFA::from(pattern.to_owned())
}

/// Whether the automaton accepts the input. The automaton is not changed.
pub fn matches(automaton: &DFA, input: &str) -> (r: bool)
    requires
        automaton.wf(),
    ensures
        r == automaton.accepts(input@),
{
    automaton.matches(input)
}

} // verus!
