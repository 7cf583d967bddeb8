//! The deterministic automaton and its matcher.

use crate::chars::str_to_chars;
use crate::class::EPSILON;
use crate::determinize::has_symbol;
use crate::language::{
    accepting,
    deterministic,
    eps_free,
    lemma_closure_identity,
    lemma_run_empty,
    nfa_accepts,
    run,
    step,
};
use crate::nfa::{has_edge, Id, NfaNode, NodeModel, NFA};
use vstd::prelude::*;

verus! {

/// A state of a deterministic automaton: at most one edge for each symbol.
#[derive(Debug)]
pub struct DfaNode {
    pub id: Id,
    pub is_terminal: bool,
    pub paths: Vec<(char, Id)>,
}

/// A deterministic automaton. State zero is where it starts. A state that
/// has been removed leaves its place empty, so that the others keep their
/// numbers.
#[derive(Debug)]
pub struct DFA {
    pub regex: String,
    pub flags: Vec<char>,
    pub data: Vec<Option<DfaNode>>,
}

impl View for DfaNode {
    type V = NodeModel;

    open spec fn view(&self) -> NodeModel {
        NodeModel { is_terminal: self.is_terminal, paths: self.paths@.to_set() }
    }
}

/// The state that stands in an empty place: it accepts nothing and leads
/// nowhere.
pub open spec fn no_node() -> NodeModel {
    NodeModel { is_terminal: false, paths: Set::empty() }
}

/// The value of a place of a deterministic automaton.
pub open spec fn slot_view(slot: Option<DfaNode>) -> NodeModel {
    match slot {
        Some(node) => node@,
        None => no_node(),
    }
}

/// The state that the symbol `c` leads to from the state `k`.
pub open spec fn next_state(g: Seq<NodeModel>, k: int, c: char) -> int {
    choose|t: int| has_edge(g, k, c, t)
}

/// Whether a deterministic automaton, being in the state `k`, accepts the
/// input `w`: each symbol in turn must have an edge, which is followed, and
/// the state reached at the end must accept.
pub open spec fn walk(g: Seq<NodeModel>, k: int, w: Seq<char>) -> bool
    decreases w.len(),
{
    if w.len() == 0 {
        0 <= k < g.len() && g[k].is_terminal
    } else if w[0] != EPSILON && exists|t: int| has_edge(g, k, w[0], t) {
        walk(g, next_state(g, k, w[0]), w.drop_first())
    } else {
        false
    }
}

/// On a deterministic automaton without empty-label edges, following the
/// one run there is decides what following all runs decides.
pub proof fn lemma_walk_is_run(g: Seq<NodeModel>, k: int, w: Seq<char>)
    requires
        eps_free(g),
        deterministic(g),
    ensures
        walk(g, k, w) == run(g, set![k], w),
    decreases w.len(),
{
    if w.len() == 0 {
        if accepting(g, set![k]) {
            let a = choose|a: int| set![k].contains(a) && 0 <= a < g.len() && g[a].is_terminal;
            assert(a == k);
        }
        if 0 <= k < g.len() && g[k].is_terminal {
            assert(set![k].contains(k));
        }
    } else {
        let c = w[0];
        let rest = w.drop_first();
        let from = step(g, set![k], c);
        lemma_closure_identity(g, from);
        if c != EPSILON && exists|t: int| has_edge(g, k, c, t) {
            let t = next_state(g, k, c);
            assert(from =~= set![t]) by {
                assert(set![k].contains(k));
                assert forall|x: int| from.contains(x) implies x == t by {
                    let a = choose|a: int| set![k].contains(a) && has_edge(g, a, c, x);
                    assert(a == k);
                    assert(g[k].paths.contains((c, x as usize)));
                    assert(g[k].paths.contains((c, t as usize)));
                }
            }
            lemma_walk_is_run(g, t, rest);
        } else {
            assert(from =~= Set::<int>::empty()) by {
                assert forall|x: int| !from.contains(x) by {
                    if from.contains(x) {
                        let a = choose|a: int| set![k].contains(a) && has_edge(g, a, c, x);
                        assert(a == k);
                    }
                }
            }
            lemma_run_empty(g, rest);
        }
    }
}

/// On a deterministic automaton without empty-label edges, the walk from
/// the start state accepts what the automaton accepts.
pub proof fn lemma_walk_is_accepts(g: Seq<NodeModel>, w: Seq<char>)
    requires
        eps_free(g),
        deterministic(g),
    ensures
        walk(g, 0, w) == nfa_accepts(g, w),
{
    lemma_closure_identity(g, set![0int]);
    lemma_walk_is_run(g, 0, w);
}

impl DfaNode {
    /// A state without edges that does not accept.
    pub fn new(id: Id) -> (node: DfaNode)
        ensures
            node.id == id,
            node@ == no_node(),
    {
        let node = DfaNode { id, is_terminal: false, paths: Vec::new() };
        assert(node.paths@.to_set() =~= Set::<(char, usize)>::empty());
        node
    }

    /// The state of a nondeterministic automaton, taken over as it is.
    pub fn from(nfa_node: &NfaNode) -> (node: DfaNode)
        ensures
            node.id == nfa_node.id,
            node@ == nfa_node@,
    {
        let mut paths: Vec<(char, Id)> = Vec::new();
        let mut i: usize = 0;
        while i < nfa_node.paths.len()
            invariant
                i <= nfa_node.paths@.len(),
                paths@ == nfa_node.paths@.subrange(0, i as int),
            decreases nfa_node.paths.len() - i,
        {
            paths.push(nfa_node.paths[i]);
            assert(nfa_node.paths@.subrange(0, i as int + 1) == nfa_node.paths@.subrange(
                0,
                i as int,
            ).push(nfa_node.paths@[i as int]));
            i += 1;
        }
        assert(nfa_node.paths@.subrange(0, nfa_node.paths@.len() as int) == nfa_node.paths@);
        DfaNode { id: nfa_node.id, is_terminal: nfa_node.is_terminal, paths }
    }

    /// A copy of the state.
    pub fn clone(&self) -> (node: DfaNode)
        ensures
            node.id == self.id,
            node.is_terminal == self.is_terminal,
            node.paths@ == self.paths@,
            node@ == self@,
    {
        let mut paths: Vec<(char, Id)> = Vec::new();
        let mut i: usize = 0;
        while i < self.paths.len()
            invariant
                i <= self.paths@.len(),
                paths@ == self.paths@.subrange(0, i as int),
            decreases self.paths.len() - i,
        {
            paths.push(self.paths[i]);
            assert(self.paths@.subrange(0, i as int + 1) == self.paths@.subrange(0, i as int).push(
                self.paths@[i as int],
            ));
            i += 1;
        }
        assert(self.paths@.subrange(0, self.paths@.len() as int) == self.paths@);
        DfaNode { id: self.id, is_terminal: self.is_terminal, paths }
    }

    /// Makes the symbol `ch` lead to `node_id`, whatever it led to before.
    pub fn add_path(&mut self, ch: char, node_id: Id)
        ensures
            final(self).id == old(self).id,
            final(self).is_terminal == old(self).is_terminal,
            final(self)@.paths == Set::new(
                |p: (char, usize)| (p.0 != ch && old(self)@.paths.contains(p)) || p == (ch, node_id),
            ),
    {
        let mut paths: Vec<(char, Id)> = Vec::new();
        let mut i: usize = 0;
        while i < self.paths.len()
            invariant
                i <= self.paths@.len(),
                forall|p: (char, usize)|
                    paths@.contains(p) <==> p.0 != ch && exists|k: int|
                        0 <= k < i && self.paths@[k] == p,
            decreases self.paths.len() - i,
        {
            let q: (char, Id) = self.paths[i];
            let ghost before = paths@;
            if q.0 != ch {
                paths.push(q);
            }
            assert forall|p: (char, usize)|
                paths@.contains(p) <==> p.0 != ch && exists|k: int|
                    0 <= k < i + 1 && self.paths@[k] == p by {
                if paths@.contains(p) {
                    let j = choose|j: int| 0 <= j < paths@.len() && paths@[j] == p;
                    if j < before.len() {
                        assert(before.contains(p));
                        let k = choose|k: int| 0 <= k < i && self.paths@[k] == p;
                        assert(0 <= k < i + 1 && self.paths@[k] == p);
                    } else {
                        assert(self.paths@[i as int] == p);
                    }
                }
                if p.0 != ch && exists|k: int| 0 <= k < i + 1 && self.paths@[k] == p {
                    let k = choose|k: int| 0 <= k < i + 1 && self.paths@[k] == p;
                    if k < i {
                        assert(before.contains(p));
                        let j = choose|j: int| 0 <= j < before.len() && before[j] == p;
                        assert(paths@[j] == p);
                    } else {
                        assert(paths@[before.len() as int] == p);
                    }
                }
            }
            i += 1;
        }
        let ghost kept = paths@;
        paths.push((ch, node_id));
        let ghost was = self@.paths;
        self.paths = paths;
        let ghost want = Set::new(
            |p: (char, usize)| (p.0 != ch && was.contains(p)) || p == (ch, node_id),
        );
        assert(self@.paths =~= want) by {
            assert forall|p: (char, usize)| self@.paths.contains(p) <==> want.contains(p) by {
                if self@.paths.contains(p) {
                    let j = choose|j: int| 0 <= j < self.paths@.len() && self.paths@[j] == p;
                    if j < kept.len() {
                        assert(kept.contains(p));
                        let k = choose|k: int|
                            0 <= k < old(self).paths@.len() && old(self).paths@[k] == p;
                        assert(old(self).paths@.contains(p));
                    }
                }
                if p.0 != ch && was.contains(p) {
                    let k = choose|k: int|
                        0 <= k < old(self).paths@.len() && old(self).paths@[k] == p;
                    assert(0 <= k < old(self).paths@.len() && old(self).paths@[k] == p);
                    assert(kept.contains(p));
                    let j = choose|j: int| 0 <= j < kept.len() && kept[j] == p;
                    assert(self.paths@[j] == p);
                }
                if p == (ch, node_id) {
                    assert(self.paths@[kept.len() as int] == p);
                }
            }
        }
    }

    /// The state that the symbol `ch` leads to, if it leads anywhere.
    pub fn follow(&self, ch: char) -> (r: Option<Id>)
        ensures
            match r {
                Some(t) => self@.paths.contains((ch, t)),
                None => !has_symbol(self@, ch),
            },
    {
        let mut i: usize = 0;
        while i < self.paths.len()
            invariant
                i <= self.paths@.len(),
                forall|k: int| 0 <= k < i ==> self.paths@[k].0 != ch,
            decreases self.paths.len() - i,
        {
            let p: (char, Id) = self.paths[i];
            if p.0 == ch {
                assert(self.paths@.contains(p));
                return Some(p.1);
            }
            i += 1;
        }
        assert(!has_symbol(self@, ch)) by {
            if has_symbol(self@, ch) {
                let j = choose|j: usize| self@.paths.contains((ch, j));
                let k = choose|k: int| 0 <= k < self.paths@.len() && self.paths@[k] == (ch, j);
                assert(self.paths@[k].0 == ch);
            }
        }
        None
    }
}

impl DFA {
    /// The states of the automaton, as values; an empty place counts as a
    /// state that accepts nothing and leads nowhere.
    pub open spec fn graph(&self) -> Seq<NodeModel> {
        Seq::new(self.data@.len(), |i: int| slot_view(self.data@[i]))
    }

    /// The numbers of the states that the automaton has.
    pub open spec fn alive(&self) -> Set<int> {
        Set::new(|i: int| 0 <= i < self.data@.len() && self.data@[i].is_some())
    }

    /// Whether the automaton is well formed: it has its start state, each
    /// state carries its own number, every edge leads to a state that the
    /// automaton has, no edge has the empty label and no state has two edges
    /// with one symbol.
    pub open spec fn wf(&self) -> bool {
        &&& self.data@.len() >= 1
        &&& self.data@[0].is_some()
        &&& forall|i: int|
            0 <= i < self.data@.len() && (#[trigger] self.data@[i]).is_some()
                ==> self.data@[i].unwrap().id == i
        &&& forall|a: int, p: (char, usize)|
            0 <= a < self.data@.len() && #[trigger] self.graph()[a].paths.contains(p)
                ==> self.alive().contains(p.1 as int)
        &&& eps_free(self.graph())
        &&& deterministic(self.graph())
    }

    /// Whether the automaton accepts `w`.
    pub open spec fn accepts(&self, w: Seq<char>) -> bool {
        walk(self.graph(), 0, w)
    }

    /// An automaton without states yet, for the pattern `regex` and its
    /// `flags`.
    pub fn new(regex: String, flags: Vec<char>) -> (dfa: DFA)
        ensures
            dfa.regex@ == regex@,
            dfa.flags@ == flags@,
            dfa.data@.len() == 0,
    {
        DFA { regex, flags, data: Vec::new() }
    }

    /// The start state.
    pub fn get_front(&self) -> (node: &DfaNode)
        requires
            self.wf(),
        ensures
            self.data@[0] == Some(*node),
    {
        self.data[0].as_ref().unwrap()
    }

    /// The state with the number `id`, if the automaton has it.
    pub fn get_node(&self, id: Id) -> (r: Option<&DfaNode>)
        ensures
            match r {
                Some(node) => id < self.data@.len() && self.data@[id as int] == Some(*node),
                None => id >= self.data@.len() || self.data@[id as int].is_none(),
            },
    {
        if id < self.data.len() {
            self.data[id].as_ref()
        } else {
            None
        }
    }

    /// Whether the automaton accepts `input`: from the start state each
    /// symbol is followed in turn; a symbol without an edge rejects at once,
    /// and at the end of the input the state reached decides.
    pub fn matches(&self, input: &str) -> (r: bool)
        requires
            self.wf(),
        ensures
            r == self.accepts(input@),
    {
        let ghost g = self.graph();
        let w = str_to_chars(input);
        let mut cur: Id = 0;
        let mut i: usize = 0;
        assert(w@.subrange(0, w@.len() as int) == w@);
        while i < w.len()
            invariant
                i <= w@.len(),
                w@ == input@,
                self.wf(),
                g == self.graph(),
                self.alive().contains(cur as int),
                walk(g, 0, w@) == walk(g, cur as int, w@.subrange(i as int, w@.len() as int)),
            decreases w.len() - i,
        {
            let ghost rest = w@.subrange(i as int, w@.len() as int);
            assert(rest.drop_first() == w@.subrange(i as int + 1, w@.len() as int));
            assert(rest[0] == w@[i as int]);
            let node = self.data[cur].as_ref().unwrap();
            assert(g[cur as int] == node@);
            match node.follow(w[i]) {
                Some(t) => {
                    proof {
                        assert(has_edge(g, cur as int, w@[i as int], t as int));
                        let t2 = next_state(g, cur as int, w@[i as int]);
                        assert(has_edge(g, cur as int, w@[i as int], t2));
                        assert(g[cur as int].paths.contains((w@[i as int], t2 as usize)));
                        assert(t2 == t);
                        assert(w@[i as int] != EPSILON);
                    }
                    cur = t;
                },
                None => {
                    proof {
                        if exists|t: int| has_edge(g, cur as int, w@[i as int], t) {
                            let t = choose|t: int| has_edge(g, cur as int, w@[i as int], t);
                            assert(g[cur as int].paths.contains((w@[i as int], t as usize)));
                            assert(has_symbol(node@, w@[i as int]));
                        }
                        assert(!walk(g, cur as int, rest));
                    }
                    return false;
                },
            }
            i += 1;
        }
        let node = self.data[cur].as_ref().unwrap();
        assert(g[cur as int] == node@);
        node.is_terminal
    }
}

impl NFA {
    /// The automaton as a deterministic one. It must be deterministic
    /// already: no empty-label edge, no state with two edges for a symbol.
    pub fn to_dfa(&self) -> (dfa: DFA)
        requires
            self.wf(),
            eps_free(self.graph()),
            deterministic(self.graph()),
        ensures
            dfa.wf(),
            dfa.graph() == self.graph(),
            dfa.regex@ == self.regex@,
            dfa.flags@ == self.flags@,
            forall|i: int| 0 <= i < self.data@.len() ==> dfa.alive().contains(i),
    {
        let mut flags: Vec<char> = Vec::new();
        let mut k: usize = 0;
        while k < self.flags.len()
            invariant
                k <= self.flags@.len(),
                flags@ == self.flags@.subrange(0, k as int),
            decreases self.flags.len() - k,
        {
            flags.push(self.flags[k]);
            assert(self.flags@.subrange(0, k as int + 1) == self.flags@.subrange(0, k as int).push(
                self.flags@[k as int],
            ));
            k += 1;
        }
        assert(self.flags@.subrange(0, self.flags@.len() as int) == self.flags@);
        let mut dfa = DFA::new(self.regex.clone(), flags);
        let mut i: usize = 0;
        while i < self.data.len()
            invariant
                i <= self.data@.len(),
                dfa.regex@ == self.regex@,
                dfa.flags@ == self.flags@,
                dfa.data@.len() == i,
                forall|x: int|
                    0 <= x < i ==> (#[trigger] dfa.data@[x]).is_some() && dfa.data@[x].unwrap().id
                        == self.data@[x].id && dfa.data@[x].unwrap()@ == self.data@[x]@,
            decreases self.data.len() - i,
        {
            dfa.data.push(Some(DfaNode::from(&self.data[i])));
            i += 1;
        }
        proof {
            assert(dfa.graph() =~= self.graph());
            assert forall|a: int, p: (char, usize)|
                0 <= a < dfa.data@.len() && #[trigger] dfa.graph()[a].paths.contains(
                    p,
                ) implies dfa.alive().contains(p.1 as int) by {
                assert(self.graph()[a].paths.contains(p));
            }
        }
        dfa
    }
}

} // verus!
