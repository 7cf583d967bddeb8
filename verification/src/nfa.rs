//! The nondeterministic automaton: its states, its value and the two
//! operations that every construction is made of.

use vstd::prelude::*;

verus! {

/// The number of a state, unique within its automaton.
pub type Id = usize;

/// A state of a nondeterministic automaton.
#[derive(Debug)]
pub struct NfaNode {
    pub id: Id,
    pub is_terminal: bool,
    /// The outgoing edges: a symbol, or the empty label, and the target.
    pub paths: Vec<(char, Id)>,
}

/// A nondeterministic automaton. Its states are numbered from zero, state
/// zero is where it starts, and `cur_last` is the state at which the pattern
/// read so far ends.
#[derive(Debug)]
pub struct NFA {
    pub regex: String,
    pub flags: Vec<char>,
    pub data: Vec<NfaNode>,
    pub cur_last: Id,
}

/// The value of a state: whether it accepts, and its set of edges.
pub struct NodeModel {
    pub is_terminal: bool,
    pub paths: Set<(char, usize)>,
}

/// The value of an automaton under construction: its states and the state
/// at which the pattern read so far ends.
pub struct Built {
    pub nodes: Seq<NodeModel>,
    pub cur: int,
}

impl View for NfaNode {
    type V = NodeModel;

    open spec fn view(&self) -> NodeModel {
        NodeModel { is_terminal: self.is_terminal, paths: self.paths@.to_set() }
    }
}

/// The values of a list of states.
pub open spec fn nodes_view(data: Seq<NfaNode>) -> Seq<NodeModel> {
    Seq::new(data.len(), |i: int| data[i]@)
}

/// Whether `g` has an edge from `a` to `b` with label `c`.
pub open spec fn has_edge(g: Seq<NodeModel>, a: int, c: char, b: int) -> bool {
    0 <= a < g.len() && 0 <= b <= usize::MAX && g[a].paths.contains((c, b as usize))
}

/// Whether every edge of `g` leads to a state of `g`.
pub open spec fn graph_closed(g: Seq<NodeModel>) -> bool {
    forall|a: int, p: (char, usize)|
        0 <= a < g.len() && #[trigger] g[a].paths.contains(p) ==> p.1 < g.len()
}

/// `g` with one more state, which does not accept and has no edges.
pub open spec fn g_add_node(g: Seq<NodeModel>) -> Seq<NodeModel> {
    g.push(NodeModel { is_terminal: false, paths: Set::empty() })
}

/// `g` with an edge from `from` to `to` with label `c`.
pub open spec fn g_add_edge(g: Seq<NodeModel>, from: int, c: char, to: int) -> Seq<NodeModel> {
    g.update(
        from,
        NodeModel {
            is_terminal: g[from].is_terminal,
            paths: g[from].paths.insert((c, to as usize)),
        },
    )
}

/// `g` with state `a` accepting.
pub open spec fn g_mark_terminal(g: Seq<NodeModel>, a: int) -> Seq<NodeModel> {
    g.update(a, NodeModel { is_terminal: true, paths: g[a].paths })
}

impl NfaNode {
    /// A state without edges that does not accept.
    pub fn new(id: Id) -> (node: NfaNode)
        ensures
            node.id == id,
            !node.is_terminal,
            node.paths@.len() == 0,
            node@.paths == Set::<(char, usize)>::empty(),
    {
        let node = NfaNode { id, is_terminal: false, paths: Vec::new() };
        assert(node.paths@.to_set() =~= Set::<(char, usize)>::empty());
        node
    }

    /// A copy of the state.
    pub fn clone(&self) -> (node: NfaNode)
        ensures
            node.id == self.id,
            node.is_terminal == self.is_terminal,
            node.paths@ == self.paths@,
            node@ == self@,
    {
        let mut paths: Vec<(char, Id)> = Vec::new();
        let mut i: usize = 0;
        while i < self.paths.len()
            invariant
                i <= self.paths@.len(),
                paths@ == self.paths@.subrange(0, i as int),
            decreases self.paths.len() - i,
        {
            paths.push(self.paths[i]);
            assert(self.paths@.subrange(0, i as int + 1) == self.paths@.subrange(0, i as int).push(
                self.paths@[i as int],
            ));
            i += 1;
        }
        assert(self.paths@.subrange(0, self.paths@.len() as int) == self.paths@);
        NfaNode { id: self.id, is_terminal: self.is_terminal, paths }
    }

    /// Whether the state has an edge to `node_id` with label `ch`.
    pub fn has_path(&self, ch: char, node_id: Id) -> (r: bool)
        ensures
            r == self@.paths.contains((ch, node_id)),
    {
        let mut i: usize = 0;
        while i < self.paths.len()
            invariant
                i <= self.paths@.len(),
                forall|j: int| 0 <= j < i ==> self.paths@[j] != (ch, node_id),
            decreases self.paths.len() - i,
        {
            let p: (char, Id) = self.paths[i];
            if p.0 == ch && p.1 == node_id {
                assert(self.paths@[i as int] == (ch, node_id));
                assert(self.paths@.contains((ch, node_id)));
                return true;
            }
            i += 1;
        }
        assert(!self.paths@.contains((ch, node_id)));
        false
    }

    /// Adds an edge to `node_id` with label `ch`, unless it is there already.
    pub fn add_path(&mut self, ch: char, node_id: Id)
        ensures
            final(self).id == old(self).id,
            final(self).is_terminal == old(self).is_terminal,
            final(self)@.paths == old(self)@.paths.insert((ch, node_id)),
    {
        if !self.has_path(ch, node_id) {
            let ghost before = self.paths@;
            self.paths.push((ch, node_id));
            assert(self.paths@.to_set() =~= before.to_set().insert((ch, node_id))) by {
                assert forall|p: (char, usize)| self.paths@.to_set().contains(p) implies before.to_set().insert(
                    (ch, node_id),
                ).contains(p) by {
                    let k = choose|k: int| 0 <= k < self.paths@.len() && self.paths@[k] == p;
                    if k < before.len() {
                        assert(before[k] == p);
                    }
                }
                assert forall|p: (char, usize)|
                    before.to_set().insert((ch, node_id)).contains(p) implies self.paths@.to_set().contains(
                    p,
                ) by {
                    if p == (ch, node_id) {
                        assert(self.paths@[before.len() as int] == p);
                    } else {
                        let k = choose|k: int| 0 <= k < before.len() && before[k] == p;
                        assert(self.paths@[k] == p);
                    }
                }
            }
        } else {
            assert(self@.paths =~= self@.paths.insert((ch, node_id)));
        }
    }
}

/// Whether every entry of `a` is an entry of `b`.
fn paths_within(a: &Vec<(char, Id)>, b: &NfaNode) -> (r: bool)
    ensures
        r == a@.to_set().subset_of(b@.paths),
{
    let mut i: usize = 0;
    while i < a.len()
        invariant
            i <= a@.len(),
            forall|k: int| 0 <= k < i ==> b@.paths.contains(#[trigger] a@[k]),
        decreases a.len() - i,
    {
        let p: (char, Id) = a[i];
        if !b.has_path(p.0, p.1) {
            assert(a@.to_set().contains(p));
            return false;
        }
        i += 1;
    }
    assert forall|p: (char, usize)| a@.to_set().contains(p) implies b@.paths.contains(p) by {
        let k = choose|k: int| 0 <= k < a@.len() && a@[k] == p;
        assert(b@.paths.contains(a@[k]));
    }
    true
}

/// Whether every character of `a` is one of `b`.
fn chars_within(a: &Vec<char>, b: &Vec<char>) -> (r: bool)
    ensures
        r == a@.to_set().subset_of(b@.to_set()),
{
    let mut i: usize = 0;
    while i < a.len()
        invariant
            i <= a@.len(),
            forall|k: int| 0 <= k < i ==> b@.to_set().contains(#[trigger] a@[k]),
        decreases a.len() - i,
    {
        let c: char = a[i];
        let mut j: usize = 0;
        let mut found: bool = false;
        while j < b.len() && !found
            invariant
                j <= b@.len(),
                found ==> b@.contains(c),
                !found ==> forall|k: int| 0 <= k < j ==> b@[k] != c,
            decreases b.len() - j + if found { 0int } else { 1int },
        {
            if b[j] == c {
                found = true;
            } else {
                j += 1;
            }
        }
        if !found {
            assert(a@.to_set().contains(c));
            assert(!b@.to_set().contains(c));
            return false;
        }
        i += 1;
    }
    assert forall|c: char| a@.to_set().contains(c) implies b@.to_set().contains(c) by {
        let k = choose|k: int| 0 <= k < a@.len() && a@[k] == c;
        assert(b@.to_set().contains(a@[k]));
    }
    true
}

impl NfaNode {
    /// Whether two states have the same number, accept alike and have the
    /// same edges.
    pub fn same_as(&self, other: &NfaNode) -> (r: bool)
        ensures
            r == (self.id == other.id && self@ == other@),
    {
        let r = self.id == other.id && self.is_terminal == other.is_terminal && paths_within(
            &self.paths,
            other,
        ) && paths_within(&other.paths, self);
        proof {
            if r {
                assert(self@.paths =~= other@.paths);
            }
        }
        r
    }
}

impl PartialEq for NfaNode {
    fn eq(&self, other: &Self) -> (r: bool) {
        self.same_as(other)
    }
}

impl vstd::std_specs::cmp::PartialEqSpecImpl for NfaNode {
    open spec fn obeys_eq_spec() -> bool {
        true
    }

    open spec fn eq_spec(&self, other: &Self) -> bool {
        self.id == other.id && self@ == other@
    }
}

impl PartialEq for NFA {
    fn eq(&self, other: &Self) -> (r: bool) {
        self.same_as(other)
    }
}

impl vstd::std_specs::cmp::PartialEqSpecImpl for NFA {
    open spec fn obeys_eq_spec() -> bool {
        true
    }

    open spec fn eq_spec(&self, other: &Self) -> bool {
        self.same(other)
    }
}

impl NFA {
    /// Whether two automata are for the same pattern with the same set of
    /// flags, have the same states and end at the same state.
    pub open spec fn same(&self, other: &NFA) -> bool {
        &&& self.regex@ == other.regex@
        &&& self.flags@.to_set() == other.flags@.to_set()
        &&& self.cur_last == other.cur_last
        &&& self.graph() == other.graph()
        &&& forall|i: int|
            0 <= i < self.data@.len() ==> (#[trigger] self.data@[i]).id == other.data@[i].id
    }

    /// Whether two automata are the same: see [`NFA::same`].
    pub fn same_as(&self, other: &NFA) -> (r: bool)
        ensures
            r == self.same(other),
    {
        if !(self.regex == other.regex) {
            return false;
        }
        if !(chars_within(&self.flags, &other.flags) && chars_within(&other.flags, &self.flags)) {
            assert(self.flags@.to_set() != other.flags@.to_set());
            return false;
        }
        assert(self.flags@.to_set() =~= other.flags@.to_set());
        if self.cur_last != other.cur_last || self.data.len() != other.data.len() {
            assert(self.graph().len() == self.data@.len());
            assert(other.graph().len() == other.data@.len());
            return false;
        }
        let mut i: usize = 0;
        while i < self.data.len()
            invariant
                i <= self.data@.len(),
                self.data@.len() == other.data@.len(),
                forall|k: int|
                    0 <= k < i ==> (#[trigger] self.data@[k]).id == other.data@[k].id
                        && self.data@[k]@ == other.data@[k]@,
            decreases self.data.len() - i,
        {
            if !self.data[i].same_as(&other.data[i]) {
                assert(self.graph()[i as int] == self.data@[i as int]@);
                assert(other.graph()[i as int] == other.data@[i as int]@);
                return false;
            }
            i += 1;
        }
        assert(self.graph() =~= other.graph());
        true
    }

    /// The states of the automaton, as values.
    pub open spec fn graph(&self) -> Seq<NodeModel> {
        nodes_view(self.data@)
    }

    /// The automaton as a construction in progress.
    pub open spec fn built(&self) -> Built {
        Built { nodes: self.graph(), cur: self.cur_last as int }
    }

    /// Whether the automaton is well formed: it has a start state, each state
    /// carries its own number, every edge leads to a state, and so does
    /// `cur_last`.
    pub open spec fn wf(&self) -> bool {
        &&& self.data@.len() >= 1
        &&& forall|i: int| 0 <= i < self.data@.len() ==> (#[trigger] self.data@[i]).id == i
        &&& graph_closed(self.graph())
        &&& self.cur_last < self.data@.len()
    }

    /// An automaton with the start state alone, for the pattern `regex` and
    /// its `flags`.
    pub fn new(regex: String, flags: Vec<char>) -> (nfa: NFA)
        ensures
            nfa.wf(),
            nfa.regex@ == regex@,
            nfa.flags@ == flags@,
            nfa.cur_last == 0,
            nfa.graph() == seq![NodeModel { is_terminal: false, paths: Set::empty() }],
    {
        let mut data: Vec<NfaNode> = Vec::new();
        data.push(NfaNode::new(0));
        let nfa = NFA { regex, flags, data, cur_last: 0 };
        assert(nfa.graph() =~= seq![NodeModel { is_terminal: false, paths: Set::empty() }]);
        nfa
    }

    /// The number that the next new state will get.
    pub fn next_available_id(&self) -> (id: Id)
        ensures
            id == self.data@.len(),
    {
        self.data.len()
    }

    /// Adds a state without edges and returns its number.
    pub fn add_node(&mut self) -> (id: Id)
        requires
            old(self).wf(),
        ensures
            final(self).wf(),
            id == old(self).data@.len(),
            final(self).data@.len() == old(self).data@.len() + 1,
            final(self).graph() == g_add_node(old(self).graph()),
            final(self).cur_last == old(self).cur_last,
            final(self).regex == old(self).regex,
            final(self).flags == old(self).flags,
    {
        let id: Id = self.data.len();
        self.data.push(NfaNode::new(id));
        assert(self.graph() =~= g_add_node(old(self).graph()));
        assert forall|a: int, p: (char, usize)|
            0 <= a < self.graph().len() && #[trigger] self.graph()[a].paths.contains(
                p,
            ) implies p.1 < self.graph().len() by {
            if a < id {
                assert(old(self).graph()[a].paths.contains(p));
            }
        }
        id
    }

    /// Adds an edge from `from` to `to` with label `ch`.
    pub fn add_path(&mut self, from: Id, to: Id, ch: char)
        requires
            old(self).wf(),
            from < old(self).data@.len(),
            to < old(self).data@.len(),
        ensures
            final(self).wf(),
            final(self).data@.len() == old(self).data@.len(),
            final(self).graph() == g_add_edge(old(self).graph(), from as int, ch, to as int),
            final(self).cur_last == old(self).cur_last,
            final(self).regex == old(self).regex,
            final(self).flags == old(self).flags,
    {
        self.data[from].add_path(ch, to);
        assert(self.graph() =~= g_add_edge(old(self).graph(), from as int, ch, to as int));
        assert forall|a: int, p: (char, usize)|
            0 <= a < self.graph().len() && #[trigger] self.graph()[a].paths.contains(
                p,
            ) implies p.1 < self.graph().len() by {
            if a != from || p != (ch, to) {
                assert(old(self).graph()[a].paths.contains(p));
            }
        }
    }
}

} // verus!
