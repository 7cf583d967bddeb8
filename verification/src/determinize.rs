//! Making an automaton deterministic: each state of the result stands for
//! the set of states that the given automaton can be in.

use crate::class::EPSILON;
use crate::counting::{distinct_rows, lemma_distinct_count, two_pow};
use crate::epsilon::marked;
use crate::language::{
    accepting,
    deterministic,
    eps_free,
    lemma_closure_identity,
    lemma_run_empty,
    nfa_accepts,
    run,
    step,
};
use crate::matcher::no_marks;
use crate::nfa::{has_edge, nodes_view, Id, NfaNode, NodeModel, NFA};
use vstd::prelude::*;

verus! {

/// Whether a state has an edge with the symbol `c`.
pub open spec fn has_symbol(node: NodeModel, c: char) -> bool {
    exists|j: usize| node.paths.contains((c, j))
}

/// Whether each state `k` of `d` stands for the set `subs[k]` of states of
/// `g` as far as `d` goes: it accepts where the set does, and each of its
/// edges leads to the state that stands for where its symbol leads from the
/// set. No state of `d` has an empty-label edge or two edges with one symbol.
pub open spec fn follows(d: Seq<NodeModel>, g: Seq<NodeModel>, subs: Seq<Set<int>>) -> bool {
    &&& d.len() == subs.len()
    &&& eps_free(d)
    &&& deterministic(d)
    &&& forall|k: int| 0 <= k < d.len() ==> (#[trigger] d[k]).is_terminal == accepting(g, subs[k])
    &&& forall|k: int, p: (char, usize)|
        0 <= k < d.len() && #[trigger] d[k].paths.contains(p) ==> p.1 < d.len() && subs[p.1 as int]
            == step(g, subs[k], p.0)
}

/// Whether the state `k` of `d` has an edge for every symbol that leads
/// somewhere from the set it stands for.
pub open spec fn complete_at(d: Seq<NodeModel>, g: Seq<NodeModel>, subs: Seq<Set<int>>, k: int) -> bool {
    forall|c: char, t: int| #[trigger] step(g, subs[k], c).contains(t) ==> has_symbol(d[k], c)
}

/// Whether `d` is the deterministic automaton of `g`, its state `k` standing
/// for the set `subs[k]`.
pub open spec fn simulates(d: Seq<NodeModel>, g: Seq<NodeModel>, subs: Seq<Set<int>>) -> bool {
    &&& follows(d, g, subs)
    &&& forall|k: int| 0 <= k < d.len() ==> complete_at(d, g, subs, k)
}

/// A state of the deterministic automaton accepts what the given one accepts
/// from the set that the state stands for.
pub proof fn lemma_simulation_run(
    d: Seq<NodeModel>,
    g: Seq<NodeModel>,
    subs: Seq<Set<int>>,
    k: int,
    w: Seq<char>,
)
    requires
        simulates(d, g, subs),
        eps_free(g),
        0 <= k < d.len(),
    ensures
        run(d, set![k], w) == run(g, subs[k], w),
    decreases w.len(),
{
    if w.len() == 0 {
        if accepting(d, set![k]) {
            let a = choose|a: int| set![k].contains(a) && 0 <= a < d.len() && d[a].is_terminal;
            assert(a == k);
        }
        if d[k].is_terminal {
            assert(set![k].contains(k));
        }
    } else {
        let c = w[0];
        let rest = w.drop_first();
        let from_d = step(d, set![k], c);
        let from_g = step(g, subs[k], c);
        lemma_closure_identity(d, from_d);
        lemma_closure_identity(g, from_g);
        if c != EPSILON && has_symbol(d[k], c) {
            let j = choose|j: usize| d[k].paths.contains((c, j));
            assert(d[k].paths.contains((c, j)));
            assert(subs[j as int] == from_g);
            assert(from_d =~= set![j as int]) by {
                assert(set![k].contains(k) && has_edge(d, k, c, j as int));
                assert forall|t: int| from_d.contains(t) implies t == j by {
                    let a = choose|a: int| set![k].contains(a) && has_edge(d, a, c, t);
                    assert(a == k);
                    assert(d[k].paths.contains((c, t as usize)));
                }
            }
            lemma_simulation_run(d, g, subs, j as int, rest);
        } else {
            assert(from_d =~= Set::<int>::empty()) by {
                assert forall|t: int| !from_d.contains(t) by {
                    if from_d.contains(t) {
                        let a = choose|a: int| set![k].contains(a) && has_edge(d, a, c, t);
                        assert(a == k);
                        assert(d[k].paths.contains((c, t as usize)));
                        assert(has_symbol(d[k], c));
                    }
                }
            }
            assert(from_g =~= Set::<int>::empty()) by {
                assert forall|t: int| !from_g.contains(t) by {
                    if from_g.contains(t) {
                        assert(complete_at(d, g, subs, k));
                        assert(has_symbol(d[k], c));
                    }
                }
            }
            lemma_run_empty(d, rest);
            lemma_run_empty(g, rest);
        }
    }
}

/// The deterministic automaton accepts what the given one accepts.
pub proof fn lemma_simulation_language(
    d: Seq<NodeModel>,
    g: Seq<NodeModel>,
    subs: Seq<Set<int>>,
    w: Seq<char>,
)
    requires
        simulates(d, g, subs),
        eps_free(g),
        d.len() > 0,
        subs[0] == set![0int],
    ensures
        nfa_accepts(d, w) == nfa_accepts(g, w),
{
    lemma_closure_identity(d, set![0int]);
    lemma_closure_identity(g, set![0int]);
    lemma_simulation_run(d, g, subs, 0, w);
}

/// Whether a set of edges has no empty-label edge and no two edges with one
/// symbol.
pub open spec fn paths_dfa(paths: Set<(char, usize)>) -> bool {
    &&& forall|b: usize| !(#[trigger] paths.contains((EPSILON, b)))
    &&& forall|c: char, t1: usize, t2: usize|
        #[trigger] paths.contains((c, t1)) && #[trigger] paths.contains((c, t2)) ==> t1 == t2
}

/// Whether a state has no empty-label edge and no two edges with one symbol.
pub open spec fn node_is_dfa(node: NodeModel) -> bool {
    paths_dfa(node.paths)
}

/// The sets that a list of rows of marks marks.
pub open spec fn sub_sets(subsets: Seq<Vec<bool>>) -> Seq<Set<int>> {
    Seq::new(subsets.len(), |i: int| marked(subsets[i]@))
}

/// The rows of marks of a list, as sequences.
pub open spec fn rows(subsets: Seq<Vec<bool>>) -> Seq<Seq<bool>> {
    Seq::new(subsets.len(), |i: int| subsets[i]@)
}

/// Whether two rows of marks are the same.
pub fn same_marks(a: &Vec<bool>, b: &Vec<bool>) -> (r: bool)
    ensures
        r == (a@ == b@),
{
    if a.len() != b.len() {
        return false;
    }
    let mut i: usize = 0;
    while i < a.len()
        invariant
            i <= a@.len(),
            a@.len() == b@.len(),
            forall|k: int| 0 <= k < i ==> a@[k] == b@[k],
        decreases a.len() - i,
    {
        if a[i] != b[i] {
            return false;
        }
        i += 1;
    }
    assert(a@ =~= b@);
    true
}

/// Where among `subsets` the row `target` stands, if it does.
pub fn find_row(subsets: &Vec<Vec<bool>>, target: &Vec<bool>) -> (r: Option<usize>)
    ensures
        match r {
            Some(i) => i < subsets@.len() && subsets@[i as int]@ == target@,
            None => forall|i: int| 0 <= i < subsets@.len() ==> (#[trigger] subsets@[i])@ != target@,
        },
{
    let mut i: usize = 0;
    while i < subsets.len()
        invariant
            i <= subsets@.len(),
            forall|k: int| 0 <= k < i ==> (#[trigger] subsets@[k])@ != target@,
        decreases subsets.len() - i,
    {
        if same_marks(&subsets[i], target) {
            return Some(i);
        }
        i += 1;
    }
    None
}

impl NfaNode {
    /// Whether the state has an edge with the symbol `c`.
    pub fn has_symbol(&self, c: char) -> (r: bool)
        ensures
            r == has_symbol(self@, c),
    {
        let mut i: usize = 0;
        while i < self.paths.len()
            invariant
                i <= self.paths@.len(),
                forall|k: int| 0 <= k < i ==> self.paths@[k].0 != c,
            decreases self.paths.len() - i,
        {
            if self.paths[i].0 == c {
                assert(self.paths@.contains(self.paths@[i as int]));
                assert(self@.paths.contains((c, self.paths@[i as int].1)));
                return true;
            }
            i += 1;
        }
        assert(!has_symbol(self@, c)) by {
            if has_symbol(self@, c) {
                let j = choose|j: usize| self@.paths.contains((c, j));
                let k = choose|k: int| 0 <= k < self.paths@.len() && self.paths@[k] == (c, j);
                assert(self.paths@[k].0 == c);
            }
        }
        false
    }

    /// Whether the state is fit for a deterministic automaton: it has no
    /// empty-label edge and no two edges with one symbol.
    pub fn is_dfa(&self) -> (r: bool)
        ensures
            r == node_is_dfa(self@),
    {
        paths_are_dfa(&self.paths)
    }
}

/// Whether a list of edges has no empty-label edge and no two edges with one
/// symbol.
pub fn paths_are_dfa(paths: &Vec<(char, Id)>) -> (r: bool)
    ensures
        r == paths_dfa(paths@.to_set()),
{
    let ghost node = NodeModel { is_terminal: false, paths: paths@.to_set() };
    let mut i: usize = 0;
    while i < paths.len()
        invariant
            i <= paths@.len(),
            node == (NodeModel { is_terminal: false, paths: paths@.to_set() }),
            forall|k: int| 0 <= k < i ==> paths@[k].0 != EPSILON,
            forall|k: int, m: int|
                0 <= k < i && 0 <= m < paths@.len() && paths@[k].0 == paths@[m].0 ==> paths@[k].1
                    == paths@[m].1,
        decreases paths.len() - i,
    {
        let p: (char, Id) = paths[i];
        if p.0 == EPSILON {
            assert(paths@.contains(p));
            assert(node.paths.contains((EPSILON, p.1)));
            return false;
        }
        let mut m: usize = 0;
        while m < paths.len()
            invariant
                m <= paths@.len(),
                i < paths@.len(),
                p == paths@[i as int],
                node == (NodeModel { is_terminal: false, paths: paths@.to_set() }),
                forall|q: int| 0 <= q < m && paths@[q].0 == p.0 ==> paths@[q].1 == p.1,
            decreases paths.len() - m,
        {
            let q: (char, Id) = paths[m];
            if q.0 == p.0 && q.1 != p.1 {
                assert(paths@.contains(p));
                assert(paths@.contains(q));
                assert(node.paths.contains((p.0, p.1)) && node.paths.contains((p.0, q.1)));
                return false;
            }
            m += 1;
        }
        i += 1;
    }
    assert forall|b: usize| !node.paths.contains((EPSILON, b)) by {
        if node.paths.contains((EPSILON, b)) {
            let k = choose|k: int| 0 <= k < paths@.len() && paths@[k] == (EPSILON, b);
            assert(paths@[k].0 == EPSILON);
        }
    }
    assert forall|c: char, t1: usize, t2: usize|
        node.paths.contains((c, t1)) && node.paths.contains((c, t2)) implies t1 == t2 by {
        let k = choose|k: int| 0 <= k < paths@.len() && paths@[k] == (c, t1);
        let m = choose|m: int| 0 <= m < paths@.len() && paths@[m] == (c, t2);
        assert(paths@[k].0 == paths@[m].0);
    }
    true
}

/// Whether `list` holds the targets of the edges of a state with the symbol
/// `c`, each once.
pub open spec fn targets_of(node: NodeModel, c: char, list: Seq<usize>) -> bool {
    list.no_duplicates() && forall|t: usize| list.contains(t) <==> node.paths.contains((c, t))
}

/// Whether one of the first `i` edges has the symbol `c`.
pub open spec fn symbol_within(paths: Seq<(char, usize)>, i: int, c: char) -> bool {
    exists|j: int| 0 <= j < i && (#[trigger] paths[j]).0 == c
}

/// Whether some entry of the list is for the symbol `c`.
pub open spec fn listed(dupes: Seq<(char, Vec<Id>)>, c: char) -> bool {
    exists|k: int| 0 <= k < dupes.len() && (#[trigger] dupes[k]).0 == c
}

impl NfaNode {
    /// The targets of the edges with the symbol `c`, each once.
    pub fn targets_for(&self, c: char) -> (list: Vec<Id>)
        ensures
            targets_of(self@, c, list@),
    {
        let mut list: Vec<Id> = Vec::new();
        let mut m: usize = 0;
        while m < self.paths.len()
            invariant
                m <= self.paths@.len(),
                list@.no_duplicates(),
                forall|t: usize|
                    list@.contains(t) <==> exists|j: int| 0 <= j < m && self.paths@[j] == (c, t),
            decreases self.paths.len() - m,
        {
            let p: (char, Id) = self.paths[m];
            let ghost before = list@;
            let mut fresh: bool = p.0 == c;
            let mut k: usize = 0;
            while k < list.len() && fresh
                invariant
                    k <= list@.len(),
                    fresh ==> p.0 == c,
                    fresh ==> forall|i: int| 0 <= i < k ==> list@[i] != p.1,
                    !fresh ==> p.0 != c || list@.contains(p.1),
                decreases list.len() - k + if fresh { 1int } else { 0int },
            {
                if list[k] == p.1 {
                    fresh = false;
                } else {
                    k += 1;
                }
            }
            if fresh {
                list.push(p.1);
            }
            assert forall|t: usize|
                list@.contains(t) <==> exists|j: int| 0 <= j < m + 1 && self.paths@[j] == (
                    c,
                    t,
                ) by {
                if list@.contains(t) {
                    let i = choose|i: int| 0 <= i < list@.len() && list@[i] == t;
                    if i < before.len() {
                        assert(before.contains(t));
                        let j = choose|j: int| 0 <= j < m && self.paths@[j] == (c, t);
                        assert(0 <= j < m + 1 && self.paths@[j] == (c, t));
                    } else {
                        assert(self.paths@[m as int] == (c, t));
                    }
                }
                if exists|j: int| 0 <= j < m + 1 && self.paths@[j] == (c, t) {
                    let j = choose|j: int| 0 <= j < m + 1 && self.paths@[j] == (c, t);
                    if j < m {
                        assert(before.contains(t));
                        let i = choose|i: int| 0 <= i < before.len() && before[i] == t;
                        assert(list@[i] == t);
                    } else if fresh {
                        assert(list@[before.len() as int] == t);
                    } else {
                        assert(before.contains(t));
                    }
                }
            }
            m += 1;
        }
        assert forall|t: usize| list@.contains(t) <==> self@.paths.contains((c, t)) by {
            if self@.paths.contains((c, t)) {
                let j = choose|j: int| 0 <= j < self.paths@.len() && self.paths@[j] == (c, t);
                assert(0 <= j < m && self.paths@[j] == (c, t));
            }
            if list@.contains(t) {
                let j = choose|j: int| 0 <= j < m && self.paths@[j] == (c, t);
                assert(self.paths@.contains((c, t)));
            }
        }
        list
    }

    /// The symbols that lead to more than one state, each with the states
    /// that it leads to.
    pub fn find_dupes(&self) -> (dupes: Vec<(char, Vec<Id>)>)
        ensures
            forall|k: int|
                0 <= k < dupes@.len() ==> targets_of(
                    self@,
                    (#[trigger] dupes@[k]).0,
                    dupes@[k].1@,
                ) && dupes@[k].1@.len() > 1,
            forall|j: int, k: int|
                0 <= j < k < dupes@.len() ==> (#[trigger] dupes@[j]).0 != (#[trigger] dupes@[k]).0,
            forall|c: char, t1: usize, t2: usize|
                #[trigger] self@.paths.contains((c, t1)) && #[trigger] self@.paths.contains((c, t2))
                    && t1 != t2 ==> listed(dupes@, c),
    {
        let mut dupes: Vec<(char, Vec<Id>)> = Vec::new();
        let mut i: usize = 0;
        while i < self.paths.len()
            invariant
                i <= self.paths@.len(),
                forall|k: int|
                    0 <= k < dupes@.len() ==> targets_of(
                        self@,
                        (#[trigger] dupes@[k]).0,
                        dupes@[k].1@,
                    ) && dupes@[k].1@.len() > 1 && symbol_within(self.paths@, i as int, dupes@[k].0),
                forall|j: int, k: int|
                    0 <= j < k < dupes@.len() ==> (#[trigger] dupes@[j]).0 != (
                    #[trigger] dupes@[k]).0,
                forall|c: char, t1: usize, t2: usize|
                    #[trigger] self@.paths.contains((c, t1)) && #[trigger] self@.paths.contains(
                        (c, t2),
                    ) && t1 != t2 && symbol_within(self.paths@, i as int, c) ==> listed(dupes@, c),
            decreases self.paths.len() - i,
        {
            let c: char = self.paths[i].0;
            let mut seen: bool = false;
            let mut j: usize = 0;
            while j < i && !seen
                invariant
                    j <= i < self.paths@.len(),
                    seen ==> symbol_within(self.paths@, i as int, c),
                    !seen ==> forall|x: int| 0 <= x < j ==> (#[trigger] self.paths@[x]).0 != c,
                decreases i - j + if seen { 0int } else { 1int },
            {
                if self.paths[j].0 == c {
                    assert(symbol_within(self.paths@, i as int, c)) by {
                        assert(0 <= j < i && self.paths@[j as int].0 == c);
                    }
                    seen = true;
                } else {
                    j += 1;
                }
            }
            let ghost before = dupes@;
            if !seen {
                let list = self.targets_for(c);
                if list.len() > 1 {
                    dupes.push((c, list));
                }
                proof {
                    assert(!symbol_within(self.paths@, i as int, c));
                    assert forall|a: int, b: int| 0 <= a < b < dupes@.len() implies (
                    #[trigger] dupes@[a]).0 != (#[trigger] dupes@[b]).0 by {
                        if b == before.len() {
                            assert(symbol_within(self.paths@, i as int, before[a].0));
                        }
                    }
                    assert forall|x: char, t1: usize, t2: usize|
                        #[trigger] self@.paths.contains((x, t1)) && #[trigger] self@.paths.contains(
                            (x, t2),
                        ) && t1 != t2 && symbol_within(self.paths@, i as int + 1, x) implies listed(
                        dupes@,
                        x,
                    ) by {
                        if x == c {
                            assert(list@.contains(t1) && list@.contains(t2));
                            let a = choose|a: int| 0 <= a < list@.len() && list@[a] == t1;
                            let b = choose|b: int| 0 <= b < list@.len() && list@[b] == t2;
                            assert(a != b);
                            assert(dupes@[before.len() as int].0 == c);
                        } else {
                            let y = choose|y: int|
                                0 <= y < i + 1 && (#[trigger] self.paths@[y]).0 == x;
                            assert(0 <= y < i && self.paths@[y].0 == x);
                            assert(symbol_within(self.paths@, i as int, x));
                            let k = choose|k: int|
                                0 <= k < before.len() && (#[trigger] before[k]).0 == x;
                            assert(dupes@[k].0 == x);
                        }
                    }
                }
            } else {
                proof {
                    assert forall|x: char, t1: usize, t2: usize|
                        #[trigger] self@.paths.contains((x, t1)) && #[trigger] self@.paths.contains(
                            (x, t2),
                        ) && t1 != t2 && symbol_within(self.paths@, i as int + 1, x) implies listed(
                        dupes@,
                        x,
                    ) by {
                        if x != c {
                            let y = choose|y: int|
                                0 <= y < i + 1 && (#[trigger] self.paths@[y]).0 == x;
                            assert(0 <= y < i && self.paths@[y].0 == x);
                            assert(symbol_within(self.paths@, i as int, x));
                        }
                    }
                }
            }
            proof {
                assert forall|k: int| 0 <= k < dupes@.len() implies symbol_within(
                    self.paths@,
                    i as int + 1,
                    (#[trigger] dupes@[k]).0,
                ) by {
                    if k < before.len() {
                        let y = choose|y: int|
                            0 <= y < i && (#[trigger] self.paths@[y]).0 == before[k].0;
                        assert(0 <= y < i + 1 && self.paths@[y].0 == before[k].0);
                    } else {
                        assert(0 <= i < i + 1 && self.paths@[i as int].0 == c);
                    }
                }
            }
            i += 1;
        }
        proof {
            assert forall|c: char, t1: usize, t2: usize|
                #[trigger] self@.paths.contains((c, t1)) && #[trigger] self@.paths.contains((c, t2))
                    && t1 != t2 implies listed(dupes@, c) by {
                let y = choose|y: int| 0 <= y < self.paths@.len() && self.paths@[y] == (c, t1);
                assert(0 <= y < i && self.paths@[y].0 == c);
                assert(symbol_within(self.paths@, i as int, c));
            }
        }
        dupes
    }
}

/// What holds of a state that stands for a set holds on when other states
/// change and states are added.
pub proof fn lemma_complete_kept(
    d: Seq<NodeModel>,
    d2: Seq<NodeModel>,
    g: Seq<NodeModel>,
    subs: Seq<Set<int>>,
    subs2: Seq<Set<int>>,
    k: int,
)
    requires
        complete_at(d, g, subs, k),
        0 <= k < d.len() <= d2.len(),
        0 <= k < subs.len() <= subs2.len(),
        subs2[k] == subs[k],
        forall|c: char| has_symbol(d[k], c) ==> has_symbol(d2[k], c),
    ensures
        complete_at(d2, g, subs2, k),
{
    assert forall|c: char, t: int| #[trigger] step(g, subs2[k], c).contains(t) implies has_symbol(
        d2[k],
        c,
    ) by {
        assert(step(g, subs[k], c).contains(t));
    }
}

impl NFA {
    /// Whether `nodes` and `subsets` are a deterministic automaton under
    /// construction for this automaton: state `k` stands for the states
    /// that `subsets[k]` marks, no two states stand for the same set, and
    /// every edge made so far leads where it must.
    pub open spec fn partial(&self, nodes: Seq<NfaNode>, subsets: Seq<Vec<bool>>) -> bool {
        &&& nodes.len() == subsets.len()
        &&& distinct_rows(rows(subsets), self.data@.len())
        &&& forall|i: int| 0 <= i < nodes.len() ==> (#[trigger] nodes[i]).id == i
        &&& follows(nodes_view(nodes), self.graph(), sub_sets(subsets))
    }

    /// The state that stands for the set that `target` marks: the one that
    /// is there already, or a new one without edges.
    fn find_or_add(
        &self,
        subsets: &mut Vec<Vec<bool>>,
        nodes: &mut Vec<NfaNode>,
        target: Vec<bool>,
    ) -> (idx: usize)
        requires
            self.partial(old(nodes)@, old(subsets)@),
            target@.len() == self.data@.len(),
        ensures
            self.partial(final(nodes)@, final(subsets)@),
            idx < final(subsets)@.len(),
            final(subsets)@[idx as int]@ == target@,
            old(subsets)@.len() <= final(subsets)@.len() <= old(subsets)@.len() + 1,
            forall|i: int|
                0 <= i < old(subsets)@.len() ==> final(subsets)@[i] == old(subsets)@[i]
                    && final(nodes)@[i] == old(nodes)@[i],
    {
        match find_row(subsets, &target) {
            Some(i) => i,
            None => {
                let idx: usize = subsets.len();
                let mut node = NfaNode::new(idx);
                node.is_terminal = self.any_terminal(&target);
                let ghost d = nodes_view(nodes@);
                let ghost subs = sub_sets(subsets@);
                let ghost old_rows = rows(subsets@);
                subsets.push(target);
                nodes.push(node);
                proof {
                    let g = self.graph();
                    let d2 = nodes_view(nodes@);
                    let subs2 = sub_sets(subsets@);
                    let rows2 = rows(subsets@);
                    assert forall|i: int, j: int| 0 <= i < j < rows2.len() implies #[trigger] rows2[i]
                        != #[trigger] rows2[j] by {
                        if j < idx {
                            assert(old_rows[i] != old_rows[j]);
                        } else {
                            assert(old(subsets)@[i]@ != target@);
                        }
                    }
                    assert forall|i: int| 0 <= i < rows2.len() implies (#[trigger] rows2[i]).len()
                        == self.data@.len() by {
                        if i < idx {
                            assert(old_rows[i].len() == self.data@.len());
                        }
                    }
                    assert forall|k: int| 0 <= k < idx implies d2[k] == d[k] && subs2[k]
                        == subs[k] by {}
                    assert forall|k: int, b: usize| 0 <= k < d2.len() implies !(
                    #[trigger] d2[k].paths.contains((EPSILON, b))) by {
                        if k < idx {
                            assert(d2[k] == d[k]);
                        }
                    }
                    assert forall|k: int, c: char, t1: usize, t2: usize|
                        0 <= k < d2.len() && #[trigger] d2[k].paths.contains((c, t1))
                            && #[trigger] d2[k].paths.contains((c, t2)) implies t1 == t2 by {
                        if k < idx {
                            assert(d2[k] == d[k]);
                        }
                    }
                    assert forall|k: int| 0 <= k < d2.len() implies (#[trigger] d2[k]).is_terminal
                        == accepting(g, subs2[k]) by {
                        if k < idx {
                            assert(d2[k] == d[k]);
                            assert(subs2[k] == subs[k]);
                        }
                    }
                    assert forall|k: int, p: (char, usize)|
                        0 <= k < d2.len() && #[trigger] d2[k].paths.contains(p) implies p.1
                            < d2.len() && subs2[p.1 as int] == step(g, subs2[k], p.0) by {
                        if k < idx {
                            assert(d2[k] == d[k]);
                            assert(d[k].paths.contains(p));
                            assert(subs2[p.1 as int] == subs[p.1 as int]);
                            assert(subs2[k] == subs[k]);
                        }
                    }
                }
                idx
            },
        }
    }

    /// Gives the state `from` an edge with the symbol `c`, unless it has one:
    /// the edge leads to the state that stands for where `c` leads from the
    /// set that `from` stands for.
    fn link(&self, subsets: &mut Vec<Vec<bool>>, nodes: &mut Vec<NfaNode>, from: usize, c: char)
        requires
            self.wf(),
            self.partial(old(nodes)@, old(subsets)@),
            from < old(nodes)@.len(),
            c != EPSILON,
        ensures
            self.partial(final(nodes)@, final(subsets)@),
            old(subsets)@.len() <= final(subsets)@.len() <= old(subsets)@.len() + 1,
            forall|i: int|
                0 <= i < old(subsets)@.len() ==> final(subsets)@[i] == old(subsets)@[i],
            forall|i: int|
                0 <= i < old(nodes)@.len() && i != from ==> final(nodes)@[i] == old(nodes)@[i],
            has_symbol(final(nodes)@[from as int]@, c),
            forall|x: char|
                has_symbol(old(nodes)@[from as int]@, x) ==> has_symbol(
                    final(nodes)@[from as int]@,
                    x,
                ),
    {
        if nodes[from].has_symbol(c) {
            return ;
        }
        let ghost g = self.graph();
        assert(rows(subsets@)[from as int] == subsets@[from as int]@);
        let target = self.step_marks(&subsets[from], c);
        let idx = self.find_or_add(subsets, nodes, target);
        let ghost d = nodes_view(nodes@);
        let ghost subs = sub_sets(subsets@);
        let ghost mid = nodes@;
        nodes[from].add_path(c, idx);
        proof {
            let d2 = nodes_view(nodes@);
            assert(d2[from as int].paths.contains((c, idx)));
            assert forall|k: int| 0 <= k < d2.len() && k != from implies d2[k] == d[k] by {}
            assert(d2[from as int].paths == d[from as int].paths.insert((c, idx)));
            assert(subs[idx as int] == step(g, subs[from as int], c)) by {
                assert(subsets@[from as int] == old(subsets)@[from as int]);
            }
            assert forall|k: int, b: usize| 0 <= k < d2.len() implies !(
            #[trigger] d2[k].paths.contains((EPSILON, b))) by {
                if k != from {
                    assert(d2[k] == d[k]);
                } else {
                    assert(!d[k].paths.contains((EPSILON, b)));
                }
            }
            assert forall|k: int, x: char, t1: usize, t2: usize|
                0 <= k < d2.len() && #[trigger] d2[k].paths.contains((x, t1))
                    && #[trigger] d2[k].paths.contains((x, t2)) implies t1 == t2 by {
                if k != from {
                    assert(d2[k] == d[k]);
                } else if x == c {
                    assert(d[from as int] == old(nodes)@[from as int]@);
                    if d[k].paths.contains((x, t1)) {
                        assert(has_symbol(old(nodes)@[from as int]@, c));
                    }
                    if d[k].paths.contains((x, t2)) {
                        assert(has_symbol(old(nodes)@[from as int]@, c));
                    }
                } else {
                    assert(d[k].paths.contains((x, t1)) && d[k].paths.contains((x, t2)));
                }
            }
            assert forall|k: int| 0 <= k < d2.len() implies (#[trigger] d2[k]).is_terminal
                == accepting(g, subs[k]) by {
                assert(d2[k].is_terminal == d[k].is_terminal);
            }
            assert forall|k: int, p: (char, usize)|
                0 <= k < d2.len() && #[trigger] d2[k].paths.contains(p) implies p.1 < d2.len()
                    && subs[p.1 as int] == step(g, subs[k], p.0) by {
                if k != from {
                    assert(d2[k] == d[k]);
                } else if p != (c, idx) {
                    assert(d[k].paths.contains(p));
                }
            }
            assert forall|i: int| 0 <= i < nodes@.len() implies (#[trigger] nodes@[i]).id == i by {
                assert(mid[i].id == i);
            }
            assert forall|x: char| has_symbol(old(nodes)@[from as int]@, x) implies has_symbol(
                nodes@[from as int]@,
                x,
            ) by {
                let j = choose|j: usize| old(nodes)@[from as int]@.paths.contains((x, j));
                assert(d[from as int] == old(nodes)@[from as int]@);
                assert(d2[from as int].paths.contains((x, j)));
            }
        }
    }
}

/// Whether the state `a` of `g` has been covered: the state `node` has an
/// edge for the symbol of each of the first `j` edges of `a`.
pub open spec fn covered(node: NodeModel, paths: Seq<(char, usize)>, j: int) -> bool {
    forall|i: int| 0 <= i < j ==> has_symbol(node, (#[trigger] paths[i]).0)
}

impl NFA {
    /// Whether some state has an empty-label edge or two edges with one
    /// symbol.
    pub fn has_duplicates(&self) -> (r: bool)
        ensures
            r == !(forall|a: int| 0 <= a < self.data@.len() ==> node_is_dfa(#[trigger] self.graph()[a])),
    {
        let mut a: usize = 0;
        while a < self.data.len()
            invariant
                a <= self.data@.len(),
                forall|x: int| 0 <= x < a ==> node_is_dfa(#[trigger] self.graph()[x]),
            decreases self.data.len() - a,
        {
            if !self.data[a].is_dfa() {
                assert(!node_is_dfa(self.graph()[a as int]));
                return true;
            }
            a += 1;
        }
        false
    }

    /// Makes the automaton deterministic. Each state of the result stands
    /// for a set of states of the given one, the start state for the start
    /// state alone; a state accepts if a state of its set did, and its edge
    /// for a symbol leads to the state that stands for all that the symbol
    /// reached from its set. States are made until every set that can be
    /// reached has one.
    pub fn remove_duplicate_connections(&mut self)
        requires
            old(self).wf(),
            eps_free(old(self).graph()),
        ensures
            final(self).wf(),
            eps_free(final(self).graph()),
            deterministic(final(self).graph()),
            final(self).regex == old(self).regex,
            final(self).flags == old(self).flags,
            final(self).cur_last == 0,
            exists|subs: Seq<Set<int>>|
                #[trigger] simulates(final(self).graph(), old(self).graph(), subs) && subs[0]
                    == set![0int],
            forall|w: Seq<char>|
                nfa_accepts(final(self).graph(), w) == nfa_accepts(old(self).graph(), w),
    {
        let ghost g = self.graph();
        let n: usize = self.data.len();
        let mut subsets: Vec<Vec<bool>> = Vec::new();
        let mut nodes: Vec<NfaNode> = Vec::new();
        let mut first = no_marks(n);
        first.set(0, true);
        assert(marked(first@) =~= set![0int]);
        let mut start = NfaNode::new(0);
        start.is_terminal = self.any_terminal(&first);
        subsets.push(first);
        nodes.push(start);
        let mut done: usize = 0;
        proof {
            assert(sub_sets(subsets@)[0] == set![0int]);
            lemma_distinct_count(rows(subsets@), n as nat);
        }
        while done < subsets.len()
            invariant
                self.wf(),
                g == self.graph(),
                eps_free(g),
                n == self.data@.len(),
                self.partial(nodes@, subsets@),
                done <= subsets@.len(),
                subsets@.len() >= 1,
                subsets@.len() <= two_pow(n as nat),
                sub_sets(subsets@)[0] == set![0int],
                forall|k: int|
                    0 <= k < done ==> complete_at(nodes_view(nodes@), g, sub_sets(subsets@), k),
            decreases two_pow(n as nat) - subsets@.len(), subsets@.len() - done,
        {
            let ghost len0 = subsets@.len();
            let ghost row = subsets@[done as int];
            assert(rows(subsets@)[done as int] == row@);
            let mut a: usize = 0;
            while a < n
                invariant
                    a <= n,
                    subsets@.len() >= len0,
                    self.wf(),
                    g == self.graph(),
                    eps_free(g),
                    n == self.data@.len(),
                    self.partial(nodes@, subsets@),
                    done < subsets@.len(),
                    subsets@[done as int] == row,
                    row@.len() == n,
                    sub_sets(subsets@)[0] == set![0int],
                    forall|k: int|
                        0 <= k < done ==> complete_at(nodes_view(nodes@), g, sub_sets(subsets@), k),
                    forall|x: int|
                        0 <= x < a && row@[x] ==> covered(
                            nodes@[done as int]@,
                            #[trigger] self.data@[x].paths@,
                            self.data@[x].paths@.len() as int,
                        ),
                decreases n - a,
            {
                assert(rows(subsets@)[done as int] == row@);
                if subsets[done][a] {
                    let src = &self.data[a];
                    let mut j: usize = 0;
                    while j < src.paths.len()
                        invariant
                            j <= src.paths@.len(),
                            a < n,
                            subsets@.len() >= len0,
                            self.wf(),
                            g == self.graph(),
                            eps_free(g),
                            n == self.data@.len(),
                            *src == self.data@[a as int],
                            self.partial(nodes@, subsets@),
                            done < subsets@.len(),
                            subsets@[done as int] == row,
                            row@.len() == n,
                            sub_sets(subsets@)[0] == set![0int],
                            forall|k: int|
                                0 <= k < done ==> complete_at(
                                    nodes_view(nodes@),
                                    g,
                                    sub_sets(subsets@),
                                    k,
                                ),
                            forall|x: int|
                                0 <= x < a && row@[x] ==> covered(
                                    nodes@[done as int]@,
                                    #[trigger] self.data@[x].paths@,
                                    self.data@[x].paths@.len() as int,
                                ),
                            covered(nodes@[done as int]@, src.paths@, j as int),
                        decreases src.paths.len() - j,
                    {
                        let c: char = src.paths[j].0;
                        proof {
                            assert(src.paths@.contains(src.paths@[j as int]));
                            assert(g[a as int].paths.contains((c, src.paths@[j as int].1)));
                        }
                        let ghost nodes0 = nodes@;
                        let ghost subsets0 = subsets@;
                        self.link(&mut subsets, &mut nodes, done, c);
                        proof {
                            let d0 = nodes_view(nodes0);
                            let d1 = nodes_view(nodes@);
                            let s0 = sub_sets(subsets0);
                            let s1 = sub_sets(subsets@);
                            assert forall|k: int| 0 <= k < done implies complete_at(
                                d1,
                                g,
                                s1,
                                k,
                            ) by {
                                assert(nodes@[k] == nodes0[k]);
                                assert(subsets@[k] == subsets0[k]);
                                lemma_complete_kept(d0, d1, g, s0, s1, k);
                            }
                            assert(s1[0] == s0[0]) by {
                                assert(subsets@[0] == subsets0[0]);
                            }
                            assert forall|x: int| 0 <= x < a && row@[x] implies covered(
                                nodes@[done as int]@,
                                #[trigger] self.data@[x].paths@,
                                self.data@[x].paths@.len() as int,
                            ) by {
                                assert(covered(
                                    nodes0[done as int]@,
                                    self.data@[x].paths@,
                                    self.data@[x].paths@.len() as int,
                                ));
                            }
                            assert(covered(nodes@[done as int]@, src.paths@, j as int + 1)) by {
                                assert(covered(nodes0[done as int]@, src.paths@, j as int));
                            }
                        }
                        j += 1;
                    }
                }
                a += 1;
            }
            proof {
                let d = nodes_view(nodes@);
                let subs = sub_sets(subsets@);
                assert(subs[done as int] == marked(row@));
                assert forall|c: char, t: int| #[trigger] step(
                    g,
                    subs[done as int],
                    c,
                ).contains(t) implies has_symbol(d[done as int], c) by {
                    let x = choose|x: int| subs[done as int].contains(x) && has_edge(g, x, c, t);
                    let i = choose|i: int|
                        0 <= i < self.data@[x].paths@.len() && self.data@[x].paths@[i] == (
                            c,
                            t as usize,
                        );
                    assert(covered(
                        nodes@[done as int]@,
                        self.data@[x].paths@,
                        self.data@[x].paths@.len() as int,
                    ));
                    assert(has_symbol(nodes@[done as int]@, self.data@[x].paths@[i].0));
                }
                lemma_distinct_count(rows(subsets@), n as nat);
            }
            done += 1;
        }
        self.data = nodes;
        self.cur_last = 0;
        proof {
            let d = self.graph();
            let subs = sub_sets(subsets@);
            assert(simulates(d, g, subs));
            assert forall|a: int, p: (char, usize)|
                0 <= a < d.len() && #[trigger] d[a].paths.contains(p) implies p.1 < d.len() by {}
            assert forall|w: Seq<char>| nfa_accepts(d, w) == nfa_accepts(g, w) by {
                lemma_simulation_language(d, g, subs, w);
            }
        }
    }

    /// Makes the automaton deterministic and free of empty-label edges
    /// without changing what it accepts.
    pub fn make_dfa(&mut self)
        requires
            old(self).wf(),
        ensures
            final(self).wf(),
            eps_free(final(self).graph()),
            deterministic(final(self).graph()),
            final(self).regex == old(self).regex,
            final(self).flags == old(self).flags,
            forall|w: Seq<char>|
                nfa_accepts(final(self).graph(), w) == nfa_accepts(old(self).graph(), w),
    {
        self.remove_epsilons();
        self.remove_duplicate_connections();
    }
}

} // verus!
