//! A state of the fragment automaton that the postfix construction builds.

use vstd::prelude::*;

verus! {

/// A state: whether it accepts, where each symbol leads, and where the
/// state leads without reading a symbol. Two states are the same state
/// when they carry the same number.
#[derive(Debug, Clone, Eq)]
pub struct Node {
    pub id: i32,
    pub is_end: bool,
    /// Symbol and target; for a symbol listed twice the first entry counts.
    pub transition: Vec<(char, usize)>,
    pub epsilon_transitions: Vec<usize>,
}

/// Where `symbol` leads according to a transition table: the target of the
/// first entry for it.
pub open spec fn table_get(table: Seq<(char, usize)>, symbol: char) -> Option<usize>
    decreases table.len(),
{
    if table.len() == 0 {
        None
    } else if table[0].0 == symbol {
        Some(table[0].1)
    } else {
        table_get(table.drop_first(), symbol)
    }
}

/// What is known of a table's entry for a symbol.
pub proof fn lemma_table_get(table: Seq<(char, usize)>, symbol: char)
    ensures
        match table_get(table, symbol) {
            Some(t) => exists|i: int| 0 <= i < table.len() && table[i] == (symbol, t),
            None => forall|i: int| 0 <= i < table.len() ==> (#[trigger] table[i]).0 != symbol,
        },
    decreases table.len(),
{
    if table.len() == 0 {
    } else if table[0].0 == symbol {
        assert(table[0] == (symbol, table[0].1));
    } else {
        lemma_table_get(table.drop_first(), symbol);
        match table_get(table.drop_first(), symbol) {
            Some(t) => {
                let i = choose|i: int|
                    0 <= i < table.drop_first().len() && table.drop_first()[i] == (symbol, t);
                assert(table[i + 1] == (symbol, t));
            },
            None => {
                assert forall|i: int| 0 <= i < table.len() implies (#[trigger] table[i]).0
                    != symbol by {
                    if i > 0 {
                        assert(table.drop_first()[i - 1] == table[i]);
                    }
                }
            },
        }
    }
}

/// The value of a state: its number, whether it accepts, where each symbol
/// leads and where the state leads without reading a symbol.
pub struct NodeValue {
    pub id: int,
    pub is_end: bool,
    pub goes: Map<char, usize>,
    pub eps: Seq<usize>,
}

/// Whether every transition of a state leads to a state below `len`.
pub open spec fn node_closed(node: Node, len: nat) -> bool {
    &&& forall|i: int|
        0 <= i < node.transition@.len() ==> (#[trigger] node.transition@[i]).1 < len
    &&& forall|j: int|
        0 <= j < node.epsilon_transitions@.len() ==> (#[trigger] node.epsilon_transitions@[j])
            < len
}

/// A transition table as a map from symbols to targets.
pub open spec fn table_map(table: Seq<(char, usize)>) -> Map<char, usize> {
    Map::new(|c: char| table_get(table, c).is_some(), |c: char| table_get(table, c).unwrap())
}

impl View for Node {
    type V = NodeValue;

    open spec fn view(&self) -> NodeValue {
        NodeValue {
            id: self.id as int,
            is_end: self.is_end,
            goes: table_map(self.transition@),
            eps: self.epsilon_transitions@,
        }
    }
}

impl PartialEq for Node {
    fn eq(&self, other: &Self) -> (r: bool) {
        self.id == other.id
    }
}

impl vstd::std_specs::cmp::PartialEqSpecImpl for Node {
    open spec fn obeys_eq_spec() -> bool {
        true
    }

    open spec fn eq_spec(&self, other: &Self) -> bool {
        self.id == other.id
    }
}

impl Node {
    /// A state without transitions.
    pub fn new(is_end: bool, id: i32) -> (node: Node)
        ensures
            node.id == id,
            node.is_end == is_end,
            node.transition@ == Seq::<(char, usize)>::empty(),
            node.epsilon_transitions@ == Seq::<usize>::empty(),
            node@ == (NodeValue {
                id: id as int,
                is_end,
                goes: Map::empty(),
                eps: Seq::empty(),
            }),
    {
        let node = Node { id, is_end, transition: Vec::new(), epsilon_transitions: Vec::new() };
        assert(node@.goes =~= Map::<char, usize>::empty());
        node
    }

    /// A state with the transitions given.
    pub fn new_full(
        is_end: bool,
        transition: Vec<(char, usize)>,
        epsilon_transitions: Vec<usize>,
        id: i32,
    ) -> (node: Node)
        ensures
            node.id == id,
            node.is_end == is_end,
            node.transition == transition,
            node.epsilon_transitions == epsilon_transitions,
    {
        Node { id, is_end, transition, epsilon_transitions }
    }

    /// Where `symbol` leads from this state.
    pub fn target(&self, symbol: char) -> (r: Option<usize>)
        ensures
            r == table_get(self.transition@, symbol),
    {
        let mut i: usize = 0;
        assert(self.transition@.subrange(0, self.transition@.len() as int) == self.transition@);
        while i < self.transition.len()
            invariant
                i <= self.transition@.len(),
                table_get(self.transition@, symbol) == table_get(
                    self.transition@.subrange(i as int, self.transition@.len() as int),
                    symbol,
                ),
            decreases self.transition.len() - i,
        {
            let ghost rest = self.transition@.subrange(i as int, self.transition@.len() as int);
            assert(rest[0] == self.transition@[i as int]);
            assert(rest.drop_first() == self.transition@.subrange(
                i as int + 1,
                self.transition@.len() as int,
            ));
            let p: (char, usize) = self.transition[i];
            if p.0 == symbol {
                return Some(p.1);
            }
            i += 1;
        }
        None
    }

    /// Makes `symbol` lead to `to`, whatever it led to before.
    pub fn set_target(&mut self, symbol: char, to: usize)
        ensures
            final(self).id == old(self).id,
            final(self).is_end == old(self).is_end,
            final(self).epsilon_transitions == old(self).epsilon_transitions,
            forall|c: char|
                table_get(final(self).transition@, c) == if c == symbol {
                    Some(to)
                } else {
                    table_get(old(self).transition@, c)
                },
            final(self)@.goes == old(self)@.goes.insert(symbol, to),
            final(self).transition@ == seq![(symbol, to)] + old(self).transition@,
    {
        let ghost before = self.transition@;
        let mut table: Vec<(char, usize)> = Vec::new();
        table.push((symbol, to));
        let mut i: usize = 0;
        while i < self.transition.len()
            invariant
                i <= self.transition@.len(),
                self.transition@ == before,
                table@ == seq![(symbol, to)] + before.subrange(0, i as int),
            decreases self.transition.len() - i,
        {
            table.push(self.transition[i]);
            assert(before.subrange(0, i as int + 1) == before.subrange(0, i as int).push(
                before[i as int],
            ));
            assert(table@ =~= seq![(symbol, to)] + before.subrange(0, i as int + 1));
            i += 1;
        }
        self.transition = table;
        assert(before.subrange(0, before.len() as int) == before);
        assert(self.transition@ =~= seq![(symbol, to)] + before);
        assert forall|c: char|
            table_get(self.transition@, c) == if c == symbol {
                Some(to)
            } else {
                table_get(before, c)
            } by {
            assert(self.transition@.drop_first() =~= before);
        }
        assert(self@.goes =~= old(self)@.goes.insert(symbol, to));
    }

    /// A copy of the state.
    pub fn copy(&self) -> (node: Node)
        ensures
            node.id == self.id,
            node.is_end == self.is_end,
            node.transition@ == self.transition@,
            node.epsilon_transitions@ == self.epsilon_transitions@,
            node@ == self@,
    {
        let mut transition: Vec<(char, usize)> = Vec::new();
        let mut i: usize = 0;
        while i < self.transition.len()
            invariant
                i <= self.transition@.len(),
                transition@ == self.transition@.subrange(0, i as int),
            decreases self.transition.len() - i,
        {
            transition.push(self.transition[i]);
            assert(self.transition@.subrange(0, i as int + 1) == self.transition@.subrange(
                0,
                i as int,
            ).push(self.transition@[i as int]));
            i += 1;
        }
        assert(self.transition@.subrange(0, self.transition@.len() as int) == self.transition@);
        let mut eps: Vec<usize> = Vec::new();
        let mut j: usize = 0;
        while j < self.epsilon_transitions.len()
            invariant
                j <= self.epsilon_transitions@.len(),
                eps@ == self.epsilon_transitions@.subrange(0, j as int),
            decreases self.epsilon_transitions.len() - j,
        {
            eps.push(self.epsilon_transitions[j]);
            assert(self.epsilon_transitions@.subrange(0, j as int + 1)
                == self.epsilon_transitions@.subrange(0, j as int).push(
                self.epsilon_transitions@[j as int],
            ));
            j += 1;
        }
        assert(self.epsilon_transitions@.subrange(0, self.epsilon_transitions@.len() as int)
            == self.epsilon_transitions@);
        Node { id: self.id, is_end: self.is_end, transition, epsilon_transitions: eps }
    }
}

} // verus!
