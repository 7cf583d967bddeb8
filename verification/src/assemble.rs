//! Assembling the fragment automaton of a pattern from its postfix form.

use crate::chars::{chars_to_string, str_to_chars};
use crate::class::add_range;
use crate::node::{node_closed, Node, NodeValue};
use crate::postfix::{
    insert_concat_chars,
    postfix_chars,
    spec_insert_concat,
    spec_to_postfix_insert_concat,
};
use crate::assemble_spec::{
    after,
    spec_attach,
    spec_bounds_scan,
    spec_cap,
    spec_class_text,
    spec_copies,
    spec_digit,
    spec_eval,
    spec_finish,
    spec_from_postfix,
    spec_new,
    spec_repeat,
    spec_step,
    within,
    Table,
    Copies,
    Frag,
};
use crate::regex::{closed, values, Fragment, Regex};
use vstd::prelude::*;

verus! {

/// A state moved `offset` places up the table: its transitions lead
/// `offset` places further, and it carries the number `id`.
pub open spec fn v_shift(node: NodeValue, offset: int, id: int) -> NodeValue {
    NodeValue {
        id,
        is_end: node.is_end,
        goes: Map::new(
            |c: char| node.goes.dom().contains(c),
            |c: char| (node.goes[c] + offset) as usize,
        ),
        eps: Seq::new(node.eps.len(), |j: int| (node.eps[j] + offset) as usize),
    }
}

/// `nodes` with a copy of each state of `source` behind them, moved up by
/// the length of `nodes` and numbered from `id` on.
pub open spec fn spec_add(nodes: Seq<NodeValue>, source: Seq<NodeValue>, id: int) -> Seq<
    NodeValue,
> {
    nodes + Seq::new(source.len(), |i: int| v_shift(source[i], nodes.len() as int, id + i))
}

/// Whether every transition of the state, moved up by `offset`, still fits
/// the machine word.
pub open spec fn node_shiftable(node: Node, offset: nat) -> bool {
    &&& forall|i: int|
        0 <= i < node.transition@.len() ==> (#[trigger] node.transition@[i]).1 + offset
            <= usize::MAX
    &&& forall|j: int|
        0 <= j < node.epsilon_transitions@.len() ==> (#[trigger] node.epsilon_transitions@[j])
            + offset <= usize::MAX
}

/// Whether every transition of every state of `source`, moved up by
/// `offset`, still fits the machine word.
pub open spec fn shiftable(source: Seq<Node>, offset: nat) -> bool {
    forall|a: int| 0 <= a < source.len() ==> node_shiftable(#[trigger] source[a], offset)
}

/// The transition table `table` with every target `offset` further.
pub open spec fn shift_table(table: Seq<(char, usize)>, offset: int) -> Seq<(char, usize)> {
    Seq::new(table.len(), |i: int| (table[i].0, (table[i].1 + offset) as usize))
}

/// A table moved up leads, for each symbol, where the table led, moved up.
pub proof fn lemma_shift_table(table: Seq<(char, usize)>, offset: int, c: char)
    ensures
        crate::node::table_get(shift_table(table, offset), c) == match crate::node::table_get(
            table,
            c,
        ) {
            Some(t) => Some((t + offset) as usize),
            None => None,
        },
    decreases table.len(),
{
    if table.len() > 0 {
        assert(shift_table(table, offset).drop_first() =~= shift_table(table.drop_first(), offset));
        if table[0].0 != c {
            lemma_shift_table(table.drop_first(), offset, c);
        }
    }
}

impl Node {
    /// A copy of the state with the number `id`, its transitions with a
    /// symbol leading `offset` places further, and those without a symbol
    /// `eps_offset` places further.
    pub fn shifted(&self, offset: usize, eps_offset: usize, id: i32) -> (node: Node)
        requires
            forall|i: int|
                0 <= i < self.transition@.len() ==> (#[trigger] self.transition@[i]).1 + offset
                    <= usize::MAX,
            forall|j: int|
                0 <= j < self.epsilon_transitions@.len() ==> (
                #[trigger] self.epsilon_transitions@[j]) + eps_offset <= usize::MAX,
        ensures
            node.id == id,
            node.is_end == self.is_end,
            node.transition@ == shift_table(self.transition@, offset as int),
            node.epsilon_transitions@ == Seq::new(
                self.epsilon_transitions@.len(),
                |j: int| (self.epsilon_transitions@[j] + eps_offset) as usize,
            ),
    {
        let mut transition: Vec<(char, usize)> = Vec::new();
        let mut i: usize = 0;
        while i < self.transition.len()
            invariant
                i <= self.transition@.len(),
                forall|k: int|
                    0 <= k < self.transition@.len() ==> (#[trigger] self.transition@[k]).1 + offset
                        <= usize::MAX,
                transition@.len() == i,
                forall|k: int|
                    0 <= k < i ==> #[trigger] transition@[k] == (
                        self.transition@[k].0,
                        (self.transition@[k].1 + offset) as usize,
                    ),
            decreases self.transition.len() - i,
        {
            let p: (char, usize) = self.transition[i];
            transition.push((p.0, p.1 + offset));
            i += 1;
        }
        let mut eps: Vec<usize> = Vec::new();
        let mut j: usize = 0;
        while j < self.epsilon_transitions.len()
            invariant
                j <= self.epsilon_transitions@.len(),
                forall|k: int|
                    0 <= k < self.epsilon_transitions@.len() ==> (
                    #[trigger] self.epsilon_transitions@[k]) + eps_offset <= usize::MAX,
                eps@.len() == j,
                forall|k: int|
                    0 <= k < j ==> #[trigger] eps@[k] == (self.epsilon_transitions@[k]
                        + eps_offset) as usize,
            decreases self.epsilon_transitions.len() - j,
        {
            eps.push(self.epsilon_transitions[j] + eps_offset);
            j += 1;
        }
        assert(transition@ =~= shift_table(self.transition@, offset as int));
        assert(eps@ =~= Seq::new(
            self.epsilon_transitions@.len(),
            |j: int| (self.epsilon_transitions@[j] + eps_offset) as usize,
        ));
        Node { id, is_end: self.is_end, transition, epsilon_transitions: eps }
    }
}

/// The value of a state moved up the table.
pub proof fn lemma_shifted_value(node: Node, moved: Node, offset: int, id: int)
    requires
        moved.id == id,
        moved.is_end == node.is_end,
        moved.transition@ == shift_table(node.transition@, offset),
        moved.epsilon_transitions@ == Seq::new(
            node.epsilon_transitions@.len(),
            |j: int| (node.epsilon_transitions@[j] + offset) as usize,
        ),
    ensures
        moved@ == v_shift(node@, offset, id),
{
    assert forall|c: char| moved@.goes.dom().contains(c) == v_shift(
        node@,
        offset,
        id,
    ).goes.dom().contains(c) by {
        lemma_shift_table(node.transition@, offset, c);
    }
    assert forall|c: char| moved@.goes.dom().contains(c) implies moved@.goes[c] == v_shift(
        node@,
        offset,
        id,
    ).goes[c] by {
        lemma_shift_table(node.transition@, offset, c);
    }
    assert(moved@.goes =~= v_shift(node@, offset, id).goes);
    assert(moved@.eps =~= v_shift(node@, offset, id).eps);
}

impl Regex {
    /// Adds a copy of each state of `source` behind the table, moved up
    /// by the length of the table and numbered from `id` on.
    pub fn add(&mut self, source: &Vec<Node>, id: &mut i32)
        requires
            *old(id) + source@.len() <= i32::MAX,
            shiftable(source@, old(self).all_nodes@.len()),
        ensures
            *final(id) == *old(id) + source@.len(),
            final(self).nodes() == spec_add(old(self).nodes(), values(source@), *old(id) as int),
            final(self).all_nodes@.len() == old(self).all_nodes@.len() + source@.len(),
            final(self).start == old(self).start,
            final(self).end == old(self).end,
            forall|i: int|
                0 <= i < old(self).all_nodes@.len() ==> final(self).all_nodes@[i] == old(
                    self,
                ).all_nodes@[i],
            old(self).is_closed() && closed(source@) ==> final(self).is_closed(),
    {
        let offset: usize = self.all_nodes.len();
        let mut i: usize = 0;
        while i < source.len()
            invariant
                i <= source@.len(),
                offset == old(self).all_nodes@.len(),
                *old(id) + source@.len() <= i32::MAX,
                *id == *old(id) + i,
                shiftable(source@, offset as nat),
                self.start == old(self).start,
                self.end == old(self).end,
                self.all_nodes@.len() == offset + i,
                forall|k: int| 0 <= k < offset ==> self.all_nodes@[k] == old(self).all_nodes@[k],
                forall|k: int|
                    0 <= k < i ==> {
                        &&& (#[trigger] self.all_nodes@[offset + k])@ == v_shift(
                            source@[k]@,
                            offset as int,
                            *old(id) + k,
                        )
                        &&& self.all_nodes@[offset + k].transition@ == shift_table(
                            source@[k].transition@,
                            offset as int,
                        )
                        &&& self.all_nodes@[offset + k].epsilon_transitions@ == Seq::new(
                            source@[k].epsilon_transitions@.len(),
                            |j: int| (source@[k].epsilon_transitions@[j] + offset) as usize,
                        )
                    },
            decreases source.len() - i,
        {
            let el = &source[i];
            assert(node_shiftable(source@[i as int], offset as nat));
            let n = el.shifted(offset, offset, *id);
            proof {
                lemma_shifted_value(*el, n, offset as int, *id as int);
            }
            *id += 1;
            self.all_nodes.push(n);
            i += 1;
        }
        proof {
            let want = spec_add(old(self).nodes(), values(source@), *old(id) as int);
            assert(want.len() == self.nodes().len());
            assert forall|x: int| 0 <= x < want.len() implies self.nodes()[x] == want[x] by {
                if x < offset {
                    assert(self.all_nodes@[x] == old(self).all_nodes@[x]);
                } else {
                    let k = x - offset;
                    assert(self.all_nodes@[offset + k]@ == v_shift(
                        source@[k]@,
                        offset as int,
                        *old(id) + k,
                    ));
                }
            }
            assert(self.nodes() =~= want);
            if old(self).is_closed() && closed(source@) {
                let len = self.all_nodes@.len();
                assert forall|a: int| 0 <= a < len implies node_closed(
                    #[trigger] self.all_nodes@[a],
                    len,
                ) by {
                    if a < offset {
                        assert(node_closed(old(self).all_nodes@[a], offset as nat));
                    } else {
                        let k = a - offset;
                        assert(self.all_nodes@[offset + k].transition@ == shift_table(
                            source@[k].transition@,
                            offset as int,
                        ));
                        assert(node_closed(source@[k], source@.len()));
                    }
                }
            }
        }
    }

    /// Adds a copy of each of the states `start..=end` behind the table,
    /// numbered from `id` on. In a copy the transitions with a symbol lead
    /// further by the length the table had; those without a symbol lead
    /// where they led.
    pub fn duplicate(&mut self, start: usize, end: usize, id: &mut i32)
        requires
            start <= end < old(self).all_nodes@.len(),
            *old(id) + (end - start + 1) <= i32::MAX,
            shiftable(old(self).all_nodes@, old(self).all_nodes@.len()),
        ensures
            *final(id) == *old(id) + (end - start + 1),
            final(self).all_nodes@.len() == old(self).all_nodes@.len() + (end - start + 1),
            final(self).start == old(self).start,
            final(self).end == old(self).end,
            forall|i: int|
                0 <= i < old(self).all_nodes@.len() ==> final(self).all_nodes@[i] == old(
                    self,
                ).all_nodes@[i],
            forall|k: int|
                0 <= k <= end - start ==> {
                    let copy = #[trigger] final(self).all_nodes@[old(self).all_nodes@.len() + k];
                    let from = old(self).all_nodes@[start + k];
                    &&& copy.id == *old(id) + k
                    &&& copy.is_end == from.is_end
                    &&& copy.transition@ == shift_table(
                        from.transition@,
                        old(self).all_nodes@.len() as int,
                    )
                    &&& copy.epsilon_transitions@ == from.epsilon_transitions@
                },
    {
        let offset: usize = self.all_nodes.len();
        let mut i: usize = start;
        while i <= end
            invariant
                start <= i <= end + 1,
                end < offset,
                offset == old(self).all_nodes@.len(),
                *old(id) + (end - start + 1) <= i32::MAX,
                *id == *old(id) + (i - start),
                shiftable(old(self).all_nodes@, offset as nat),
                self.start == old(self).start,
                self.end == old(self).end,
                self.all_nodes@.len() == offset + (i - start),
                forall|k: int| 0 <= k < offset ==> self.all_nodes@[k] == old(self).all_nodes@[k],
                forall|k: int|
                    0 <= k < i - start ==> {
                        let copy = #[trigger] self.all_nodes@[offset + k];
                        let from = old(self).all_nodes@[start + k];
                        &&& copy.id == *old(id) + k
                        &&& copy.is_end == from.is_end
                        &&& copy.transition@ == shift_table(from.transition@, offset as int)
                        &&& copy.epsilon_transitions@ == from.epsilon_transitions@
                    },
            decreases end + 1 - i,
        {
            let el = &self.all_nodes[i];
            assert(node_shiftable(old(self).all_nodes@[i as int], offset as nat));
            let n = el.shifted(offset, 0, *id);
            assert(n.epsilon_transitions@ =~= el.epsilon_transitions@);
            *id += 1;
            self.all_nodes.push(n);
            i += 1;
        }
    }

    /// Writes out the joining dots of a pattern; `None` where a `[` or `{`
    /// is never closed.
    pub fn insert_concat(&mut self, regex: String) -> (r: Option<String>)
        ensures
            *final(self) == *old(self),
            match r {
                Some(out) => spec_insert_concat(regex@) == Some(out@),
                None => spec_insert_concat(regex@).is_none(),
            },
    {
        let s = str_to_chars(regex.as_str());
        match insert_concat_chars(&s) {
            Some(out) => Some(chars_to_string(&out)),
            None => None,
        }
    }

    /// Puts a pattern into postfix notation; `None` where a `[` or `{` is
    /// never closed.
    pub fn to_postfix_insert_concat(&mut self, raw_regex: String) -> (r: Option<String>)
        ensures
            *final(self) == *old(self),
            match r {
                Some(out) => spec_to_postfix_insert_concat(raw_regex@) == Some(out@),
                None => spec_to_postfix_insert_concat(raw_regex@).is_none(),
            },
    {
        let s = str_to_chars(raw_regex.as_str());
        match insert_concat_chars(&s) {
            Some(dotted) => {
                let out = postfix_chars(&dotted);
                Some(chars_to_string(&out))
            },
            None => None,
        }
    }
}

/// Whether every fragment of the list lies within the first `len` states.
pub open spec fn frags_within(stack: Seq<Fragment>, len: nat) -> bool {
    forall|k: int| 0 <= k < stack.len() ==> (#[trigger] stack[k]).0 < len && stack[k].1 < len
}

/// A fragment as a pair of integers.
pub open spec fn frag(f: Fragment) -> Frag {
    (f.0 as int, f.1 as int)
}

/// A list of fragments as pairs of integers.
pub open spec fn frags(stack: Seq<Fragment>) -> Seq<Frag> {
    Seq::new(stack.len(), |k: int| frag(stack[k]))
}

/// The value of a decimal digit.
pub fn digit_of(c: char) -> (r: Option<i32>)
    ensures
        match r {
            Some(d) => spec_digit(c) == Some(d as int) && 0 <= d <= 9,
            None => spec_digit(c).is_none(),
        },
{
    if '0' <= c && c <= '9' {
        Some((c as u32 - '0' as u32) as i32)
    } else {
        None
    }
}

/// Reads the bounds of a counted repetition whose text begins at index `i`,
/// just behind the opening brace, and finds the closing brace.
pub fn read_bounds(p: &Vec<char>, i: usize) -> (r: Option<(i32, i32, usize)>)
    requires
        1 <= i,
    ensures
        match r {
            Some((lower, upper, close)) => {
                &&& spec_bounds_scan(p@, i as int, -1, -1) == Some(
                    (lower as int, upper as int, close as int),
                )
                &&& i <= close < p@.len()
                &&& -1 <= lower <= 9
                &&& -1 <= upper <= 9
            },
            None => spec_bounds_scan(p@, i as int, -1, -1).is_none(),
        },
{
    let n: usize = p.len();
    let mut lower: i32 = -1;
    let mut upper: i32 = -1;
    let mut k: usize = i;
    while k < n && p[k] != '}'
        invariant
            1 <= i <= k,
            n == p@.len(),
            -1 <= lower <= 9,
            -1 <= upper <= 9,
            spec_bounds_scan(p@, i as int, -1, -1) == spec_bounds_scan(
                p@,
                k as int,
                lower as int,
                upper as int,
            ),
        decreases n - k,
    {
        if p[k] == ',' {
            if p[k - 1] != '{' {
                match digit_of(p[k - 1]) {
                    Some(d) => {
                        lower = d;
                    },
                    None => {
                        return None;
                    },
                }
            }
            if n - k < 2 {
                return None;
            }
            if p[k + 1] != '}' {
                match digit_of(p[k + 1]) {
                    Some(d) => {
                        upper = d;
                    },
                    None => {
                        return None;
                    },
                }
            }
        }
        k += 1;
    }
    if k >= n {
        return None;
    }
    if upper == -1 && lower == -1 {
        match digit_of(p[k - 1]) {
            Some(d) => {
                upper = d;
                lower = d;
            },
            None => {
                return None;
            },
        }
    }
    Some((lower, upper, k))
}

/// Reads the symbols of a class whose text begins at index `i`, just behind
/// the opening bracket, and finds the closing bracket.
pub fn read_class(p: &Vec<char>, i: usize) -> (r: Option<(Vec<char>, usize)>)
    requires
        1 <= i,
    ensures
        match r {
            Some((chars, close)) => {
                &&& spec_class_text(p@, i as int, Seq::empty()) == Some((chars@, close as int))
                &&& i <= close < p@.len()
            },
            None => spec_class_text(p@, i as int, Seq::empty()).is_none(),
        },
{
    let n: usize = p.len();
    let mut characters: Vec<char> = Vec::new();
    let mut k: usize = i;
    while k < n && p[k] != ']'
        invariant
            1 <= i <= k,
            n == p@.len(),
            spec_class_text(p@, i as int, Seq::empty()) == spec_class_text(
                p@,
                k as int,
                characters@,
            ),
        decreases n - k,
    {
        if p[k] == '-' {
            if n - k < 2 {
                return None;
            }
            add_range(&mut characters, p[k - 1], p[k + 1]);
            k += 2;
        } else {
            if p[k] != '.' {
                characters.push(p[k]);
            }
            k += 1;
        }
    }
    if k >= n {
        return None;
    }
    Some((characters, k))
}

impl Regex {
    /// The table under assembly, `id` being the number that the next new
    /// state gets.
    pub open spec fn table(&self, id: i32) -> Table {
        Table { nodes: self.nodes(), start: self.start as int, end: self.end as int, id: id as int }
    }

    /// Whether the fragment lies in the table.
    pub fn holds(&self, f: Fragment) -> (r: bool)
        ensures
            r == (f.0 < self.all_nodes@.len() && f.1 < self.all_nodes@.len()),
    {
        f.0 < self.all_nodes.len() && f.1 < self.all_nodes.len()
    }

    /// Puts a copy of the states `curr` behind the table and joins the
    /// fragment `n` to the copy, which is taken to span `span` states from
    /// the state behind the last state of `n`. Fails where the copy does not
    /// fit the machine or the fragments do not lie in the table.
    fn attach_copy(&mut self, curr: &Vec<Node>, n: Fragment, span: usize, id: &mut i32) -> (r:
        Option<Fragment>)
        requires
            old(self).is_closed(),
            closed(curr@),
        ensures
            final(self).is_closed(),
            final(self).all_nodes@.len() >= old(self).all_nodes@.len(),
            match r {
                Some(f) => {
                    &&& final(self).wf()
                    &&& f == (final(self).start, final(self).end)
                    &&& n.0 < final(self).all_nodes@.len()
                    &&& n.1 < final(self).all_nodes@.len()
                    &&& spec_attach(old(self).table(*old(id)), values(curr@), frag(n), span as int)
                        == Some(final(self).table(*final(id)))
                },
                None => spec_attach(
                    old(self).table(*old(id)),
                    values(curr@),
                    frag(n),
                    span as int,
                ).is_none(),
            },
    {
        let len: usize = self.all_nodes.len();
        let count: usize = curr.len();
        if count > usize::MAX - len || count > 0x7fff_ffff || *id > i32::MAX - (count as i32) {
            return None;
        }
        proof {
            assert forall|a: int| 0 <= a < curr@.len() implies node_shiftable(
                #[trigger] curr@[a],
                len as nat,
            ) by {
                assert(node_closed(curr@[a], curr@.len()));
            }
        }
        self.add(curr, id);
        if n.1 >= usize::MAX - span || n.1 + 1 > usize::MAX - span {
            return None;
        }
        let second: Fragment = (n.1 + 1, n.1 + 1 + span);
        if !self.holds(n) || !self.holds(second) {
            return None;
        }
        self.concat(n, second);
        Some((self.start, self.end))
    }

    /// Ends a counted repetition: the last state of the fragment made last
    /// accepts no more, and a new accepting state is reached from `from`
    /// without a symbol.
    fn cap(&mut self, from: usize, id: &mut i32) -> (r: Option<()>)
        requires
            old(self).wf(),
            from < old(self).all_nodes@.len(),
        ensures
            final(self).is_closed(),
            final(self).all_nodes@.len() >= old(self).all_nodes@.len(),
            match r {
                Some(_) => final(self).wf() && spec_cap(old(self).table(*old(id)), from as int)
                    == Some(final(self).table(*final(id))),
                None => spec_cap(old(self).table(*old(id)), from as int).is_none(),
            },
    {
        if *id > i32::MAX - 1 {
            return None;
        }
        let last: usize = self.end;
        self.set_end(last, false);
        let new_end = Node::new(true, *id);
        *id += 1;
        let ghost before = self.nodes();
        self.all_nodes.push(new_end);
        let e: usize = self.all_nodes.len() - 1;
        self.end = e;
        assert(self.nodes() =~= before.push(crate::regex::v_node(*old(id) as int, true)));
        assert(self.is_closed()) by {
            assert forall|a: int| 0 <= a < self.all_nodes@.len() implies node_closed(
                #[trigger] self.all_nodes@[a],
                self.all_nodes@.len(),
            ) by {
                if a < e {
                    assert(node_closed(old(self).all_nodes@[a], old(self).all_nodes@.len()));
                }
            }
        }
        self.add_epsilon_transition(from, e);
        Some(())
    }

    /// Attaches copies of `curr` one after the other until `dup` reaches
    /// `limit - 1`; where `link` is set, each copy can be left out.
    fn attach_copies(
        &mut self,
        curr: &Vec<Node>,
        n: Fragment,
        span: usize,
        dup: i32,
        limit: i32,
        link: bool,
        prev: usize,
        id: &mut i32,
    ) -> (r: Option<(Fragment, i32, usize)>)
        requires
            old(self).is_closed(),
            closed(curr@),
            0 <= dup,
            -1 <= limit <= 9,
            prev <= old(self).all_nodes@.len(),
        ensures
            final(self).is_closed(),
            final(self).all_nodes@.len() >= old(self).all_nodes@.len(),
            match r {
                Some((f, d, q)) => {
                    &&& 0 <= d
                    &&& d >= dup
                    &&& q <= final(self).all_nodes@.len()
                    &&& spec_copies(
                        Copies {
                            m: old(self).table(*old(id)),
                            n: frag(n),
                            dup: dup as int,
                            prev: prev as int,
                        },
                        values(curr@),
                        span as int,
                        limit as int,
                        link,
                    ) == Some(
                        Copies {
                            m: final(self).table(*final(id)),
                            n: frag(f),
                            dup: d as int,
                            prev: q as int,
                        },
                    )
                },
                None => spec_copies(
                    Copies {
                        m: old(self).table(*old(id)),
                        n: frag(n),
                        dup: dup as int,
                        prev: prev as int,
                    },
                    values(curr@),
                    span as int,
                    limit as int,
                    link,
                ).is_none(),
            },
    {
        let ghost goal = spec_copies(
            Copies { m: self.table(*id), n: frag(n), dup: dup as int, prev: prev as int },
            values(curr@),
            span as int,
            limit as int,
            link,
        );
        let mut at: Fragment = n;
        let mut made: i32 = dup;
        let mut before_last: usize = prev;
        while made < limit - 1
            invariant
                self.is_closed(),
                closed(curr@),
                self.all_nodes@.len() >= old(self).all_nodes@.len(),
                -1 <= limit <= 9,
                0 <= dup <= made,
                before_last <= self.all_nodes@.len(),
                goal == spec_copies(
                    Copies {
                        m: old(self).table(*old(id)),
                        n: frag(n),
                        dup: dup as int,
                        prev: prev as int,
                    },
                    values(curr@),
                    span as int,
                    limit as int,
                    link,
                ),
                goal == spec_copies(
                    Copies {
                        m: self.table(*id),
                        n: frag(at),
                        dup: made as int,
                        prev: before_last as int,
                    },
                    values(curr@),
                    span as int,
                    limit as int,
                    link,
                ),
            decreases limit - made,
        {
            let before: usize = self.all_nodes.len();
            let ghost here = Copies {
                m: self.table(*id),
                n: frag(at),
                dup: made as int,
                prev: before_last as int,
            };
            match self.attach_copy(curr, at, span, id) {
                Some(f) => {
                    if link {
                        let e: usize = self.end;
                        self.add_epsilon_transition(at.1, e);
                    }
                    at = f;
                    before_last = before;
                },
                None => {
                    assert(spec_copies(here, values(curr@), span as int, limit as int, link).is_none());
                    return None;
                },
            }
            made += 1;
            assert(goal == spec_copies(
                Copies {
                    m: self.table(*id),
                    n: frag(at),
                    dup: made as int,
                    prev: before_last as int,
                },
                values(curr@),
                span as int,
                limit as int,
                link,
            )) by {
                assert(goal == spec_copies(here, values(curr@), span as int, limit as int, link));
            }
        }
        Some((at, made, before_last))
    }

    /// Attaches the last copy of a counted repetition with a greatest count
    /// and ends the repetition behind the fragment `n`.
    fn finish(&mut self, curr: &Vec<Node>, n: Fragment, span: usize, id: &mut i32) -> (r: Option<
        (),
    >)
        requires
            old(self).is_closed(),
            closed(curr@),
        ensures
            final(self).is_closed(),
            final(self).all_nodes@.len() >= old(self).all_nodes@.len(),
            match r {
                Some(_) => final(self).wf() && spec_finish(
                    Copies { m: old(self).table(*old(id)), n: frag(n), dup: 0, prev: 0 },
                    values(curr@),
                    span as int,
                ) == Some(final(self).table(*final(id))),
                None => spec_finish(
                    Copies { m: old(self).table(*old(id)), n: frag(n), dup: 0, prev: 0 },
                    values(curr@),
                    span as int,
                ).is_none(),
            },
    {
        match self.attach_copy(curr, n, span, id) {
            Some(_) => self.cap(n.1, id),
            None => None,
        }
    }

    /// Repeats the fragment `first` as a counted repetition with the bounds
    /// `lower` and `upper`, -1 standing for a bound left out.
    pub fn repeat(&mut self, first: Fragment, lower: i32, upper: i32, id: &mut i32) -> (r: Option<
        (),
    >)
        requires
            old(self).is_closed(),
            -1 <= lower <= 9,
            -1 <= upper <= 9,
        ensures
            final(self).is_closed(),
            final(self).all_nodes@.len() >= old(self).all_nodes@.len(),
            match r {
                Some(_) => final(self).wf() && spec_repeat(
                    old(self).table(*old(id)),
                    frag(first),
                    lower as int,
                    upper as int,
                ) == Some(final(self).table(*final(id))),
                None => spec_repeat(
                    old(self).table(*old(id)),
                    frag(first),
                    lower as int,
                    upper as int,
                ).is_none(),
            },
    {
        if first.1 < first.0 {
            return None;
        }
        let span: usize = first.1 - first.0;
        let curr = self.all_nodes();
        let len0: usize = self.all_nodes.len();
        proof {
            assert forall|a: int| 0 <= a < curr@.len() implies node_closed(
                #[trigger] curr@[a],
                curr@.len(),
            ) by {
                assert(curr@[a].transition@ == self.all_nodes@[a].transition@);
                assert(node_closed(self.all_nodes@[a], self.all_nodes@.len()));
            }
        }
        if lower == upper {
            return match self.attach_copies(&curr, first, span, 0, lower, false, len0, id) {
                Some((n, _, _)) => self.finish(&curr, n, span, id),
                None => None,
            };
        }
        if upper == -1 {
            let prev_end: usize = match self.attach_copies(
                &curr,
                first,
                span,
                0,
                lower,
                false,
                len0,
                id,
            ) {
                Some((_, _, prev)) => prev,
                None => {
                    return None;
                },
            };
            if *id > i32::MAX - 1 || self.end >= self.all_nodes.len() || self.start
                >= self.all_nodes.len() {
                return None;
            }
            let last: usize = self.end;
            let node = Node::new(true, *id);
            let ghost pushed_id = *id;
            *id += 1;
            let ghost before = self.all_nodes@;
            let ghost before_nodes = self.nodes();
            self.all_nodes.push(node);
            let end_ptr: usize = self.all_nodes.len() - 1;
            assert(self.nodes() =~= before_nodes.push(crate::regex::v_node(pushed_id as int, true)));
            assert(self.is_closed()) by {
                assert forall|a: int| 0 <= a < self.all_nodes@.len() implies node_closed(
                    #[trigger] self.all_nodes@[a],
                    self.all_nodes@.len(),
                ) by {
                    if a < end_ptr {
                        assert(node_closed(before[a], before.len()));
                    }
                }
            }
            self.set_end(last, false);
            self.add_epsilon_transition(last, end_ptr);
            self.add_epsilon_transition(last, prev_end);
            self.end = end_ptr;
            return Some(());
        }
        let (n1, dup1) = if lower > -1 {
            match self.attach_copies(&curr, first, span, 0, lower, false, len0, id) {
                Some((n, dup, _)) => (n, dup),
                None => {
                    return None;
                },
            }
        } else {
            (first, 0)
        };
        let n2 = match self.attach_copies(&curr, n1, span, dup1, upper, true, len0, id) {
            Some((n, _, _)) => n,
            None => {
                return None;
            },
        };
        match self.finish(&curr, n2, span, id) {
            Some(_) => {},
            None => {
                return None;
            },
        }
        if lower == -1 {
            let s: usize = self.start;
            self.set_end(s, true);
        }
        Some(())
    }

    /// Handles the token at index `i` of a pattern in postfix notation and
    /// returns the index behind the token.
    pub fn step(&mut self, p: &Vec<char>, i: usize, stack: &mut Vec<Fragment>, id: &mut i32) -> (r:
        Option<usize>)
        requires
            i < p@.len(),
            old(self).is_closed(),
            frags_within(old(stack)@, old(self).all_nodes@.len()),
        ensures
            final(self).is_closed(),
            match r {
                Some(j) => {
                    &&& i < j <= p@.len()
                    &&& frags_within(final(stack)@, final(self).all_nodes@.len())
                    &&& spec_step(p@, i as int, old(self).table(*old(id)), frags(old(stack)@))
                        == Some((final(self).table(*final(id)), frags(final(stack)@), j as int))
                },
                None => spec_step(
                    p@,
                    i as int,
                    old(self).table(*old(id)),
                    frags(old(stack)@),
                ).is_none(),
            },
    {
        let n: usize = p.len();
        let token: char = p[i];
        let ghost stack0 = stack@;
        if *id > i32::MAX - 2 {
            return None;
        }
        let mut next: usize = i + 1;
        if token == '*' || token == '+' || token == '?' {
            let f = match stack.pop() {
                Some(f) => f,
                None => {
                    return None;
                },
            };
            assert(frags(stack0).last() == frag(f));
            assert(frags(stack@) =~= frags(stack0).drop_last());
            if token == '*' {
                self.asterisk(f, id);
            } else if token == '+' {
                self.plus(f, id);
            } else {
                self.question(f, id);
            }
        } else if token == '|' || token == '.' {
            let right = match stack.pop() {
                Some(f) => f,
                None => {
                    return None;
                },
            };
            let ghost stack1 = stack@;
            let left = match stack.pop() {
                Some(f) => f,
                None => {
                    assert(frags(stack0).len() < 2);
                    return None;
                },
            };
            assert(frags(stack0).last() == frag(right));
            assert(frags(stack1) =~= frags(stack0).drop_last());
            assert(frags(stack1).last() == frag(left));
            assert(frags(stack@) =~= frags(stack0).drop_last().drop_last());
            if token == '|' {
                self.union(left, right, id);
            } else {
                self.concat(left, right);
            }
        } else if token == '{' {
            let (lower, upper, close) = match read_bounds(p, i + 1) {
                Some(b) => b,
                None => {
                    return None;
                },
            };
            let f = match stack.pop() {
                Some(f) => f,
                None => {
                    return None;
                },
            };
            assert(frags(stack0).last() == frag(f));
            assert(frags(stack@) =~= frags(stack0).drop_last());
            match self.repeat(f, lower, upper, id) {
                Some(_) => {},
                None => {
                    return None;
                },
            }
            next = close + 1;
        } else if token == '[' {
            let (characters, close) = match read_class(p, i + 1) {
                Some(c) => c,
                None => {
                    return None;
                },
            };
            self.character_class(chars_to_string(&characters), id);
            next = close + 1;
        } else {
            self.from_symbol(token, id);
        }
        let ghost stack2 = stack@;
        stack.push((self.start, self.end));
        assert(frags(stack@) =~= frags(stack2).push((self.start as int, self.end as int)));
        Some(next)
    }

    /// Assembles the automaton of a pattern in postfix notation, in which
    /// `*`, `+`, `?` and a counted repetition in braces follow their
    /// operand, the dot and the bar follow their two operands, a class
    /// stands in brackets and any other character is a symbol. `None` where
    /// an operand is missing, a bracket or brace is left open, a bound is no
    /// digit, or the automaton outgrows the machine.
    pub fn from_postfix(postfix: String) -> (r: Option<Regex>)
        ensures
            match r {
                Some(nfa) => nfa.wf() && spec_from_postfix(postfix@) == Some(nfa.value()),
                None => spec_from_postfix(postfix@).is_none(),
            },
    {
        let p = str_to_chars(postfix.as_str());
        let n: usize = p.len();
        let mut nfa = Regex::empty();
        let mut id: i32 = 0;
        assert(nfa.nodes() =~= Seq::<NodeValue>::empty());
        if n == 0 {
            nfa.from_epsilon(&mut id);
            return Some(nfa);
        }
        let mut stack: Vec<Fragment> = Vec::new();
        let mut i: usize = 0;
        let ghost goal = spec_eval(p@, 0, nfa.table(0), Seq::empty());
        assert(frags(stack@) =~= Seq::<Frag>::empty());
        while i < n
            invariant
                n == p@.len(),
                n > 0,
                p@ == postfix@,
                i <= n,
                nfa.is_closed(),
                frags_within(stack@, nfa.all_nodes@.len()),
                goal == spec_eval(
                    p@,
                    0,
                    Table { nodes: Seq::empty(), start: 0, end: 0, id: 0 },
                    Seq::empty(),
                ),
                goal == spec_eval(p@, i as int, nfa.table(id), frags(stack@)),
            decreases n - i,
        {
            let ghost here = nfa.table(id);
            let ghost waiting = frags(stack@);
            match nfa.step(&p, i, &mut stack, &mut id) {
                Some(j) => {
                    i = j;
                },
                None => {
                    assert(spec_eval(p@, i as int, here, waiting).is_none());
                    return None;
                },
            }
        }
        let ghost stack0 = stack@;
        let x = match stack.pop() {
            Some(f) => f,
            None => {
                return None;
            },
        };
        assert(frags(stack0).last() == frag(x));
        nfa.start = x.0;
        nfa.end = x.1;
        Some(nfa)
    }

    /// Assembles the automaton of a pattern: the pattern is put into postfix
    /// notation and assembled from that. `None` where that fails.
    pub fn new(regex_str: String) -> (r: Option<Regex>)
        ensures
            match r {
                Some(nfa) => nfa.wf() && spec_new(regex_str@) == Some(nfa.value()),
                None => spec_new(regex_str@).is_none(),
            },
    {
        let s = str_to_chars(regex_str.as_str());
        match insert_concat_chars(&s) {
            Some(dotted) => {
                let out = postfix_chars(&dotted);
                Regex::from_postfix(chars_to_string(&out))
            },
            None => None,
        }
    }
}

} // verus!
