//! Matching an input against a nondeterministic automaton directly, by
//! following all its runs at once.

use crate::chars::str_to_chars;
use crate::class::EPSILON;
use crate::epsilon::{marked, marked_below};
use crate::graph::node_set;
use crate::language::{accepting, nfa_accepts, run, step};
use crate::nfa::{has_edge, Id, NFA};
use vstd::prelude::*;

verus! {

/// The states that the symbol `c` reaches from a state of `s` along one of
/// the first `j` edges of the state `a`.
pub open spec fn step_part(paths: Seq<(char, usize)>, j: int, c: char) -> Set<int> {
    Set::new(|t: int| c != EPSILON && exists|i: int| 0 <= i < j && paths[i] == (c, t as usize) && 0 <= t <= usize::MAX)
}

/// A row of `n` cleared marks.
pub fn no_marks(n: usize) -> (marks: Vec<bool>)
    ensures
        marks@.len() == n,
        marked(marks@) == Set::<int>::empty(),
{
    let mut marks: Vec<bool> = Vec::new();
    let mut i: usize = 0;
    while i < n
        invariant
            i <= n,
            marks@.len() == i,
            forall|k: int| 0 <= k < i ==> !marks@[k],
        decreases n - i,
    {
        marks.push(false);
        i += 1;
    }
    assert(marked(marks@) =~= Set::<int>::empty());
    marks
}

/// The marked states, as a list in ascending order.
pub fn marks_to_list(marks: &Vec<bool>) -> (list: Vec<Id>)
    ensures
        node_set(list@) == marked(marks@),
        forall|k: int| 0 <= k < list@.len() ==> list@[k] < marks@.len(),
{
    let mut list: Vec<Id> = Vec::new();
    let mut a: usize = 0;
    assert(node_set(list@) =~= marked_below(marks@, 0));
    while a < marks.len()
        invariant
            a <= marks@.len(),
            node_set(list@) == marked_below(marks@, a as int),
            forall|k: int| 0 <= k < list@.len() ==> list@[k] < marks@.len(),
        decreases marks.len() - a,
    {
        if marks[a] {
            let ghost before = list@;
            list.push(a);
            assert(node_set(list@) =~= marked_below(marks@, a as int + 1)) by {
                assert forall|x: int| node_set(list@).contains(x) implies marked_below(
                    marks@,
                    a as int + 1,
                ).contains(x) by {
                    let k = choose|k: int| 0 <= k < list@.len() && list@[k] == x as usize;
                    if k < before.len() {
                        assert(before.contains(x as usize));
                        assert(node_set(before).contains(x));
                    }
                }
                assert forall|x: int|
                    marked_below(marks@, a as int + 1).contains(x) implies node_set(
                    list@,
                ).contains(x) by {
                    if x < a {
                        assert(node_set(before).contains(x));
                        let k = choose|k: int| 0 <= k < before.len() && before[k] == x as usize;
                        assert(list@[k] == x as usize);
                    } else {
                        assert(list@[before.len() as int] == a);
                    }
                }
            }
        } else {
            assert(marked_below(marks@, a as int) =~= marked_below(marks@, a as int + 1));
        }
        a += 1;
    }
    assert(marked_below(marks@, marks@.len() as int) =~= marked(marks@));
    list
}

impl NFA {
    /// The states that the symbol `c` reaches from a marked state.
    pub fn step_marks(&self, cur: &Vec<bool>, c: char) -> (next: Vec<bool>)
        requires
            self.wf(),
            cur@.len() == self.data@.len(),
        ensures
            next@.len() == self.data@.len(),
            marked(next@) == step(self.graph(), marked(cur@), c),
    {
        let ghost g = self.graph();
        let n: usize = self.data.len();
        let mut next = no_marks(n);
        if c == EPSILON {
            assert(step(g, marked(cur@), c) =~= Set::<int>::empty());
            return next;
        }
        let mut a: usize = 0;
        assert(marked(next@) =~= step(g, marked_below(cur@, 0), c));
        while a < n
            invariant
                a <= n,
                n == self.data@.len(),
                self.wf(),
                g == self.graph(),
                c != EPSILON,
                cur@.len() == n,
                next@.len() == n,
                marked(next@) == step(g, marked_below(cur@, a as int), c),
            decreases n - a,
        {
            let ghost base = step(g, marked_below(cur@, a as int), c);
            if cur[a] {
                let src = &self.data[a];
                let mut j: usize = 0;
                assert(marked(next@) =~= base.union(step_part(src.paths@, 0, c)));
                while j < src.paths.len()
                    invariant
                        j <= src.paths@.len(),
                        a < n,
                        n == self.data@.len(),
                        self.wf(),
                        g == self.graph(),
                        *src == self.data@[a as int],
                        next@.len() == n,
                        c != EPSILON,
                        marked(next@) == base.union(step_part(src.paths@, j as int, c)),
                    decreases src.paths.len() - j,
                {
                    let p: (char, Id) = src.paths[j];
                    proof {
                        assert(src.paths@.contains(p));
                        assert(g[a as int].paths.contains(p));
                    }
                    let ghost prev = next@;
                    if p.0 == c {
                        next.set(p.1, true);
                    }
                    assert(marked(next@) =~= base.union(step_part(src.paths@, j as int + 1, c))) by {
                        let before = step_part(src.paths@, j as int, c);
                        let after = step_part(src.paths@, j as int + 1, c);
                        assert forall|t: int| after.contains(t) implies before.contains(t) || (p.0
                            == c && t == p.1) by {
                            let i = choose|i: int|
                                0 <= i < j + 1 && src.paths@[i] == (c, t as usize) && 0 <= t
                                    <= usize::MAX;
                            if i < j {
                            }
                        }
                        assert forall|t: int| before.contains(t) implies after.contains(t) by {
                            let i = choose|i: int|
                                0 <= i < j && src.paths@[i] == (c, t as usize) && 0 <= t
                                    <= usize::MAX;
                            assert(0 <= i < j + 1 && src.paths@[i] == (c, t as usize));
                        }
                        if p.0 == c {
                            assert(src.paths@[j as int] == (c, p.1));
                            assert(after.contains(p.1 as int));
                        }
                        assert(marked(prev) == base.union(before));
                        assert forall|t: int| marked(next@).contains(t) <==> base.union(
                            after,
                        ).contains(t) by {
                            let hit = p.0 == c && t == p.1 as int;
                            let in_prev = marked(prev).contains(t);
                            assert(in_prev == base.union(before).contains(t));
                            assert(in_prev == (base.contains(t) || before.contains(t)));
                            assert(after.contains(t) == (before.contains(t) || hit));
                            if p.0 == c {
                                assert(next@ == prev.update(p.1 as int, true));
                            } else {
                                assert(next@ == prev);
                            }
                            assert(marked(next@).contains(t) == (in_prev || hit));
                        }
                    }
                    j += 1;
                }
                proof {
                    let lo = marked_below(cur@, a as int);
                    let hi = marked_below(cur@, a as int + 1);
                    let part = step_part(src.paths@, src.paths@.len() as int, c);
                    assert forall|t: int| step(g, hi, c).contains(t) <==> base.union(part).contains(
                        t,
                    ) by {
                        if step(g, hi, c).contains(t) {
                            let x = choose|x: int| hi.contains(x) && has_edge(g, x, c, t);
                            if x < a {
                                assert(lo.contains(x));
                            } else {
                                let i = choose|i: int|
                                    0 <= i < src.paths@.len() && src.paths@[i] == (c, t as usize);
                                assert(part.contains(t));
                            }
                        }
                        if base.contains(t) {
                            let x = choose|x: int| lo.contains(x) && has_edge(g, x, c, t);
                            assert(hi.contains(x));
                        }
                        if part.contains(t) {
                            let i = choose|i: int|
                                0 <= i < src.paths@.len() && src.paths@[i] == (c, t as usize)
                                    && 0 <= t <= usize::MAX;
                            assert(src.paths@.contains((c, t as usize)));
                            assert(hi.contains(a as int));
                            assert(has_edge(g, a as int, c, t));
                        }
                    }
                    assert(marked(next@) =~= step(g, hi, c));
                }
            } else {
                proof {
                    assert(marked_below(cur@, a as int) =~= marked_below(cur@, a as int + 1));
                }
            }
            a += 1;
        }
        assert(marked_below(cur@, n as int) =~= marked(cur@));
        next
    }

    /// Whether some marked state accepts.
    pub fn any_terminal(&self, marks: &Vec<bool>) -> (r: bool)
        requires
            marks@.len() == self.data@.len(),
        ensures
            r == accepting(self.graph(), marked(marks@)),
    {
        let ghost g = self.graph();
        let mut a: usize = 0;
        while a < self.data.len()
            invariant
                a <= self.data@.len(),
                marks@.len() == self.data@.len(),
                g == self.graph(),
                forall|x: int| 0 <= x < a ==> !(marks@[x] && g[x].is_terminal),
            decreases self.data.len() - a,
        {
            if marks[a] && self.data[a].is_terminal {
                assert(marked(marks@).contains(a as int) && g[a as int].is_terminal);
                return true;
            }
            a += 1;
        }
        false
    }

    /// Whether the automaton accepts `input`, decided on the automaton as it
    /// stands: the set of states that the input read so far can have led to
    /// is followed symbol by symbol.
    pub fn matches(&self, input: &str) -> (r: bool)
        requires
            self.wf(),
        ensures
            r == nfa_accepts(self.graph(), input@),
    {
        let ghost g = self.graph();
        let w = str_to_chars(input);
        let mut from: Vec<Id> = Vec::new();
        from.push(0);
        assert(node_set(from@) =~= set![0int]) by {
            assert(from@[0] == 0);
            assert(from@.contains(0usize));
            assert forall|a: int| node_set(from@).contains(a) implies a == 0 by {
                let k = choose|k: int| 0 <= k < from@.len() && from@[k] == a as usize;
            }
        }
        let mut cur = self.follow_epsilon(&from);
        let mut i: usize = 0;
        assert(w@.subrange(0, w@.len() as int) == w@);
        while i < w.len()
            invariant
                i <= w@.len(),
                self.wf(),
                g == self.graph(),
                cur@.len() == self.data@.len(),
                nfa_accepts(g, w@) == run(g, marked(cur@), w@.subrange(i as int, w@.len() as int)),
            decreases w.len() - i,
        {
            let ghost rest = w@.subrange(i as int, w@.len() as int);
            assert(rest.drop_first() == w@.subrange(i as int + 1, w@.len() as int));
            assert(rest[0] == w@[i as int]);
            let next = self.step_marks(&cur, w[i]);
            let list = marks_to_list(&next);
            cur = self.follow_epsilon(&list);
            i += 1;
        }
        self.any_terminal(&cur)
    }
}

} // verus!
