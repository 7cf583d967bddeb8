//! Building the automaton of a pattern, token by token.

use crate::build_spec::{
    branches,
    chain,
    chain_id,
    class,
    class_copies,
    class_edges,
    class_unit,
    group,
    group_copies,
    group_unit,
    join_edges,
    literal,
    pipe,
    skips,
    spec_add_token,
    spec_build,
    tokens_seq,
    Branched,
};
use crate::class::EPSILON;
use crate::nfa::{g_mark_terminal, Built, Id, NFA};
use crate::parse_regex::{
    process_regex,
    spec_process_regex,
    RangeType,
    RegexError,
    Token,
    TokenQuantifier,
};
use crate::tokens::{branches_view, lemma_group_view, tokens_view};
use vstd::prelude::*;

verus! {

/// Where a chain has got to, and how many states it has added.
pub proof fn lemma_chain(b: Built, c: char, n: nat)
    requires
        0 <= b.cur < b.nodes.len(),
    ensures
        chain(b, c, n).cur == chain_id(b, n),
        chain(b, c, n).nodes.len() == b.nodes.len() + n,
    decreases n,
{
    if n > 0 {
        lemma_chain(b, c, (n - 1) as nat);
    }
}

/// The numbers of a list of states, as integers.
pub open spec fn ids_view(ids: Seq<usize>) -> Seq<int> {
    Seq::new(ids.len(), |i: int| ids[i] as int)
}

impl NFA {
    /// The automaton as a construction that continues at `start`.
    pub open spec fn at(&self, start: Id) -> Built {
        Built { nodes: self.graph(), cur: start as int }
    }

    /// Whether `self` is `old` grown: well formed, for the same pattern,
    /// with no state lost.
    pub open spec fn grown_from(&self, old: &NFA) -> bool {
        &&& self.wf()
        &&& self.regex == old.regex
        &&& self.flags == old.flags
        &&& self.data@.len() >= old.data@.len()
    }

    /// Adds a chain of `n` new states from `start`, each reached from the one
    /// before on `c`, and returns the states of the chain, `start` first.
    fn add_chain(&mut self, start: Id, c: char, n: usize) -> (ids: Vec<Id>)
        requires
            old(self).wf(),
            start < old(self).data@.len(),
        ensures
            final(self).grown_from(old(self)),
            final(self).built() == chain(old(self).at(start), c, n as nat),
            ids@.len() == n + 1,
            forall|i: int|
                0 <= i <= n ==> (#[trigger] ids@[i]) as int == chain_id(
                    old(self).at(start),
                    i as nat,
                ),
            forall|i: int| 0 <= i <= n ==> (#[trigger] ids@[i]) < final(self).data@.len(),
    {
        let ghost b0 = self.at(start);
        let mut ids: Vec<Id> = Vec::new();
        ids.push(start);
        self.cur_last = start;
        let mut i: usize = 0;
        while i < n
            invariant
                i <= n,
                self.grown_from(old(self)),
                b0 == old(self).at(start),
                0 <= b0.cur < b0.nodes.len(),
                self.built() == chain(b0, c, i as nat),
                ids@.len() == i + 1,
                forall|k: int| 0 <= k <= i ==> (#[trigger] ids@[k]) as int == chain_id(b0, k as nat),
                forall|k: int| 0 <= k <= i ==> (#[trigger] ids@[k]) < self.data@.len(),
            decreases n - i,
        {
            proof {
                lemma_chain(b0, c, i as nat);
            }
            let prev: Id = self.cur_last;
            let t: Id = self.add_node();
            self.add_path(prev, t, c);
            self.cur_last = t;
            ids.push(t);
            i += 1;
        }
        ids
    }

    /// Adds an empty-label edge to `last` from each of `ids[lo..]` but `last`
    /// itself.
    fn add_skips(&mut self, ids: &Vec<Id>, last: Id, lo: usize, Ghost(b0): Ghost<Built>)
        requires
            old(self).wf(),
            last < old(self).data@.len(),
            forall|i: int| 0 <= i < ids@.len() ==> (#[trigger] ids@[i]) < old(self).data@.len(),
            forall|i: int| 0 <= i < ids@.len() ==> (#[trigger] ids@[i]) as int == chain_id(b0, i as nat),
        ensures
            final(self).grown_from(old(self)),
            final(self).cur_last == old(self).cur_last,
            final(self).graph() == skips(
                old(self).graph(),
                b0,
                last as int,
                lo as nat,
                ids@.len(),
            ),
    {
        let mut i: usize = lo;
        while i < ids.len()
            invariant
                lo <= i,
                i == lo || i <= ids@.len(),
                self.grown_from(old(self)),
                self.data@.len() == old(self).data@.len(),
                self.cur_last == old(self).cur_last,
                last < self.data@.len(),
                forall|k: int| 0 <= k < ids@.len() ==> (#[trigger] ids@[k]) < self.data@.len(),
                forall|k: int|
                    0 <= k < ids@.len() ==> (#[trigger] ids@[k]) as int == chain_id(b0, k as nat),
                self.graph() == skips(old(self).graph(), b0, last as int, lo as nat, i as nat),
            decreases ids.len() - i,
        {
            let id: Id = ids[i];
            if id != last {
                self.add_path(id, last, EPSILON);
            }
            i += 1;
        }
    }

    /// Adds a single symbol with its repetition, from `start`.
    pub fn add_literal(&mut self, start: Id, c: char, q: TokenQuantifier)
        requires
            old(self).wf(),
            start < old(self).data@.len(),
        ensures
            final(self).grown_from(old(self)),
            final(self).built() == literal(old(self).at(start), c, q),
    {
        match q {
            TokenQuantifier::Once => {
                let t: Id = self.add_node();
                self.add_path(start, t, c);
                self.cur_last = t;
            },
            TokenQuantifier::Question => {
                let t: Id = self.add_node();
                self.add_path(start, t, c);
                self.add_path(start, t, EPSILON);
                self.cur_last = t;
            },
            TokenQuantifier::Star => {
                self.add_path(start, start, c);
                self.cur_last = start;
            },
            TokenQuantifier::Plus => {
                let t: Id = self.add_node();
                self.add_path(start, t, c);
                self.add_path(t, t, c);
                self.cur_last = t;
            },
            TokenQuantifier::Range(RangeType::Discrete(n)) => {
                let _ = self.add_chain(start, c, n);
            },
            TokenQuantifier::Range(RangeType::LowerBound(l)) => {
                let _ = self.add_chain(start, c, l);
                let e: Id = self.cur_last;
                self.add_path(e, e, c);
            },
            TokenQuantifier::Range(RangeType::UpperBound(u)) => {
                let ids = self.add_chain(start, c, u);
                let e: Id = self.cur_last;
                self.add_skips(&ids, e, 0, Ghost(old(self).at(start)));
            },
            TokenQuantifier::Range(RangeType::Both(l, u)) => {
                let ids = self.add_chain(start, c, u);
                let e: Id = self.cur_last;
                self.add_skips(&ids, e, l, Ghost(old(self).at(start)));
            },
        }
    }

    /// Adds an edge from `from` to `to` for each symbol of `opts`.
    fn add_class_edges(&mut self, from: Id, to: Id, opts: &Vec<char>)
        requires
            old(self).wf(),
            from < old(self).data@.len(),
            to < old(self).data@.len(),
        ensures
            final(self).grown_from(old(self)),
            final(self).data@.len() == old(self).data@.len(),
            final(self).cur_last == old(self).cur_last,
            final(self).graph() == class_edges(
                old(self).graph(),
                from as int,
                to as int,
                opts@,
                opts@.len(),
            ),
    {
        let mut k: usize = 0;
        while k < opts.len()
            invariant
                k <= opts.len(),
                from < self.data@.len(),
                to < self.data@.len(),
                self.grown_from(old(self)),
                self.data@.len() == old(self).data@.len(),
                self.cur_last == old(self).cur_last,
                self.graph() == class_edges(old(self).graph(), from as int, to as int, opts@, k as nat),
            decreases opts.len() - k,
        {
            self.add_path(from, to, opts[k]);
            k += 1;
        }
    }

    /// Adds a class that stands once, optionally, any number of times or at
    /// least once, from `start`. A counted `kind` is taken as once.
    pub fn add_class_unit(&mut self, start: Id, opts: &Vec<char>, kind: TokenQuantifier)
        requires
            old(self).wf(),
            start < old(self).data@.len(),
        ensures
            final(self).grown_from(old(self)),
            final(self).built() == class_unit(old(self).at(start), opts@, kind),
    {
        let t: Id = self.add_node();
        self.add_class_edges(start, t, opts);
        let repeats: bool = match kind {
            TokenQuantifier::Plus => true,
            TokenQuantifier::Star => true,
            _ => false,
        };
        let skippable: bool = match kind {
            TokenQuantifier::Question => true,
            TokenQuantifier::Star => true,
            _ => false,
        };
        if repeats {
            self.add_class_edges(t, t, opts);
        }
        if skippable {
            self.add_path(start, t, EPSILON);
        }
        self.cur_last = t;
    }

    /// Adds `n` copies of a class in a row, each in the way of `kind`.
    fn add_class_copies(&mut self, start: Id, opts: &Vec<char>, kind: TokenQuantifier, n: usize)
        requires
            old(self).wf(),
            start < old(self).data@.len(),
        ensures
            final(self).grown_from(old(self)),
            final(self).built() == class_copies(old(self).at(start), opts@, kind, n as nat),
    {
        self.cur_last = start;
        let mut i: usize = 0;
        while i < n
            invariant
                i <= n,
                self.grown_from(old(self)),
                self.built() == class_copies(old(self).at(start), opts@, kind, i as nat),
            decreases n - i,
        {
            let cur: Id = self.cur_last;
            self.add_class_unit(cur, opts, kind);
            i += 1;
        }
    }

    /// Adds a class with its repetition, from `start`.
    pub fn add_class(&mut self, start: Id, opts: &Vec<char>, q: TokenQuantifier)
        requires
            old(self).wf(),
            start < old(self).data@.len(),
        ensures
            final(self).grown_from(old(self)),
            final(self).built() == class(old(self).at(start), opts@, q),
    {
        match q {
            TokenQuantifier::Range(RangeType::Discrete(n)) => {
                self.add_class_copies(start, opts, TokenQuantifier::Once, n);
            },
            TokenQuantifier::Range(RangeType::LowerBound(l)) => {
                self.add_class_copies(start, opts, TokenQuantifier::Once, l);
                let cur: Id = self.cur_last;
                self.add_class_unit(cur, opts, TokenQuantifier::Star);
            },
            TokenQuantifier::Range(RangeType::UpperBound(u)) => {
                self.add_class_copies(start, opts, TokenQuantifier::Question, u);
            },
            TokenQuantifier::Range(RangeType::Both(l, u)) => {
                self.add_class_copies(start, opts, TokenQuantifier::Once, l);
                let cur: Id = self.cur_last;
                let extra: usize = if u >= l {
                    u - l
                } else {
                    0
                };
                self.add_class_copies(cur, opts, TokenQuantifier::Question, extra);
            },
            _ => {
                self.add_class_unit(start, opts, q);
            },
        }
    }

    /// Adds the tokens of a list, one after the other, from `start`.
    pub fn add_tokens(&mut self, toks: &Vec<Token>, start: Id)
        requires
            old(self).wf(),
            start < old(self).data@.len(),
        ensures
            final(self).grown_from(old(self)),
            final(self).built() == tokens_seq(old(self).at(start), tokens_view(toks@), 0),
        decreases toks, 1nat, 0nat,
    {
        self.cur_last = start;
        let mut i: usize = 0;
        while i < toks.len()
            invariant
                i <= toks.len(),
                self.grown_from(old(self)),
                tokens_seq(old(self).at(start), tokens_view(toks@), 0) == tokens_seq(
                    self.built(),
                    tokens_view(toks@),
                    i as int,
                ),
            decreases toks.len() - i,
        {
            let cur: Id = self.cur_last;
            assert(tokens_view(toks@)[i as int] == toks@[i as int]@);
            self.add_token_to(&toks[i], cur);
            i += 1;
        }
    }

    /// Adds a group that stands once, optionally, any number of times or at
    /// least once, from `start`. A counted `kind` is taken as once.
    pub fn add_group_unit(&mut self, start: Id, subs: &Vec<Token>, kind: TokenQuantifier)
        requires
            old(self).wf(),
            start < old(self).data@.len(),
        ensures
            final(self).grown_from(old(self)),
            final(self).built() == group_unit(old(self).at(start), tokens_view(subs@), kind),
        decreases subs, 2nat, 0nat,
    {
        self.add_tokens(subs, start);
        let end: Id = self.cur_last;
        match kind {
            TokenQuantifier::Plus => {
                self.add_path(end, start, EPSILON);
            },
            TokenQuantifier::Star => {
                let t: Id = self.add_node();
                self.add_path(end, start, EPSILON);
                self.add_path(start, t, EPSILON);
                self.add_path(end, t, EPSILON);
                self.cur_last = t;
            },
            TokenQuantifier::Question => {
                self.add_path(start, end, EPSILON);
            },
            _ => {},
        }
    }

    /// Adds `n` copies of a group in a row, each in the way of `kind`.
    fn add_group_copies(&mut self, start: Id, subs: &Vec<Token>, kind: TokenQuantifier, n: usize)
        requires
            old(self).wf(),
            start < old(self).data@.len(),
        ensures
            final(self).grown_from(old(self)),
            final(self).built() == group_copies(
                old(self).at(start),
                tokens_view(subs@),
                kind,
                n as nat,
            ),
        decreases subs, 3nat, 0nat,
    {
        self.cur_last = start;
        let mut i: usize = 0;
        while i < n
            invariant
                i <= n,
                self.grown_from(old(self)),
                self.built() == group_copies(
                    old(self).at(start),
                    tokens_view(subs@),
                    kind,
                    i as nat,
                ),
            decreases n - i,
        {
            let cur: Id = self.cur_last;
            self.add_group_unit(cur, subs, kind);
            i += 1;
        }
    }

    /// Adds a group with its repetition, from `start`.
    pub fn add_group(&mut self, start: Id, subs: &Vec<Token>, q: TokenQuantifier)
        requires
            old(self).wf(),
            start < old(self).data@.len(),
        ensures
            final(self).grown_from(old(self)),
            final(self).built() == group(old(self).at(start), tokens_view(subs@), q),
        decreases subs, 4nat, 0nat,
    {
        match q {
            TokenQuantifier::Range(RangeType::Discrete(n)) => {
                self.add_group_copies(start, subs, TokenQuantifier::Once, n);
            },
            TokenQuantifier::Range(RangeType::LowerBound(l)) => {
                self.add_group_copies(start, subs, TokenQuantifier::Once, l);
                let cur: Id = self.cur_last;
                self.add_group_unit(cur, subs, TokenQuantifier::Star);
            },
            TokenQuantifier::Range(RangeType::UpperBound(u)) => {
                self.add_group_copies(start, subs, TokenQuantifier::Question, u);
            },
            TokenQuantifier::Range(RangeType::Both(l, u)) => {
                self.add_group_copies(start, subs, TokenQuantifier::Once, l);
                let cur: Id = self.cur_last;
                let extra: usize = if u >= l {
                    u - l
                } else {
                    0
                };
                self.add_group_copies(cur, subs, TokenQuantifier::Question, extra);
            },
            _ => {
                self.add_group_unit(start, subs, q);
            },
        }
    }

    /// Adds a choice between branches, from `start`.
    pub fn add_pipe(&mut self, start: Id, brs: &Vec<Vec<Token>>)
        requires
            old(self).wf(),
            start < old(self).data@.len(),
        ensures
            final(self).grown_from(old(self)),
            final(self).built() == pipe(old(self).at(start), branches_view(brs@)),
        decreases brs, 2nat, 0nat,
    {
        let ghost bv = branches_view(brs@);
        let ghost first = Branched { nodes: self.graph(), tails: Seq::empty() };
        let mut tails: Vec<Id> = Vec::new();
        let mut i: usize = 0;
        assert(ids_view(tails@) =~= Seq::<int>::empty());
        while i < brs.len()
            invariant
                i <= brs.len(),
                bv == branches_view(brs@),
                first == (Branched { nodes: old(self).graph(), tails: Seq::empty() }),
                self.grown_from(old(self)),
                start < self.data@.len(),
                forall|k: int| 0 <= k < tails@.len() ==> (#[trigger] tails@[k]) < self.data@.len(),
                branches(first, start as int, bv, 0) == branches(
                    Branched { nodes: self.graph(), tails: ids_view(tails@) },
                    start as int,
                    bv,
                    i as int,
                ),
            decreases brs.len() - i,
        {
            assert(bv[i as int] == tokens_view(brs@[i as int]@));
            self.add_tokens(&brs[i], start);
            let ghost before = ids_view(tails@);
            tails.push(self.cur_last);
            assert(ids_view(tails@) =~= before.push(self.cur_last as int));
            i += 1;
        }
        let ghost br = Branched { nodes: self.graph(), tails: ids_view(tails@) };
        let join: Id = self.add_node();
        let ghost g0 = self.graph();
        let mut k: usize = 0;
        while k < tails.len()
            invariant
                k <= tails.len(),
                self.grown_from(old(self)),
                join < self.data@.len(),
                self.data@.len() == g0.len(),
                forall|j: int| 0 <= j < tails@.len() ==> (#[trigger] tails@[j]) < self.data@.len(),
                self.graph() == join_edges(g0, ids_view(tails@), join as int, k as nat),
            decreases tails.len() - k,
        {
            assert(ids_view(tails@)[k as int] == tails@[k as int] as int);
            self.add_path(tails[k], join, EPSILON);
            k += 1;
        }
        self.cur_last = join;
    }

    /// Adds one token to the automaton, from the state `start_id`.
    pub fn add_token_to(&mut self, token: &Token, start_id: Id)
        requires
            old(self).wf(),
            start_id < old(self).data@.len(),
        ensures
            final(self).grown_from(old(self)),
            final(self).built() == spec_add_token(old(self).at(start_id), token@),
        decreases token, 0nat, 0nat,
    {
        proof {
            lemma_group_view(*token);
        }
        match token {
            Token::Normal { token: c, quantifier } => {
                self.add_literal(start_id, *c, *quantifier);
            },
            Token::CharacterClass { class_options, quantifier } => {
                self.add_class(start_id, class_options, *quantifier);
            },
            Token::CaptureGroup { sub_groups, quantifier } => {
                self.add_group(start_id, sub_groups, *quantifier);
            },
            Token::Pipe { sub_groups } => {
                self.add_pipe(start_id, sub_groups);
            },
        }
    }

    /// Makes the state `id` accepting.
    pub fn mark_terminal(&mut self, id: Id)
        requires
            old(self).wf(),
            id < old(self).data@.len(),
        ensures
            final(self).grown_from(old(self)),
            final(self).cur_last == old(self).cur_last,
            final(self).graph() == g_mark_terminal(old(self).graph(), id as int),
    {
        self.data[id].is_terminal = true;
        assert(self.graph() =~= g_mark_terminal(old(self).graph(), id as int));
        assert forall|a: int, p: (char, usize)|
            0 <= a < self.graph().len() && #[trigger] self.graph()[a].paths.contains(
                p,
            ) implies p.1 < self.graph().len() by {
            assert(old(self).graph()[a].paths.contains(p));
        }
    }

    /// Compiles a pattern into a nondeterministic automaton: the pattern is
    /// tokenized, its tokens are added one after the other from the start
    /// state, and the state reached at the end is made accepting.
    ///
    /// Fails with `MalformedPattern` exactly where the pattern cannot be
    /// tokenized.
    pub fn from(regex: String) -> (r: Result<NFA, RegexError>)
        ensures
            match r {
                Ok(nfa) => {
                    &&& nfa.wf()
                    &&& nfa.regex@ == regex@
                    &&& spec_process_regex(regex@).is_some()
                    &&& nfa.flags@ == spec_process_regex(regex@).unwrap().1
                    &&& nfa.built() == spec_build(spec_process_regex(regex@).unwrap().0)
                },
                Err(_) => spec_process_regex(regex@).is_none(),
            },
    {
        let (tokens, flags) = match process_regex(regex.as_str()) {
            Ok(parsed) => parsed,
            Err(e) => {
                return Err(e);
            },
        };
        let mut nfa = NFA::new(regex, flags);
        nfa.add_tokens(&tokens, 0);
        let end: Id = nfa.cur_last;
        nfa.mark_terminal(end);
        Ok(nfa)
    }

    /// Adds one token to the automaton, from where the pattern read so far
    /// ends.
    pub fn add_token(&mut self, token: &Token)
        requires
            old(self).wf(),
        ensures
            final(self).grown_from(old(self)),
            final(self).built() == spec_add_token(old(self).built(), token@),
    {
        let cur: Id = self.cur_last;
        self.add_token_to(token, cur);
    }
}

} // verus!
