//! The construction rules: what each token adds to an automaton.

use crate::class::EPSILON;
use crate::nfa::{g_add_edge, g_add_node, g_mark_terminal, Built, NodeModel};
use crate::parse_regex::{RangeType, TokenModel, TokenQuantifier};
use vstd::prelude::*;

verus! {

/// One symbol, once: a new state, reached from the current one on `c`.
pub open spec fn lit_once(b: Built, c: char) -> Built {
    let t = b.nodes.len() as int;
    Built { nodes: g_add_edge(g_add_node(b.nodes), b.cur, c, t), cur: t }
}

/// One symbol, `n` times in a row.
pub open spec fn chain(b: Built, c: char, n: nat) -> Built
    decreases n,
{
    if n == 0 {
        b
    } else {
        lit_once(chain(b, c, (n - 1) as nat), c)
    }
}

/// The state that a chain begun at `b` has reached after `i` symbols.
pub open spec fn chain_id(b: Built, i: nat) -> int {
    if i == 0 {
        b.cur
    } else {
        b.nodes.len() + i - 1
    }
}

/// `nodes` with an empty-label edge to `last` from each state that the chain
/// begun at `b` reaches after `lo` up to, not including, `hi` symbols, `last`
/// itself left out.
pub open spec fn skips(nodes: Seq<NodeModel>, b: Built, last: int, lo: nat, hi: nat) -> Seq<
    NodeModel,
>
    decreases hi,
{
    if hi <= lo {
        nodes
    } else {
        let g = skips(nodes, b, last, lo, (hi - 1) as nat);
        if chain_id(b, (hi - 1) as nat) != last {
            g_add_edge(g, chain_id(b, (hi - 1) as nat), EPSILON, last)
        } else {
            g
        }
    }
}

/// What a single symbol with its repetition adds.
///
/// Once: a new state reached on the symbol. Optional: the same, and an
/// empty-label edge beside it. Any number of times: a loop on the current
/// state. At least once: a new state reached on the symbol, with a loop on
/// it. A counted repetition: a chain of new states, as long as the greatest
/// count, or the least where there is no greatest; each state from the least
/// count on has an empty-label edge to the end of the chain, or, where there
/// is no greatest count, the end of the chain has a loop.
pub open spec fn literal(b: Built, c: char, q: TokenQuantifier) -> Built {
    match q {
        TokenQuantifier::Once => lit_once(b, c),
        TokenQuantifier::Question => {
            let t = b.nodes.len() as int;
            Built { nodes: g_add_edge(lit_once(b, c).nodes, b.cur, EPSILON, t), cur: t }
        },
        TokenQuantifier::Star => Built { nodes: g_add_edge(b.nodes, b.cur, c, b.cur), cur: b.cur },
        TokenQuantifier::Plus => {
            let t = b.nodes.len() as int;
            Built { nodes: g_add_edge(lit_once(b, c).nodes, t, c, t), cur: t }
        },
        TokenQuantifier::Range(RangeType::Discrete(n)) => chain(b, c, n as nat),
        TokenQuantifier::Range(RangeType::LowerBound(l)) => {
            let e = chain(b, c, l as nat);
            Built { nodes: g_add_edge(e.nodes, e.cur, c, e.cur), cur: e.cur }
        },
        TokenQuantifier::Range(RangeType::UpperBound(u)) => {
            let e = chain(b, c, u as nat);
            Built { nodes: skips(e.nodes, b, e.cur, 0, (u + 1) as nat), cur: e.cur }
        },
        TokenQuantifier::Range(RangeType::Both(l, u)) => {
            let e = chain(b, c, u as nat);
            Built { nodes: skips(e.nodes, b, e.cur, l as nat, (u + 1) as nat), cur: e.cur }
        },
    }
}

/// `nodes` with an edge from `from` to `to` for each of the first `k` symbols
/// of `opts`.
pub open spec fn class_edges(nodes: Seq<NodeModel>, from: int, to: int, opts: Seq<char>, k: nat) -> Seq<
    NodeModel,
>
    decreases k,
{
    if k == 0 || k > opts.len() {
        nodes
    } else {
        g_add_edge(class_edges(nodes, from, to, opts, (k - 1) as nat), from, opts[k - 1], to)
    }
}

/// What a class adds when it stands once, optionally, any number of times or
/// at least once: a new state, reached from the current one on each symbol
/// of the class; where the class may repeat, a loop on the new state on each
/// symbol; where it may be absent, an empty-label edge beside the symbols.
pub open spec fn class_unit(b: Built, opts: Seq<char>, kind: TokenQuantifier) -> Built {
    let t = b.nodes.len() as int;
    let g0 = class_edges(g_add_node(b.nodes), b.cur, t, opts, opts.len());
    let g1 = if kind == TokenQuantifier::Plus || kind == TokenQuantifier::Star {
        class_edges(g0, t, t, opts, opts.len())
    } else {
        g0
    };
    let g2 = if kind == TokenQuantifier::Question || kind == TokenQuantifier::Star {
        g_add_edge(g1, b.cur, EPSILON, t)
    } else {
        g1
    };
    Built { nodes: g2, cur: t }
}

/// A class, `n` times in a row, each time in the way of `kind`.
pub open spec fn class_copies(b: Built, opts: Seq<char>, kind: TokenQuantifier, n: nat) -> Built
    decreases n,
{
    if n == 0 {
        b
    } else {
        class_unit(class_copies(b, opts, kind, (n - 1) as nat), opts, kind)
    }
}

/// How many optional copies follow the mandatory ones.
pub open spec fn optional_count(l: usize, u: usize) -> nat {
    if u >= l {
        (u - l) as nat
    } else {
        0
    }
}

/// What a class with its repetition adds. A counted repetition is unrolled:
/// as many plain copies as the least count, then as many optional copies as
/// lie between the two counts, or a copy that may repeat any number of times
/// where there is no greatest count.
pub open spec fn class(b: Built, opts: Seq<char>, q: TokenQuantifier) -> Built {
    match q {
        TokenQuantifier::Range(RangeType::Discrete(n)) => class_copies(
            b,
            opts,
            TokenQuantifier::Once,
            n as nat,
        ),
        TokenQuantifier::Range(RangeType::LowerBound(l)) => class_unit(
            class_copies(b, opts, TokenQuantifier::Once, l as nat),
            opts,
            TokenQuantifier::Star,
        ),
        TokenQuantifier::Range(RangeType::UpperBound(u)) => class_copies(
            b,
            opts,
            TokenQuantifier::Question,
            u as nat,
        ),
        TokenQuantifier::Range(RangeType::Both(l, u)) => class_copies(
            class_copies(b, opts, TokenQuantifier::Once, l as nat),
            opts,
            TokenQuantifier::Question,
            optional_count(l, u),
        ),
        _ => class_unit(b, opts, q),
    }
}

/// The tails of the branches built so far, with the states built for them.
pub struct Branched {
    pub nodes: Seq<NodeModel>,
    pub tails: Seq<int>,
}

/// `nodes` with an empty-label edge to `join` from each of the first `k`
/// tails.
pub open spec fn join_edges(nodes: Seq<NodeModel>, tails: Seq<int>, join: int, k: nat) -> Seq<
    NodeModel,
>
    decreases k,
{
    if k == 0 || k > tails.len() {
        nodes
    } else {
        g_add_edge(join_edges(nodes, tails, join, (k - 1) as nat), tails[k - 1], EPSILON, join)
    }
}

/// What one token adds to the automaton `b`, from its current state on.
pub open spec fn spec_add_token(b: Built, t: TokenModel) -> Built
    decreases t, 0nat, 0nat,
{
    match t {
        TokenModel::Normal { token, quantifier } => literal(b, token, quantifier),
        TokenModel::CharacterClass { class_options, quantifier } => class(
            b,
            class_options,
            quantifier,
        ),
        TokenModel::CaptureGroup { sub_groups, quantifier } => group(b, sub_groups, quantifier),
        TokenModel::Pipe { sub_groups } => pipe(b, sub_groups),
    }
}

/// What the tokens `toks[i..]` add, one after the other.
pub open spec fn tokens_seq(b: Built, toks: Seq<TokenModel>, i: int) -> Built
    decreases toks, 1nat, toks.len() - i,
{
    if i < 0 || i >= toks.len() {
        b
    } else {
        tokens_seq(spec_add_token(b, toks[i]), toks, i + 1)
    }
}

/// What a group adds when it stands once, optionally, any number of times or
/// at least once: its tokens, one after the other from the current state;
/// where the group may repeat, an empty-label edge from its end back to where
/// it began; where it may be absent, an empty-label edge from where it began
/// to its end. A group that may stand any number of times ends in a new
/// state, reached by empty-label edges from where it began and from its end.
pub open spec fn group_unit(b: Built, subs: Seq<TokenModel>, kind: TokenQuantifier) -> Built
    decreases subs, 2nat, 0nat,
{
    let inner = tokens_seq(b, subs, 0);
    if kind == TokenQuantifier::Plus {
        Built { nodes: g_add_edge(inner.nodes, inner.cur, EPSILON, b.cur), cur: inner.cur }
    } else if kind == TokenQuantifier::Star {
        let t = inner.nodes.len() as int;
        let g0 = g_add_edge(g_add_node(inner.nodes), inner.cur, EPSILON, b.cur);
        let g1 = g_add_edge(g0, b.cur, EPSILON, t);
        Built { nodes: g_add_edge(g1, inner.cur, EPSILON, t), cur: t }
    } else if kind == TokenQuantifier::Question {
        Built { nodes: g_add_edge(inner.nodes, b.cur, EPSILON, inner.cur), cur: inner.cur }
    } else {
        inner
    }
}

/// A group, `n` times in a row, each time in the way of `kind`.
pub open spec fn group_copies(
    b: Built,
    subs: Seq<TokenModel>,
    kind: TokenQuantifier,
    n: nat,
) -> Built
    decreases subs, 3nat, n,
{
    if n == 0 {
        b
    } else {
        group_unit(group_copies(b, subs, kind, (n - 1) as nat), subs, kind)
    }
}

/// What a group with its repetition adds. A counted repetition is unrolled:
/// as many plain copies as the least count, then as many optional copies as
/// lie between the two counts, or a copy that may repeat any number of times
/// where there is no greatest count.
pub open spec fn group(b: Built, subs: Seq<TokenModel>, q: TokenQuantifier) -> Built
    decreases subs, 4nat, 0nat,
{
    match q {
        TokenQuantifier::Range(RangeType::Discrete(n)) => group_copies(
            b,
            subs,
            TokenQuantifier::Once,
            n as nat,
        ),
        TokenQuantifier::Range(RangeType::LowerBound(l)) => group_unit(
            group_copies(b, subs, TokenQuantifier::Once, l as nat),
            subs,
            TokenQuantifier::Star,
        ),
        TokenQuantifier::Range(RangeType::UpperBound(u)) => group_copies(
            b,
            subs,
            TokenQuantifier::Question,
            u as nat,
        ),
        TokenQuantifier::Range(RangeType::Both(l, u)) => group_copies(
            group_copies(b, subs, TokenQuantifier::Once, l as nat),
            subs,
            TokenQuantifier::Question,
            optional_count(l, u),
        ),
        _ => group_unit(b, subs, q),
    }
}

/// The branches `brs[i..]`, each built from the state `root`, added to what
/// `acc` holds of the branches before them.
pub open spec fn branches(acc: Branched, root: int, brs: Seq<Seq<TokenModel>>, i: int) -> Branched
    decreases brs, 1nat, brs.len() - i,
{
    if i < 0 || i >= brs.len() {
        acc
    } else {
        let inner = tokens_seq(Built { nodes: acc.nodes, cur: root }, brs[i], 0);
        branches(Branched { nodes: inner.nodes, tails: acc.tails.push(inner.cur) }, root, brs, i + 1)
    }
}

/// What a choice adds: each branch built from the current state, and a new
/// state that every branch's end reaches by an empty-label edge.
pub open spec fn pipe(b: Built, brs: Seq<Seq<TokenModel>>) -> Built
    decreases brs, 2nat, 0nat,
{
    let br = branches(Branched { nodes: b.nodes, tails: Seq::empty() }, b.cur, brs, 0);
    let join = br.nodes.len() as int;
    Built { nodes: join_edges(g_add_node(br.nodes), br.tails, join, br.tails.len()), cur: join }
}

/// The automaton with the start state alone.
pub open spec fn initial() -> Built {
    Built { nodes: seq![NodeModel { is_terminal: false, paths: Set::empty() }], cur: 0 }
}

/// The automaton of a tokenized pattern: its tokens added one after the
/// other from the start state, and the state reached at the end accepting.
pub open spec fn spec_build(tokens: Seq<TokenModel>) -> Built {
    let b = tokens_seq(initial(), tokens, 0);
    Built { nodes: g_mark_terminal(b.nodes, b.cur), cur: b.cur }
}

} // verus!
