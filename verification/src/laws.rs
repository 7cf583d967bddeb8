//! What holds of the engine as a whole.

use crate::automata::pattern_accepts;
use crate::build_spec::{initial, lit_once, literal, spec_add_token, spec_build, tokens_seq};
use crate::class::{spec_plain_symbol, EPSILON};
use crate::dfa::{lemma_walk_is_accepts, next_state, walk, DFA};
use crate::language::{deterministic, eps_free};
use crate::nfa::{g_mark_terminal, has_edge, Built, NodeModel, NFA};
use crate::parse_regex::{spec_process_regex, TokenModel, TokenQuantifier};
use crate::parts::{
    is_bar,
    lemma_part_le_total,
    lemma_parts_total_len,
    spec_atom_end,
    spec_part_end,
    spec_parts_from,
    spec_suffix_end,
};
use crate::prune::{cleaned, lemma_clean_walk, lemma_purge_walk, purged};
use crate::quantifier::spec_quantifier;
use crate::scan::{scan_step, spec_find_pipes, spec_pipe_scan};
use crate::tokens::{
    has_bar,
    spec_branch,
    spec_parts_to_token,
    spec_token,
    spec_tokenize,
    spec_tokens_from,
};
use vstd::prelude::*;

verus! {

/// Whether `c` is a character that a pattern gives a meaning of its own.
pub open spec fn is_operator(c: char) -> bool {
    c == '(' || c == ')' || c == '[' || c == ']' || c == '{' || c == '}' || c == '*' || c == '+'
        || c == '?' || c == '|' || c == '\\' || c == '.'
}

/// Whether a pattern consists of literal characters alone: no operator, not
/// the character that serves as the empty label, and no slash in front,
/// where it would delimit the pattern.
pub open spec fn literal_pattern(p: Seq<char>) -> bool {
    &&& forall|i: int| 0 <= i < p.len() ==> !is_operator(#[trigger] p[i]) && p[i] != EPSILON
    &&& p.len() > 0 ==> p[0] != '/'
}

/// The parts of a literal pattern from index `i` on: one for each character.
pub open spec fn singles(p: Seq<char>, i: int) -> Seq<Seq<char>> {
    Seq::new((p.len() - i) as nat, |k: int| seq![p[i + k]])
}

/// The token of a plain symbol that stands once.
pub open spec fn lit(c: char) -> TokenModel {
    TokenModel::Normal { token: c, quantifier: TokenQuantifier::Once }
}

/// The tokens of a literal pattern: one plain symbol for each character.
pub open spec fn lits(p: Seq<char>) -> Seq<TokenModel> {
    Seq::new(p.len(), |i: int| lit(p[i]))
}

/// The states of the automaton of the first `i` characters of a literal
/// pattern: a row, each state leading to the next on one character.
pub open spec fn line_nodes(p: Seq<char>, i: int) -> Seq<NodeModel> {
    Seq::new((i + 1) as nat, |k: int| line_node(p, i, k))
}

/// The state `k` of the row for the first `i` characters of `p`.
pub open spec fn line_node(p: Seq<char>, i: int, k: int) -> NodeModel {
    NodeModel {
        is_terminal: false,
        paths: if k < i {
            set![(p[k], (k + 1) as usize)]
        } else {
            Set::empty()
        },
    }
}

proof fn lemma_lit_pipes(p: Seq<char>, i: int)
    requires
        literal_pattern(p),
        0 <= i,
    ensures
        spec_pipe_scan(p, i, Seq::empty()) == Seq::<int>::empty(),
    decreases p.len() - i,
{
    if i < p.len() {
        assert(!is_operator(p[i]));
        assert(scan_step(Seq::empty(), p[i]) == Seq::<char>::empty());
        lemma_lit_pipes(p, i + 1);
    }
}

proof fn lemma_lit_parts(p: Seq<char>, i: int)
    requires
        literal_pattern(p),
        0 <= i <= p.len(),
    ensures
        spec_parts_from(p, i) == Some(singles(p, i)),
    decreases p.len() - i,
{
    if i < p.len() {
        assert(!is_operator(p[i]));
        assert(spec_atom_end(p, i) == Some(i + 1));
        if i + 1 < p.len() {
            assert(!is_operator(p[i + 1]));
        }
        assert(spec_suffix_end(p, i + 1) == Some(i + 1));
        assert(spec_part_end(p, i) == Some(i + 1));
        lemma_lit_parts(p, i + 1);
        assert(p.subrange(i, i + 1) =~= seq![p[i]]);
        assert(seq![p.subrange(i, i + 1)] + singles(p, i + 1) =~= singles(p, i));
    } else {
        assert(singles(p, i) =~= Seq::<Seq<char>>::empty());
    }
}

proof fn lemma_lit_tokens(p: Seq<char>, k: int)
    requires
        literal_pattern(p),
        0 <= k <= p.len(),
    ensures
        spec_tokens_from(singles(p, 0), k) == Some(lits(p).subrange(k, p.len() as int)),
    decreases p.len() - k,
{
    let parts = singles(p, 0);
    if k < p.len() {
        let part = parts[k];
        assert(part == seq![p[k]]);
        assert(!is_operator(p[k]));
        lemma_part_le_total(parts, k);
        assert(part.subrange(1, 1) =~= Seq::<char>::empty());
        assert(spec_quantifier(part.subrange(1, part.len() as int)) == Some(
            TokenQuantifier::Once,
        ));
        assert(spec_plain_symbol(p[k]) == p[k]);
        assert(spec_token(part) == Some(lit(p[k])));
        lemma_lit_tokens(p, k + 1);
        assert(seq![lits(p)[k]] + lits(p).subrange(k + 1, p.len() as int) =~= lits(p).subrange(
            k,
            p.len() as int,
        ));
    } else {
        assert(lits(p).subrange(k, p.len() as int) =~= Seq::<TokenModel>::empty());
    }
}

/// A literal pattern is tokenized into one plain symbol for each character,
/// and has no flags.
pub proof fn lemma_literal_tokens(p: Seq<char>)
    requires
        literal_pattern(p),
    ensures
        spec_tokenize(p) == Some(lits(p)),
        spec_process_regex(p) == Some((lits(p), Seq::<char>::empty())),
{
    let parts = singles(p, 0);
    lemma_lit_pipes(p, 0);
    lemma_lit_parts(p, 0);
    lemma_parts_total_len(p, 0);
    lemma_lit_tokens(p, 0);
    assert(lits(p).subrange(0, p.len() as int) =~= lits(p));
    assert(!has_bar(parts)) by {
        if has_bar(parts) {
            let k = choose|k: int| 0 <= k < parts.len() && is_bar(#[trigger] parts[k]);
            assert(parts[k][0] == p[k]);
            assert(is_operator(p[k]));
        }
    }
    assert(spec_parts_to_token(parts) == Some(lits(p)));
    assert(spec_branch(p) == Some(lits(p)));
    assert(spec_find_pipes(p).len() == 0);
}

proof fn lemma_line_step(p: Seq<char>, i: int)
    requires
        0 <= i < p.len(),
        p.len() <= usize::MAX,
    ensures
        lit_once(Built { nodes: line_nodes(p, i), cur: i }, p[i]) == (Built {
            nodes: line_nodes(p, i + 1),
            cur: i + 1,
        }),
{
    let b = Built { nodes: line_nodes(p, i), cur: i };
    let out = lit_once(b, p[i]);
    let want = line_nodes(p, i + 1);
    assert(out.nodes.len() == want.len());
    assert forall|k: int| 0 <= k < want.len() implies out.nodes[k] == want[k] by {
        if k == i {
            assert(out.nodes[k].paths =~= want[k].paths);
        } else if k < i {
            assert(out.nodes[k] == line_nodes(p, i)[k]);
        }
    }
    assert(out.nodes =~= want);
}

proof fn lemma_line_tokens(p: Seq<char>, i: int)
    requires
        0 <= i <= p.len(),
        p.len() <= usize::MAX,
    ensures
        tokens_seq(Built { nodes: line_nodes(p, i), cur: i }, lits(p), i) == (Built {
            nodes: line_nodes(p, p.len() as int),
            cur: p.len() as int,
        }),
    decreases p.len() - i,
{
    if i < p.len() {
        let b = Built { nodes: line_nodes(p, i), cur: i };
        assert(spec_add_token(b, lits(p)[i]) == lit_once(b, p[i]));
        lemma_line_step(p, i);
        lemma_line_tokens(p, i + 1);
    }
}

/// The automaton of a literal pattern, as a deterministic one.
pub open spec fn line(p: Seq<char>) -> Seq<NodeModel> {
    g_mark_terminal(line_nodes(p, p.len() as int), p.len() as int)
}

proof fn lemma_line_walk(p: Seq<char>, k: int, w: Seq<char>)
    requires
        literal_pattern(p),
        p.len() <= usize::MAX,
        0 <= k <= p.len(),
    ensures
        walk(line(p), k, w) == (w == p.subrange(k, p.len() as int)),
    decreases w.len(),
{
    let g = line(p);
    let n = p.len() as int;
    let tail = p.subrange(k, n);
    assert forall|c: char, t: int| has_edge(g, k, c, t) <==> (k < n && c == p[k] && t == k + 1) by {
        if k < n {
            assert(g[k].paths =~= set![(p[k], (k + 1) as usize)]);
        } else {
            assert(g[k].paths =~= Set::<(char, usize)>::empty());
        }
    }
    if w.len() == 0 {
        assert(g[k].is_terminal == (k == n));
        if k == n {
            assert(w =~= tail);
        }
    } else {
        let c = w[0];
        if c != EPSILON && exists|t: int| has_edge(g, k, c, t) {
            let t = next_state(g, k, c);
            assert(has_edge(g, k, c, t));
            assert(t == k + 1 && c == p[k]);
            lemma_line_walk(p, k + 1, w.drop_first());
            if w.drop_first() == p.subrange(k + 1, n) {
                assert(w.len() == tail.len());
                assert forall|j: int| 0 <= j < w.len() implies w[j] == tail[j] by {
                    if j > 0 {
                        assert(w[j] == w.drop_first()[j - 1]);
                    }
                }
                assert(w =~= tail);
            }
            if w == tail {
                assert(w.drop_first() =~= p.subrange(k + 1, n));
            }
        } else {
            if w == tail {
                assert(k < n);
                assert(c == p[k]);
                assert(has_edge(g, k, c, k + 1));
            }
        }
    }
}

/// A pattern of literal characters alone accepts itself and nothing else.
pub proof fn lemma_literal_pattern(p: Seq<char>, w: Seq<char>)
    requires
        literal_pattern(p),
        p.len() <= usize::MAX,
    ensures
        pattern_accepts(p, w) == (w == p),
{
    lemma_literal_tokens(p);
    let n = p.len() as int;
    assert(initial() == (Built { nodes: line_nodes(p, 0), cur: 0 })) by {
        assert(initial().nodes =~= line_nodes(p, 0));
    }
    lemma_line_tokens(p, 0);
    assert(spec_build(lits(p)).nodes == line(p));
    let g = line(p);
    assert forall|k: int, c: char, t: usize| 0 <= k < g.len() && g[k].paths.contains((c, t))
        implies k < n && c == p[k] && t == (k + 1) as usize by {
        if k < n {
            assert(g[k].paths =~= set![(p[k], (k + 1) as usize)]);
        } else {
            assert(g[k].paths =~= Set::<(char, usize)>::empty());
        }
    }
    assert(eps_free(g)) by {
        assert forall|a: int, b: usize| 0 <= a < g.len() implies !(#[trigger] g[a].paths.contains(
            (EPSILON, b),
        )) by {
            if g[a].paths.contains((EPSILON, b)) {
                assert(p[a] == EPSILON);
            }
        }
    }
    assert(deterministic(g));
    lemma_walk_is_accepts(g, w);
    lemma_line_walk(p, 0, w);
    assert(p.subrange(0, n) =~= p);
}

/// A pattern of literal characters alone accepts itself, and accepts
/// nothing that goes on behind it.
pub proof fn lemma_literal_accepts_itself_only(p: Seq<char>, x: Seq<char>)
    requires
        literal_pattern(p),
        p.len() <= usize::MAX,
        x.len() > 0,
    ensures
        pattern_accepts(p, p),
        !pattern_accepts(p, p + x),
{
    lemma_literal_pattern(p, p);
    lemma_literal_pattern(p, p + x);
    assert((p + x).len() != p.len());
}

/// The automaton compiled from a pattern of literal characters alone accepts
/// the pattern itself and no other input, so none that goes on behind it.
pub proof fn lemma_compiled_literal(dfa: DFA, p: Seq<char>, w: Seq<char>)
    requires
        literal_pattern(p),
        p.len() <= usize::MAX,
        dfa.recognizes(p),
    ensures
        dfa.accepts(w) == (w == p),
{
    lemma_literal_pattern(p, w);
}

/// The deterministic matcher and the direct matcher agree: the automaton
/// compiled from a pattern accepts an input exactly when the automaton built
/// from the same pattern, searched as it stands, accepts it.
pub proof fn lemma_matchers_agree(dfa: DFA, nfa: NFA, regex: Seq<char>, w: Seq<char>)
    requires
        dfa.recognizes(regex),
        nfa.built_from(regex),
    ensures
        dfa.accepts(w) == nfa.accepts(w),
{
    assert(dfa.accepts(w) == pattern_accepts(regex, w));
}

/// In a deterministic automaton a state has at most one edge for a symbol.
pub proof fn lemma_one_target(dfa: DFA, a: int, c: char, t1: int, t2: int)
    requires
        dfa.wf(),
        has_edge(dfa.graph(), a, c, t1),
        has_edge(dfa.graph(), a, c, t2),
    ensures
        t1 == t2,
{
    let g = dfa.graph();
    assert(g[a].paths.contains((c, t1 as usize)) && g[a].paths.contains((c, t2 as usize)));
}

/// Pruning an automaton that has been pruned changes nothing, and pruning
/// never changes what is accepted: this holds of the removal of the states
/// that cannot be reached and of the removal of the states from which
/// nothing is accepted.
pub proof fn lemma_prune_idempotent(g: Seq<NodeModel>, w: Seq<char>)
    requires
        deterministic(g),
    ensures
        purged(purged(g)) == purged(g),
        cleaned(cleaned(g)) == cleaned(g),
        walk(purged(g), 0, w) == walk(g, 0, w),
        walk(cleaned(g), 0, w) == walk(g, 0, w),
        walk(purged(purged(g)), 0, w) == walk(purged(g), 0, w),
{
    crate::prune::lemma_purge_idempotent(g);
    crate::prune::lemma_clean_idempotent(g);
    crate::graph::lemma_reach_self(crate::prune::any_edge(g), 0);
    lemma_purge_walk(g, 0, w);
    lemma_clean_walk(g, 0, w);
}

} // verus!
