//! Reachability in a directed graph whose nodes are numbered from zero.

use vstd::prelude::*;

verus! {

/// Whether `b` can be reached from `a` along at most `n` edges.
pub open spec fn reach_in(edge: spec_fn(int, int) -> bool, a: int, b: int, n: nat) -> bool
    decreases n,
{
    if n == 0 {
        a == b
    } else {
        reach_in(edge, a, b, (n - 1) as nat) || exists|m: int|
            reach_in(edge, a, m, (n - 1) as nat) && #[trigger] edge(m, b)
    }
}

/// Whether `b` can be reached from `a` along any number of edges, none
/// included.
pub open spec fn reach(edge: spec_fn(int, int) -> bool, a: int, b: int) -> bool {
    exists|n: nat| reach_in(edge, a, b, n)
}

/// Whether `b` can be reached from some node of `from`.
pub open spec fn reach_from_set(edge: spec_fn(int, int) -> bool, from: Set<int>, b: int) -> bool {
    exists|a: int| from.contains(a) && reach(edge, a, b)
}

/// Every node reaches itself.
pub proof fn lemma_reach_self(edge: spec_fn(int, int) -> bool, a: int)
    ensures
        reach(edge, a, a),
{
    assert(reach_in(edge, a, a, 0));
}

/// A path can be extended by one edge.
pub proof fn lemma_reach_extend(edge: spec_fn(int, int) -> bool, a: int, m: int, b: int)
    requires
        reach(edge, a, m),
        edge(m, b),
    ensures
        reach(edge, a, b),
{
    let n = choose|n: nat| reach_in(edge, a, m, n);
    assert(reach_in(edge, a, b, n + 1));
}

/// Paths can be joined.
pub proof fn lemma_reach_trans_in(
    edge: spec_fn(int, int) -> bool,
    a: int,
    m: int,
    b: int,
    n: nat,
)
    requires
        reach(edge, a, m),
        reach_in(edge, m, b, n),
    ensures
        reach(edge, a, b),
    decreases n,
{
    if n == 0 {
    } else if reach_in(edge, m, b, (n - 1) as nat) {
        lemma_reach_trans_in(edge, a, m, b, (n - 1) as nat);
    } else {
        let mid = choose|mid: int| reach_in(edge, m, mid, (n - 1) as nat) && #[trigger] edge(mid, b);
        lemma_reach_trans_in(edge, a, m, mid, (n - 1) as nat);
        lemma_reach_extend(edge, a, mid, b);
    }
}

/// Paths can be joined.
pub proof fn lemma_reach_trans(edge: spec_fn(int, int) -> bool, a: int, m: int, b: int)
    requires
        reach(edge, a, m),
        reach(edge, m, b),
    ensures
        reach(edge, a, b),
{
    let n = choose|n: nat| reach_in(edge, m, b, n);
    lemma_reach_trans_in(edge, a, m, b, n);
}

/// A set that holds `a` and every successor of each of its nodes holds all
/// that `a` reaches.
pub proof fn lemma_closed_holds_reach(
    edge: spec_fn(int, int) -> bool,
    inside: spec_fn(int) -> bool,
    a: int,
    b: int,
    n: nat,
)
    requires
        inside(a),
        forall|x: int, y: int| inside(x) && #[trigger] edge(x, y) ==> inside(y),
        reach_in(edge, a, b, n),
    ensures
        inside(b),
    decreases n,
{
    if n == 0 {
    } else if reach_in(edge, a, b, (n - 1) as nat) {
        lemma_closed_holds_reach(edge, inside, a, b, (n - 1) as nat);
    } else {
        let mid = choose|mid: int| reach_in(edge, a, mid, (n - 1) as nat) && #[trigger] edge(mid, b);
        lemma_closed_holds_reach(edge, inside, a, mid, (n - 1) as nat);
    }
}

/// A path along edges of one relation is a path along those of any relation
/// that holds them all.
pub proof fn lemma_reach_in_mono(
    small: spec_fn(int, int) -> bool,
    big: spec_fn(int, int) -> bool,
    a: int,
    b: int,
    n: nat,
)
    requires
        forall|x: int, y: int| #[trigger] small(x, y) ==> big(x, y),
        reach_in(small, a, b, n),
    ensures
        reach_in(big, a, b, n),
    decreases n,
{
    if n == 0 {
    } else if reach_in(small, a, b, (n - 1) as nat) {
        lemma_reach_in_mono(small, big, a, b, (n - 1) as nat);
    } else {
        let mid = choose|mid: int|
            reach_in(small, a, mid, (n - 1) as nat) && #[trigger] small(mid, b);
        lemma_reach_in_mono(small, big, a, mid, (n - 1) as nat);
        assert(big(mid, b));
    }
}

/// The edge relation that adjacency lists write.
pub open spec fn adj_edge(adj: Seq<Vec<usize>>) -> spec_fn(int, int) -> bool {
    |a: int, b: int| 0 <= a < adj.len() && 0 <= b <= usize::MAX && adj[a]@.contains(b as usize)
}

/// Whether every listed successor is a node of the graph.
pub open spec fn adj_closed(adj: Seq<Vec<usize>>) -> bool {
    forall|a: int, j: int|
        0 <= a < adj.len() && 0 <= j < adj[a]@.len() ==> (#[trigger] adj[a]@[j]) < adj.len()
}

/// The nodes of a list, as a set.
pub open spec fn node_set(nodes: Seq<usize>) -> Set<int> {
    Set::new(|a: int| 0 <= a <= usize::MAX && nodes.contains(a as usize))
}

/// How many entries of `s` are set.
pub open spec fn count_true(s: Seq<bool>) -> nat
    decreases s.len(),
{
    if s.len() == 0 {
        0
    } else {
        count_true(s.drop_last()) + if s.last() {
            1nat
        } else {
            0nat
        }
    }
}

/// No more entries are set than there are.
pub proof fn lemma_count_true_bound(s: Seq<bool>)
    ensures
        count_true(s) <= s.len(),
    decreases s.len(),
{
    if s.len() > 0 {
        lemma_count_true_bound(s.drop_last());
    }
}

/// Setting a cleared entry raises the count by one.
pub proof fn lemma_count_true_set(s: Seq<bool>, i: int)
    requires
        0 <= i < s.len(),
        !s[i],
    ensures
        count_true(s.update(i, true)) == count_true(s) + 1,
    decreases s.len(),
{
    let t = s.update(i, true);
    if i == s.len() - 1 {
        assert(t.drop_last() == s.drop_last());
    } else {
        lemma_count_true_set(s.drop_last(), i);
        assert(t.drop_last() == s.drop_last().update(i, true));
    }
}

/// Marks the nodes that can be reached from `sources`.
pub fn reachable_from(adj: &Vec<Vec<usize>>, sources: &Vec<usize>) -> (visited: Vec<bool>)
    requires
        adj_closed(adj@),
        forall|k: int| 0 <= k < sources@.len() ==> sources@[k] < adj@.len(),
    ensures
        visited@.len() == adj@.len(),
        forall|b: int|
            0 <= b < adj@.len() ==> (#[trigger] visited@[b] <==> reach_from_set(
                adj_edge(adj@),
                node_set(sources@),
                b,
            )),
{
    let n: usize = adj.len();
    let ghost edge = adj_edge(adj@);
    let ghost from = node_set(sources@);
    let mut visited: Vec<bool> = Vec::new();
    let mut i: usize = 0;
    while i < n
        invariant
            i <= n,
            visited@.len() == i,
            forall|b: int| 0 <= b < i ==> !visited@[b],
            count_true(visited@) == 0,
        decreases n - i,
    {
        let ghost prev = visited@;
        visited.push(false);
        assert(visited@.drop_last() =~= prev);
        i += 1;
    }
    let mut stack: Vec<usize> = Vec::new();
    let mut k: usize = 0;
    while k < sources.len()
        invariant
            n == adj@.len(),
            edge == adj_edge(adj@),
            from == node_set(sources@),
            k <= sources.len(),
            visited@.len() == n,
            forall|j: int| 0 <= j < sources@.len() ==> sources@[j] < n,
            forall|j: int| 0 <= j < k ==> visited@[sources@[j] as int],
            forall|b: int| 0 <= b < n && visited@[b] ==> reach_from_set(edge, from, b),
            forall|b: int| 0 <= b < n && visited@[b] ==> stack@.contains(b as usize),
            forall|j: int| 0 <= j < stack@.len() ==> stack@[j] < n && visited@[stack@[j] as int],
            stack@.len() == count_true(visited@),
        decreases sources.len() - k,
    {
        let s: usize = sources[k];
        if !visited[s] {
            proof {
                lemma_count_true_set(visited@, s as int);
                lemma_reach_self(edge, s as int);
                assert(sources@.contains(s));
                assert(from.contains(s as int));
            }
            let ghost old_stack = stack@;
            visited.set(s, true);
            stack.push(s);
            assert forall|b: int| 0 <= b < n && visited@[b] implies stack@.contains(
                b as usize,
            ) by {
                if b == s {
                    assert(stack@[old_stack.len() as int] == s);
                } else {
                    let j = choose|j: int| 0 <= j < old_stack.len() && old_stack[j] == b as usize;
                    assert(stack@[j] == b as usize);
                }
            }
        }
        k += 1;
    }
    let mut pops: usize = 0;
    proof {
        lemma_count_true_bound(visited@);
    }
    while stack.len() > 0
        invariant
            n == adj@.len(),
            adj_closed(adj@),
            edge == adj_edge(adj@),
            from == node_set(sources@),
            visited@.len() == n,
            forall|j: int| 0 <= j < sources@.len() ==> visited@[sources@[j] as int],
            forall|j: int| 0 <= j < sources@.len() ==> sources@[j] < n,
            forall|b: int| 0 <= b < n && visited@[b] ==> reach_from_set(edge, from, b),
            forall|b: int|
                0 <= b < n && visited@[b] ==> stack@.contains(b as usize) || forall|j: int|
                    0 <= j < adj@[b]@.len() ==> visited@[(#[trigger] adj@[b]@[j]) as int],
            forall|j: int| 0 <= j < stack@.len() ==> stack@[j] < n && visited@[stack@[j] as int],
            pops + stack@.len() == count_true(visited@),
            count_true(visited@) <= n,
        decreases 2 * n - count_true(visited@) - pops,
    {
        let ghost before = stack@;
        let ghost count0 = count_true(visited@);
        let v: usize = stack.pop().unwrap();
        pops += 1;
        let succ = &adj[v];
        let mut j: usize = 0;
        proof {
            assert(stack@ == before.drop_last());
            assert forall|b: int| 0 <= b < n && visited@[b] && b != v implies stack@.contains(
                b as usize,
            ) || forall|i: int|
                0 <= i < adj@[b]@.len() ==> visited@[(#[trigger] adj@[b]@[i]) as int] by {
                if before.contains(b as usize) {
                    let i = choose|i: int| 0 <= i < before.len() && before[i] == b as usize;
                    assert(stack@[i] == b as usize);
                }
            }
        }
        while j < succ.len()
            invariant
                count_true(visited@) >= count0,
                n == adj@.len(),
                adj_closed(adj@),
                edge == adj_edge(adj@),
                from == node_set(sources@),
                visited@.len() == n,
                v < n,
                visited@[v as int],
                succ == adj@[v as int],
                j <= succ@.len(),
                forall|i: int| 0 <= i < sources@.len() ==> visited@[sources@[i] as int],
                forall|i: int| 0 <= i < sources@.len() ==> sources@[i] < n,
                forall|b: int| 0 <= b < n && visited@[b] ==> reach_from_set(edge, from, b),
                forall|i: int| 0 <= i < j ==> visited@[(#[trigger] succ@[i]) as int],
                forall|b: int|
                    0 <= b < n && visited@[b] && b != v ==> stack@.contains(b as usize) || forall|
                        i: int,
                    |
                        0 <= i < adj@[b]@.len() ==> visited@[(#[trigger] adj@[b]@[i]) as int],
                forall|i: int|
                    0 <= i < stack@.len() ==> stack@[i] < n && visited@[stack@[i] as int],
                pops + stack@.len() == count_true(visited@),
                count_true(visited@) <= n,
                pops >= 1,
            decreases succ.len() - j,
        {
            let t: usize = succ[j];
            assert(t < n);
            if !visited[t] {
                proof {
                    lemma_count_true_set(visited@, t as int);
                    lemma_count_true_bound(visited@.update(t as int, true));
                    let a = choose|a: int| from.contains(a) && reach(edge, a, v as int);
                    assert(succ@.contains(t));
                    assert(edge(v as int, t as int));
                    lemma_reach_extend(edge, a, v as int, t as int);
                }
                let ghost old_stack = stack@;
                let ghost old_visited = visited@;
                visited.set(t, true);
                stack.push(t);
                assert forall|b: int| 0 <= b < n && visited@[b] && b != v implies stack@.contains(
                    b as usize,
                ) || forall|i: int|
                    0 <= i < adj@[b]@.len() ==> visited@[(#[trigger] adj@[b]@[i]) as int] by {
                    if b == t {
                        assert(stack@[old_stack.len() as int] == t);
                    } else if old_stack.contains(b as usize) {
                        let i = choose|i: int| 0 <= i < old_stack.len() && old_stack[i] == b as usize;
                        assert(stack@[i] == b as usize);
                    } else {
                        assert(old_visited[b]);
                        assert forall|i: int| 0 <= i < adj@[b]@.len() implies visited@[(
                        #[trigger] adj@[b]@[i]) as int] by {
                            assert(old_visited[adj@[b]@[i] as int]);
                        }
                    }
                }
            }
            j += 1;
        }
        proof {
            assert forall|b: int| 0 <= b < n && visited@[b] implies stack@.contains(b as usize)
                || forall|i: int|
                0 <= i < adj@[b]@.len() ==> visited@[(#[trigger] adj@[b]@[i]) as int] by {
                if b == v {
                }
            }
        }
    }
    proof {
        let inside = |b: int| 0 <= b < n && visited@[b];
        assert forall|x: int, y: int| inside(x) && #[trigger] edge(x, y) implies inside(y) by {
            let jj = choose|jj: int| 0 <= jj < adj@[x]@.len() && adj@[x]@[jj] == y as usize;
            assert(!stack@.contains(x as usize));
            assert(visited@[adj@[x]@[jj] as int]);
        }
        assert forall|b: int| 0 <= b < n implies (#[trigger] visited@[b] <==> reach_from_set(
            edge,
            from,
            b,
        )) by {
            if reach_from_set(edge, from, b) {
                let a = choose|a: int| from.contains(a) && reach(edge, a, b);
                let idx = choose|idx: int|
                    0 <= idx < sources@.len() && sources@[idx] == a as usize;
                assert(inside(a));
                let m = choose|m: nat| reach_in(edge, a, b, m);
                lemma_closed_holds_reach(edge, inside, a, b, m);
            }
        }
    }
    visited
}

/// The adjacency lists without the successors that are marked.
pub fn unmarked_lists(adj: &Vec<Vec<usize>>, marks: &Vec<bool>) -> (out: Vec<Vec<usize>>)
    requires
        adj_closed(adj@),
        marks@.len() == adj@.len(),
    ensures
        out@.len() == adj@.len(),
        adj_closed(out@),
        forall|x: int, y: int|
            #[trigger] adj_edge(out@)(x, y) == (adj_edge(adj@)(x, y) && 0 <= y < marks@.len()
                && !marks@[y]),
{
    let n: usize = adj.len();
    let mut out: Vec<Vec<usize>> = Vec::new();
    let mut a: usize = 0;
    while a < n
        invariant
            a <= n,
            n == adj@.len(),
            adj_closed(adj@),
            marks@.len() == n,
            out@.len() == a,
            forall|x: int, j: int|
                0 <= x < a && 0 <= j < out@[x]@.len() ==> (#[trigger] out@[x]@[j]) < n,
            forall|x: int, b: usize|
                0 <= x < a ==> (#[trigger] out@[x]@.contains(b) <==> adj@[x]@.contains(b) && b < n
                    && !marks@[b as int]),
        decreases n - a,
    {
        let src = &adj[a];
        let mut kept: Vec<usize> = Vec::new();
        let mut j: usize = 0;
        while j < src.len()
            invariant
                j <= src@.len(),
                a < n,
                n == adj@.len(),
                adj_closed(adj@),
                marks@.len() == n,
                *src == adj@[a as int],
                forall|i: int| 0 <= i < kept@.len() ==> (#[trigger] kept@[i]) < n,
                forall|b: usize|
                    kept@.contains(b) <==> b < n && !marks@[b as int] && exists|i: int|
                        0 <= i < j && src@[i] == b,
            decreases src.len() - j,
        {
            let t: usize = src[j];
            assert(adj@[a as int]@[j as int] < n);
            let ghost before = kept@;
            if !marks[t] {
                kept.push(t);
            }
            assert forall|b: usize|
                kept@.contains(b) <==> b < n && !marks@[b as int] && exists|i: int|
                    0 <= i < j + 1 && src@[i] == b by {
                if kept@.contains(b) {
                    let k = choose|k: int| 0 <= k < kept@.len() && kept@[k] == b;
                    if k < before.len() {
                        assert(before.contains(b));
                        let i = choose|i: int| 0 <= i < j && src@[i] == b;
                        assert(0 <= i < j + 1 && src@[i] == b);
                    } else {
                        assert(src@[j as int] == b);
                    }
                }
                if b < n && !marks@[b as int] && exists|i: int| 0 <= i < j + 1 && src@[i] == b {
                    let i = choose|i: int| 0 <= i < j + 1 && src@[i] == b;
                    if i < j {
                        assert(before.contains(b));
                        let k = choose|k: int| 0 <= k < before.len() && before[k] == b;
                        assert(kept@[k] == b);
                    } else {
                        assert(kept@[before.len() as int] == b);
                    }
                }
            }
            j += 1;
        }
        proof {
            assert forall|b: usize| #[trigger] kept@.contains(b) <==> src@.contains(b) && b < n
                && !marks@[b as int] by {
                if kept@.contains(b) {
                    let i = choose|i: int| 0 <= i < src@.len() && src@[i] == b;
                    assert(src@[i] == b);
                }
                if src@.contains(b) {
                    let i = choose|i: int| 0 <= i < src@.len() && src@[i] == b;
                    assert(0 <= i < j && src@[i] == b);
                }
            }
        }
        out.push(kept);
        a += 1;
    }
    assert forall|x: int, y: int| #[trigger] adj_edge(out@)(x, y) == (adj_edge(adj@)(x, y) && 0 <= y
        < marks@.len() && !marks@[y]) by {
        if 0 <= x < n && 0 <= y <= usize::MAX {
            let yu = y as usize;
            assert(out@[x]@.contains(yu) <==> adj@[x]@.contains(yu) && yu < n && !marks@[yu as int]);
        }
    }
    out
}

} // verus!
