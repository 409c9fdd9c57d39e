//! Reachability over directed graphs given as adjacency lists.
//!
//! Nodes are the indices of the outer vector; an edge `a -> b` exists when
//! `b` occurs in the list of `a`. Edges that leave the node range are
//! ignored.
use vstd::prelude::*;

verus! {

/// There is an edge from `a` to `b`, both inside the node range.
pub open spec fn has_edge(g: Seq<Seq<usize>>, a: usize, b: usize) -> bool {
    &&& a < g.len()
    &&& b < g.len()
    &&& g[a as int].contains(b)
}

/// The edge relation of adjacency lists.
pub open spec fn edges(g: Seq<Seq<usize>>) -> spec_fn(usize, usize) -> bool {
    |a: usize, b: usize| has_edge(g, a, b)
}

/// `dst` can be reached from `src` in at most `n` steps of relation `e`.
pub open spec fn reach_in(e: spec_fn(usize, usize) -> bool, n: nat, src: usize, dst: usize) -> bool
    decreases n,
{
    if n == 0 {
        src == dst
    } else {
        reach_in(e, (n - 1) as nat, src, dst) || exists|m: usize|
            reach_in(e, (n - 1) as nat, src, m) && #[trigger] e(m, dst)
    }
}

/// `dst` can be reached from `src` by zero or more steps of `e`.
pub open spec fn reachable(e: spec_fn(usize, usize) -> bool, src: usize, dst: usize) -> bool {
    exists|n: nat| reach_in(e, n, src, dst)
}

/// `dst` can be reached from `src` by one or more steps of `e`.
pub open spec fn reachable_plus(e: spec_fn(usize, usize) -> bool, src: usize, dst: usize) -> bool {
    exists|m: usize| reachable(e, src, m) && #[trigger] e(m, dst)
}

/// The adjacency lists of `g` as sequences.
pub open spec fn adj_view(g: Seq<Vec<usize>>) -> Seq<Seq<usize>> {
    Seq::new(g.len(), |i: int| g[i]@)
}

/// Number of `false` entries.
pub open spec fn count_unset(s: Seq<bool>) -> nat
    decreases s.len(),
{
    if s.len() == 0 {
        0
    } else {
        count_unset(s.drop_last()) + if s.last() {
            0nat
        } else {
            1nat
        }
    }
}

proof fn lemma_count_unset_set(s: Seq<bool>, i: int)
    requires
        0 <= i < s.len(),
        !s[i],
    ensures
        count_unset(s.update(i, true)) + 1 == count_unset(s),
    decreases s.len(),
{
    let t = s.update(i, true);
    if i == s.len() - 1 {
        assert(t.drop_last() =~= s.drop_last());
    } else {
        assert(t.drop_last() =~= s.drop_last().update(i, true));
        lemma_count_unset_set(s.drop_last(), i);
    }
}

proof fn lemma_count_unset_bound(s: Seq<bool>)
    ensures
        count_unset(s) <= s.len(),
    decreases s.len(),
{
    if s.len() > 0 {
        lemma_count_unset_bound(s.drop_last());
    }
}

proof fn lemma_reach_step(e: spec_fn(usize, usize) -> bool, n: nat, src: usize, m: usize, dst: usize)
    requires
        reach_in(e, n, src, m),
        e(m, dst),
    ensures
        reach_in(e, n + 1, src, dst),
{
    let n1 = (n + 1) as nat;
    assert((n1 - 1) as nat == n);
    assert(reach_in(e, (n1 - 1) as nat, src, m) && e(m, dst));
    assert(reach_in(e, n1, src, dst));
}

/// Every node of a set that holds `src` and is closed under edges holds
/// every node reachable from `src`.
proof fn lemma_closed_holds_reachable(g: Seq<Seq<usize>>, marks: Seq<bool>, src: usize, n: nat, dst: usize)
    requires
        marks.len() == g.len(),
        src < g.len(),
        marks[src as int],
        forall|a: usize, b: usize| #[trigger] has_edge(g, a, b) && marks[a as int] ==> marks[b as int],
        reach_in(edges(g), n, src, dst),
        dst < g.len(),
    ensures
        marks[dst as int],
    decreases n,
{
    if n > 0 {
        if reach_in(edges(g), (n - 1) as nat, src, dst) {
            lemma_closed_holds_reachable(g, marks, src, (n - 1) as nat, dst);
        } else {
            let e = edges(g);
            let m = choose|m: usize| reach_in(e, (n - 1) as nat, src, m) && #[trigger] e(m, dst);
            assert(has_edge(g, m, dst));
            if m >= g.len() {
                assert(false);
            }
            lemma_closed_holds_reachable(g, marks, src, (n - 1) as nat, m);
        }
    }
}

/// Marks every node reachable from `start`.
pub fn reach_from(g: &Vec<Vec<usize>>, start: usize) -> (marks: Vec<bool>)
    requires
        start < g@.len(),
    ensures
        marks@.len() == g@.len(),
        forall|i: usize| i < g@.len() ==> (marks@[i as int] <==> reachable(edges(adj_view(g@)), start, i)),
{
    let ghost G = adj_view(g@);
    assert(G.len() == g@.len());
    let n = g.len();
    let mut marks: Vec<bool> = Vec::new();
    let mut k: usize = 0;
    while k < n
        invariant
            n == g@.len(),
            k <= n,
            marks@.len() == k,
            forall|i: int| 0 <= i < k ==> !marks@[i],
        decreases n - k,
    {
        marks.push(false);
        k = k + 1;
    }
    marks.set(start, true);
    assert(reach_in(edges(G), 0, start, start));
    let mut stack: Vec<usize> = Vec::new();
    stack.push(start);
    assert(stack@.contains(start)) by {
        assert(stack@[0] == start);
    }
    assert(forall|i: int| 0 <= i < n && marks@[i] ==> i == start);
    proof {
        lemma_count_unset_bound(marks@);
    }
    while stack.len() > 0
        invariant
            n == g@.len(),
            G == adj_view(g@),
            G.len() == n,
            start < n,
            marks@.len() == n,
            marks@[start as int],
            forall|i: int| 0 <= i < stack@.len() ==> stack@[i] < n && marks@[stack@[i] as int],
            forall|i: usize| i < n && #[trigger] marks@[i as int] ==> reachable(edges(G), start, i),
            forall|a: usize, b: usize|
                #[trigger] has_edge(G, a, b) && marks@[a as int] && !stack@.contains(a)
                    ==> marks@[b as int],
        decreases count_unset(marks@), stack@.len(),
    {
        let ghost s0 = stack@;
        let ghost m0 = marks@;
        let u = stack.pop().unwrap();
        assert(u == s0[s0.len() - 1]);
        assert(u < n);
        assert(stack@ =~= s0.drop_last());
        assert(marks@[u as int]);
        let ghost s1 = stack@;
        assert(forall|x: usize| !s1.contains(x) && x != u ==> !s0.contains(x)) by {
            assert forall|x: usize| !s1.contains(x) && x != u implies !s0.contains(x) by {
                if s0.contains(x) {
                    let t = choose|t: int| 0 <= t < s0.len() && s0[t] == x;
                    if t < s0.len() - 1 {
                        assert(s1[t] == x);
                    }
                }
            }
        }
        let succ = &g[u];
        assert(succ@ == g@[u as int]@);
        assert(G[u as int] == g@[u as int]@);
        let mut j: usize = 0;
        while j < succ.len()
            invariant
                n == g@.len(),
                G == adj_view(g@),
                G.len() == n,
                start < n,
                u < n,
                marks@[u as int],
                succ@ == G[u as int],
                j <= succ@.len(),
                marks@.len() == n,
                marks@[start as int],
                count_unset(marks@) <= count_unset(m0),
                forall|i: int| 0 <= i < stack@.len() ==> stack@[i] < n && marks@[stack@[i] as int],
                forall|i: usize| i < n && #[trigger] marks@[i as int] ==> reachable(edges(G), start, i),
                forall|a: usize, b: usize|
                    #[trigger] has_edge(G, a, b) && a < n && m0[a as int] && !s1.contains(a) && a != u
                        ==> marks@[b as int],
                forall|i: int| 0 <= i < n && #[trigger] m0[i] ==> marks@[i],
                forall|x: usize| #[trigger] s1.contains(x) ==> stack@.contains(x),
                forall|i: int| 0 <= i < n && #[trigger] marks@[i] && !m0[i] ==> stack@.contains(i as usize),
                count_unset(marks@) < count_unset(m0) || (marks@ == m0 && stack@ == s1),
                m0.len() == n,
                forall|t: int| 0 <= t < j && succ@[t] < n ==> marks@[succ@[t] as int],
            decreases succ@.len() - j,
        {
            let v = succ[j];
            if v < n && !marks[v] {
                proof {
                    lemma_count_unset_set(marks@, v as int);
                    let k = choose|k: nat| reach_in(edges(G), k, start, u);
                    assert(has_edge(G, u, v));
                    assert(edges(G)(u, v));
                    lemma_reach_step(edges(G), k, start, u, v);
                }
                marks.set(v, true);
                let ghost s2 = stack@;
                stack.push(v);
                assert(stack@[stack@.len() - 1] == v);
                assert(forall|x: usize| s2.contains(x) ==> stack@.contains(x)) by {
                    assert forall|x: usize| s2.contains(x) implies stack@.contains(x) by {
                        let t = choose|t: int| 0 <= t < s2.len() && s2[t] == x;
                        assert(stack@[t] == x);
                    }
                }
            }
            j = j + 1;
        }
        proof {
            assert forall|a: usize, b: usize|
                #[trigger] has_edge(G, a, b) && marks@[a as int] && !stack@.contains(a) implies marks@[b as int] by {
                if a == u {
                    let t = choose|t: int| 0 <= t < succ@.len() && succ@[t] == b;
                } else if m0[a as int] {
                    assert(!s1.contains(a));
                }
            }
        }
    }
    proof {
        assert forall|i: usize| i < g@.len() implies (marks@[i as int] <==> reachable(edges(G), start, i)) by {
            if reachable(edges(G), start, i) {
                let k = choose|k: nat| reach_in(edges(G), k, start, i);
                lemma_closed_holds_reachable(G, marks@, start, k, i);
            }
        }
    }
    marks
}

} // verus!
