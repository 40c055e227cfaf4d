//! Depth-first topological ordering of a dependency graph, with the
//! offending path when the graph has a cycle. Nodes are indices; `adj[u]`
//! lists the nodes `u` depends on.
use vstd::prelude::*;

verus! {

pub open spec fn graph_wf(adj: Seq<Seq<usize>>) -> bool {
    forall|u: int, k: int| 0 <= u < adj.len() && 0 <= k < adj[u].len() ==> #[trigger] adj[u][k] < adj.len()
}

pub open spec fn is_edge(adj: Seq<Seq<usize>>, u: int, v: int) -> bool {
    0 <= u < adj.len() && adj[u].contains(v as usize)
}

/// `path` walks edges of the graph and comes back to where it started.
pub open spec fn is_cycle(adj: Seq<Seq<usize>>, path: Seq<usize>) -> bool {
    &&& path.len() >= 2
    &&& path[0] == path.last()
    &&& forall|k: int| 0 <= k < path.len() - 1 ==> is_edge(adj, #[trigger] path[k] as int, path[k + 1] as int)
}

/// `w` occurs in `order` before index `i`.
pub open spec fn occurs_before(order: Seq<usize>, i: int, w: usize) -> bool {
    exists|j: int| 0 <= j < i && order[j] == w
}

/// Every node of `order` comes after all the nodes it depends on.
pub open spec fn deps_first(adj: Seq<Seq<usize>>, order: Seq<usize>) -> bool {
    forall|i: int, k: int|
        0 <= i < order.len() && 0 <= order[i] < adj.len() && 0 <= k < adj[order[i] as int].len()
            ==> #[trigger] occurs_before(order, i, adj[order[i] as int][k])
}

/// An order of distinct nodes in which dependencies come first.
pub open spec fn is_topological(adj: Seq<Seq<usize>>, order: Seq<usize>) -> bool {
    &&& order.no_duplicates()
    &&& forall|i: int| 0 <= i < order.len() ==> #[trigger] order[i] < adj.len()
    &&& deps_first(adj, order)
}

/// Number of unvisited nodes.
pub open spec fn unvisited(marks: Seq<u8>) -> nat
    decreases marks.len(),
{
    if marks.len() == 0 {
        0
    } else {
        unvisited(marks.drop_last()) + if marks.last() == 0 {
            1nat
        } else {
            0nat
        }
    }
}

proof fn lemma_unvisited_mono(a: Seq<u8>, b: Seq<u8>)
    requires
        a.len() == b.len(),
        forall|i: int| 0 <= i < a.len() && a[i] != 0 ==> b[i] == a[i],
    ensures
        unvisited(b) <= unvisited(a),
    decreases a.len(),
{
    if a.len() > 0 {
        lemma_unvisited_mono(a.drop_last(), b.drop_last());
    }
}

proof fn lemma_unvisited_mark(a: Seq<u8>, v: int, x: u8)
    requires
        0 <= v < a.len(),
        a[v] == 0,
        x != 0,
    ensures
        unvisited(a.update(v, x)) + 1 == unvisited(a),
    decreases a.len(),
{
    if v < a.len() - 1 {
        assert(a.update(v, x).drop_last() =~= a.drop_last().update(v, x));
        lemma_unvisited_mark(a.drop_last(), v, x);
    } else {
        assert(a.update(v, x).drop_last() =~= a.drop_last());
    }
}

/// The search's state: marks (0 unvisited, 1 on the stack, 2 done), the
/// path being explored, and the finished nodes in finishing order.
#[verifier::opaque]
pub open spec fn dfs_inv(adj: Seq<Seq<usize>>, marks: Seq<u8>, order: Seq<usize>, stack: Seq<usize>) -> bool {
    &&& graph_wf(adj)
    &&& adj.len() <= usize::MAX
    &&& marks.len() == adj.len()
    &&& forall|u: int| 0 <= u < marks.len() ==> #[trigger] marks[u] <= 2
    &&& forall|u: int| 0 <= u < marks.len() ==> (#[trigger] marks[u] == 1 <==> stack.contains(u as usize))
    &&& forall|u: int| 0 <= u < marks.len() ==> (#[trigger] marks[u] == 2 <==> order.contains(u as usize))
    &&& stack.no_duplicates()
    &&& forall|i: int| 0 <= i < stack.len() ==> #[trigger] stack[i] < adj.len()
    &&& forall|k: int| 0 <= k < stack.len() - 1 ==> is_edge(adj, #[trigger] stack[k] as int, stack[k + 1] as int)
    &&& is_topological(adj, order)
}

proof fn lemma_inv_facts(adj: Seq<Seq<usize>>, marks: Seq<u8>, order: Seq<usize>, stack: Seq<usize>)
    requires
        dfs_inv(adj, marks, order, stack),
    ensures
        graph_wf(adj),
        adj.len() <= usize::MAX,
        marks.len() == adj.len(),
        forall|u: int| 0 <= u < marks.len() ==> #[trigger] marks[u] <= 2,
        forall|u: int| 0 <= u < marks.len() ==> (#[trigger] marks[u] == 1 <==> stack.contains(u as usize)),
        forall|u: int| 0 <= u < marks.len() ==> (#[trigger] marks[u] == 2 <==> order.contains(u as usize)),
        forall|k: int| 0 <= k < stack.len() - 1 ==> is_edge(adj, #[trigger] stack[k] as int, stack[k + 1] as int),
        is_topological(adj, order),
        stack.no_duplicates(),
{
    reveal(dfs_inv);
}

proof fn lemma_seq_push_contains(s: Seq<usize>, v: usize, u: usize)
    ensures
        s.push(v).contains(u) <==> (s.contains(u) || u == v),
{
    if s.push(v).contains(u) {
        let j = choose|j: int| 0 <= j < s.push(v).len() && s.push(v)[j] == u;
        if j < s.len() {
            assert(s[j] == u);
        }
    }
    if s.contains(u) {
        let j = choose|j: int| 0 <= j < s.len() && s[j] == u;
        assert(s.push(v)[j] == u);
    }
    if u == v {
        assert(s.push(v)[s.len() as int] == u);
    }
}

/// Entering `v`: it goes on the stack.
proof fn lemma_enter(adj: Seq<Seq<usize>>, m: Seq<u8>, o: Seq<usize>, s: Seq<usize>, v: usize)
    requires
        dfs_inv(adj, m, o, s),
        v < adj.len(),
        m[v as int] == 0,
        s.len() == 0 || is_edge(adj, s.last() as int, v as int),
    ensures
        dfs_inv(adj, m.update(v as int, 1), o, s.push(v)),
        unvisited(m.update(v as int, 1)) + 1 == unvisited(m),
{
    reveal(dfs_inv);
    lemma_unvisited_mark(m, v as int, 1);
    let m1 = m.update(v as int, 1);
    let s1 = s.push(v);
    assert(!s.contains(v));
    assert forall|u: int| 0 <= u < m1.len() implies (#[trigger] m1[u] == 1 <==> s1.contains(u as usize)) by {
        lemma_seq_push_contains(s, v, u as usize);
    }
    assert forall|u: int| 0 <= u < m1.len() implies (#[trigger] m1[u] == 2 <==> o.contains(u as usize)) by {
    }
    assert(s1.no_duplicates()) by {
        assert forall|i: int, j: int| 0 <= i < j < s1.len() implies s1[i] != s1[j] by {
            if j == s.len() {
                assert(s.contains(s[i]));
            }
        }
    }
    assert forall|k: int| 0 <= k < s1.len() - 1 implies is_edge(adj, #[trigger] s1[k] as int, s1[k + 1] as int) by {
        if k < s.len() - 1 {
            assert(is_edge(adj, s[k] as int, s[k + 1] as int));
        }
    }
}

/// Leaving `v` once everything it depends on is done.
proof fn lemma_leave(adj: Seq<Seq<usize>>, m: Seq<u8>, o: Seq<usize>, s: Seq<usize>, v: usize)
    requires
        dfs_inv(adj, m, o, s.push(v)),
        v < adj.len(),
        m[v as int] == 1,
        forall|j: int| 0 <= j < adj[v as int].len() ==> #[trigger] m[adj[v as int][j] as int] == 2,
    ensures
        dfs_inv(adj, m.update(v as int, 2), o.push(v), s),
{
    reveal(dfs_inv);
    let m2 = m.update(v as int, 2);
    let o2 = o.push(v);
    let s1 = s.push(v);
    assert(s1.contains(v));
    assert(!s.contains(v)) by {
        if s.contains(v) {
            let j = choose|j: int| 0 <= j < s.len() && s[j] == v;
            assert(s1[j] == s1[s.len() as int]);
        }
    }
    assert(!o.contains(v));
    assert forall|u: int| 0 <= u < m2.len() implies (#[trigger] m2[u] == 1 <==> s.contains(u as usize)) by {
        lemma_seq_push_contains(s, v, u as usize);
    }
    assert forall|u: int| 0 <= u < m2.len() implies (#[trigger] m2[u] == 2 <==> o2.contains(u as usize)) by {
        lemma_seq_push_contains(o, v, u as usize);
    }
    assert(s.no_duplicates()) by {
        assert forall|i: int, j: int| 0 <= i < j < s.len() implies s[i] != s[j] by {
            assert(s1[i] != s1[j]);
        }
    }
    assert forall|i: int| 0 <= i < s.len() implies #[trigger] s[i] < adj.len() by {
        assert(s1[i] < adj.len());
    }
    assert forall|k: int| 0 <= k < s.len() - 1 implies is_edge(adj, #[trigger] s[k] as int, s[k + 1] as int) by {
        assert(is_edge(adj, s1[k] as int, s1[k + 1] as int));
    }
    assert(o2.no_duplicates()) by {
        assert forall|i: int, j: int| 0 <= i < j < o2.len() implies o2[i] != o2[j] by {
            if j == o.len() {
                assert(o.contains(o[i]));
            }
        }
    }
    assert forall|i: int| 0 <= i < o2.len() implies #[trigger] o2[i] < adj.len() by {
    }
    assert(deps_first(adj, o2)) by {
        assert forall|i: int, kk: int|
            0 <= i < o2.len() && 0 <= o2[i] < adj.len() && 0 <= kk < adj[o2[i] as int].len()
            implies #[trigger] occurs_before(o2, i, adj[o2[i] as int][kk]) by {
            if i < o.len() {
                assert(o2[i] == o[i]);
                assert(occurs_before(o, i, adj[o[i] as int][kk]));
                let j = choose|j: int| 0 <= j < i && o[j] == adj[o[i] as int][kk];
                assert(o2[j] == o[j]);
            } else {
                assert(i == o.len());
                assert(o2[i] == v);
                let w = adj[v as int][kk];
                assert(m[w as int] == 2);
                assert(o.contains(w));
                let j = choose|j: int| 0 <= j < o.len() && o[j] == w;
                assert(o2[j] == w);
            }
        }
    }
}

proof fn lemma_prefix_trans(a: Seq<usize>, b: Seq<usize>, c: Seq<usize>)
    requires
        b.len() >= a.len(),
        b.take(a.len() as int) == a,
        c.len() >= b.len(),
        c.take(b.len() as int) == b,
    ensures
        c.take(a.len() as int) == a,
{
    assert forall|i: int| 0 <= i < a.len() implies c[i] == a[i] by {
        assert(c.take(b.len() as int)[i] == b[i]);
        assert(b.take(a.len() as int)[i] == a[i]);
    }
    assert(c.take(a.len() as int) =~= a);
}

fn visit(
    adj: &Vec<Vec<usize>>,
    v: usize,
    marks: &mut Vec<u8>,
    order: &mut Vec<usize>,
    stack: &mut Vec<usize>,
) -> (r: Result<(), Vec<usize>>)
    requires
        dfs_inv(adj.deep_view(), old(marks)@, old(order)@, old(stack)@),
        v < adj@.len(),
        old(stack)@.len() == 0 || is_edge(adj.deep_view(), old(stack)@.last() as int, v as int),
    ensures
        match r {
            Ok(()) => {
                &&& dfs_inv(adj.deep_view(), final(marks)@, final(order)@, final(stack)@)
                &&& final(stack)@ == old(stack)@
                &&& final(marks)@[v as int] == 2
                &&& final(order)@.take(old(order)@.len() as int) == old(order)@
                &&& final(order)@.len() >= old(order)@.len()
                &&& forall|u: int| 0 <= u < old(marks)@.len() && old(marks)@[u] != 0 ==> #[trigger] final(marks)@[u] == old(marks)@[u]
                &&& final(marks)@.len() == old(marks)@.len()
            },
            Err(path) => is_cycle(adj.deep_view(), path@) && path@.drop_last().no_duplicates(),
        },
    decreases unvisited(old(marks)@),
{
    let ghost g = adj.deep_view();
    assert(g.len() == adj@.len());
    proof {
        lemma_inv_facts(g, marks@, order@, stack@);
    }
    if marks[v] == 2 {
        assert(order@.take(order@.len() as int) =~= order@);
        return Ok(());
    }
    if marks[v] == 1 {
        assert(stack@.contains(v));
        let mut p: usize = 0;
        while stack[p] != v
            invariant
                p < stack@.len(),
                stack@.len() == stack.len(),
                exists|j: int| p <= j < stack@.len() && stack@[j] == v,
            decreases stack@.len() - p,
        {
            p = p + 1;
        }
        let mut path: Vec<usize> = Vec::new();
        let mut q = p;
        while q < stack.len()
            invariant
                p <= q <= stack@.len(),
                path@ == stack@.subrange(p as int, q as int),
            decreases stack@.len() - q,
        {
            path.push(stack[q]);
            assert(stack@.subrange(p as int, q + 1) =~= stack@.subrange(p as int, q as int).push(stack@[q as int]));
            q = q + 1;
        }
        path.push(v);
        proof {
            let s = stack@;
            assert(path@ =~= s.subrange(p as int, s.len() as int).push(v));
            assert forall|k: int| 0 <= k < path@.len() - 1 implies is_edge(g, #[trigger] path@[k] as int, path@[k + 1] as int) by {
                if k < path@.len() - 2 {
                    assert(path@[k] == s[p + k]);
                    assert(path@[k + 1] == s[p + k + 1]);
                    assert(is_edge(g, s[p + k] as int, s[p + k + 1] as int));
                } else {
                    assert(path@[k] == s.last());
                }
            }
            let sub = s.subrange(p as int, s.len() as int);
            assert(path@.drop_last() =~= sub);
            assert forall|a: int, b: int| 0 <= a < b < sub.len() implies sub[a] != sub[b] by {
                assert(sub[a] == s[p + a]);
                assert(sub[b] == s[p + b]);
            }
        }
        return Err(path);
    }
    let ghost m0 = marks@;
    let ghost o0 = order@;
    let ghost s0 = stack@;
    proof {
        lemma_enter(g, m0, o0, s0, v);
    }
    marks.set(v, 1);
    stack.push(v);
    let ghost m1 = marks@;
    assert(m1 == m0.update(v as int, 1));
    assert(order@.take(o0.len() as int) =~= o0);
    let mut k: usize = 0;
    while k < adj[v].len()
        invariant
            g == adj.deep_view(),
            g.len() == adj@.len(),
            v < adj@.len(),
            k <= g[v as int].len(),
            dfs_inv(g, marks@, order@, stack@),
            m0 == old(marks)@,
            stack@ == s0.push(v),
            marks@.len() == m0.len(),
            marks@[v as int] == 1,
            unvisited(marks@) < unvisited(m0),
            forall|u: int| 0 <= u < m1.len() && m1[u] != 0 ==> #[trigger] marks@[u] == m1[u],
            forall|j: int| 0 <= j < k ==> #[trigger] marks@[g[v as int][j] as int] == 2,
            order@.take(o0.len() as int) == o0,
            order@.len() >= o0.len(),
            m1 == m0.update(v as int, 1),
        decreases g[v as int].len() - k,
    {
        let w = adj[v][k];
        assert(w == g[v as int][k as int]);
        assert(g[v as int].contains(w));
        proof {
            lemma_inv_facts(g, marks@, order@, stack@);
        }
        let ghost mb = marks@;
        let ghost ob = order@;
        match visit(adj, w, marks, order, stack) {
            Ok(()) => {},
            Err(path) => {
                return Err(path);
            },
        }
        proof {
            lemma_unvisited_mono(mb, marks@);
            assert forall|j: int| 0 <= j < k + 1 implies #[trigger] marks@[g[v as int][j] as int] == 2 by {
                if j < k {
                    assert(mb[g[v as int][j] as int] == 2);
                }
            }
            lemma_prefix_trans(o0, ob, order@);
        }
        k = k + 1;
    }
    let ghost mb = marks@;
    let ghost ob = order@;
    proof {
        lemma_leave(g, mb, ob, s0, v);
    }
    stack.pop();
    marks.set(v, 2);
    order.push(v);
    proof {
        assert(stack@ =~= s0);
        assert(order@.take(o0.len() as int) =~= o0) by {
            assert(order@.take(ob.len() as int) =~= ob);
            lemma_prefix_trans(o0, ob, order@);
        }
        assert forall|u: int| 0 <= u < m0.len() && m0[u] != 0 implies #[trigger] marks@[u] == m0[u] by {
            assert(u != v);
            assert(m1[u] == m0[u]);
        }
    }
    Ok(())
}

/// Orders every node reachable from the roots `0..roots` so that each
/// comes after the nodes it depends on, or gives a cycle.
pub fn topological_order(adj: &Vec<Vec<usize>>, roots: usize) -> (r: Result<Vec<usize>, Vec<usize>>)
    requires
        graph_wf(adj.deep_view()),
        roots <= adj@.len(),
    ensures
        match r {
            Ok(order) => is_topological(adj.deep_view(), order@) && forall|i: int|
                0 <= i < roots ==> #[trigger] order@.contains(i as usize),
            Err(path) => is_cycle(adj.deep_view(), path@) && path@.drop_last().no_duplicates(),
        },
{
    let ghost g = adj.deep_view();
    assert(g.len() == adj@.len());
    let mut marks: Vec<u8> = Vec::new();
    let mut n: usize = 0;
    while n < adj.len()
        invariant
            n <= adj@.len(),
            marks@.len() == n,
            forall|u: int| 0 <= u < n ==> #[trigger] marks@[u] == 0,
        decreases adj.len() - n,
    {
        marks.push(0);
        n = n + 1;
    }
    let mut order: Vec<usize> = Vec::new();
    let mut stack: Vec<usize> = Vec::new();
    proof {
        reveal(dfs_inv);
        assert(order@.no_duplicates());
        assert(stack@.no_duplicates());
    }
    let mut i: usize = 0;
    while i < roots
        invariant
            g == adj.deep_view(),
            g.len() == adj@.len(),
            roots <= adj@.len(),
            i <= roots,
            marks@.len() == g.len(),
            dfs_inv(g, marks@, order@, stack@),
            stack@.len() == 0,
            forall|j: int| 0 <= j < i ==> #[trigger] marks@[j] == 2,
        decreases roots - i,
    {
        let ghost mb = marks@;
        match visit(adj, i, &mut marks, &mut order, &mut stack) {
            Ok(()) => {},
            Err(path) => {
                return Err(path);
            },
        }
        assert forall|j: int| 0 <= j < i + 1 implies #[trigger] marks@[j] == 2 by {
            if j < i {
                assert(mb[j] == 2);
            }
        }
        i = i + 1;
    }
    proof {
        lemma_inv_facts(g, marks@, order@, stack@);
        assert forall|j: int| 0 <= j < roots implies #[trigger] order@.contains(j as usize) by {
            assert(marks@[j] == 2);
        }
    }
    Ok(order)
}

proof fn lemma_cycle_descends(adj: Seq<Seq<usize>>, order: Seq<usize>, path: Seq<usize>, i0: int, k: int)
    requires
        is_topological(adj, order),
        is_cycle(adj, path),
        0 <= i0 < order.len(),
        order[i0] == path[0],
        1 <= k < path.len(),
    ensures
        exists|j: int| 0 <= j < i0 && order[j] == #[trigger] path[k],
    decreases k,
{
    let (u, jj) = if k == 1 {
        (i0, i0)
    } else {
        lemma_cycle_descends(adj, order, path, i0, k - 1);
        let j = choose|j: int| 0 <= j < i0 && order[j] == #[trigger] path[k - 1];
        (j, j)
    };
    assert(order[u] == path[k - 1]);
    assert(is_edge(adj, path[k - 1] as int, path[k] as int));
    let kk = choose|kk: int| 0 <= kk < adj[path[k - 1] as int].len() && #[trigger] adj[path[k - 1] as int][kk] == path[k];
    assert(order[u] < adj.len());
    assert(occurs_before(order, u, adj[order[u] as int][kk]));
    let j2 = choose|j2: int| 0 <= j2 < u && #[trigger] order[j2] == adj[order[u] as int][kk];
    assert(order[j2] == path[k]);
}

/// A graph with a topological order has no cycle through its nodes.
pub proof fn lemma_topological_acyclic(adj: Seq<Seq<usize>>, order: Seq<usize>, path: Seq<usize>)
    requires
        is_topological(adj, order),
        path.len() > 0,
        order.contains(path[0]),
    ensures
        !is_cycle(adj, path),
{
    if is_cycle(adj, path) {
        let i0 = choose|i0: int| 0 <= i0 < order.len() && order[i0] == path[0];
        lemma_cycle_descends(adj, order, path, i0, path.len() - 1);
        let j = choose|j: int| 0 <= j < i0 && order[j] == #[trigger] path[path.len() - 1];
        assert(order[j] == order[i0]);
    }
}

} // verus!
