//! Reachability in small directed graphs given as adjacency lists.
use vstd::prelude::*;

verus! {

/// Adjacency lists as sequences.
pub open spec fn adj_view(adj: &Vec<Vec<u32>>) -> Seq<Seq<u32>> {
    Seq::new(adj@.len(), |i: int| adj@[i]@)
}

/// Every target of an edge is a node.
pub open spec fn adj_ok(g: Seq<Seq<u32>>) -> bool {
    forall|u: int, k: int| 0 <= u < g.len() && 0 <= k < g[u].len() ==> (#[trigger] g[u][k]) < g.len()
}

/// There is an edge `u -> v`.
pub open spec fn step(g: Seq<Seq<u32>>, u: int, v: int) -> bool {
    0 <= u < g.len() && 0 <= v <= 0xFFFF_FFFF && g[u].contains(v as u32)
}

/// Step `i` of `p` is an edge.
pub open spec fn edge_at(g: Seq<Seq<u32>>, p: Seq<int>, i: int) -> bool {
    step(g, p[i], p[i + 1])
}

/// `p` is a path: at least one node, each consecutive pair an edge.
pub open spec fn is_path(g: Seq<Seq<u32>>, p: Seq<int>) -> bool {
    p.len() >= 1 && forall|i: int| 0 <= i < p.len() - 1 ==> #[trigger] edge_at(g, p, i)
}

/// `v` is reachable from `u` (every node reaches itself).
pub open spec fn reach(g: Seq<Seq<u32>>, u: int, v: int) -> bool {
    exists|p: Seq<int>| #[trigger] is_path(g, p) && p[0] == u && p.last() == v
}

/// `u` and `v` reach each other (they lie in one strongly connected part).
pub open spec fn mutual(g: Seq<Seq<u32>>, u: int, v: int) -> bool {
    reach(g, u, v) && reach(g, v, u)
}

/// `r` has the edges of `g` reversed.
pub open spec fn reversed(g: Seq<Seq<u32>>, r: Seq<Seq<u32>>) -> bool {
    &&& r.len() == g.len()
    &&& forall|u: int, v: int| 0 <= u < g.len() && 0 <= v < g.len() ==> (#[trigger] step(r, u, v) <==> step(g, v, u))
}

pub proof fn lemma_reach_self(g: Seq<Seq<u32>>, u: int)
    ensures
        reach(g, u, u),
{
    let p = seq![u];
    assert(is_path(g, p));
}

pub proof fn lemma_reach_step(g: Seq<Seq<u32>>, u: int, w: int, v: int)
    requires
        reach(g, u, w),
        step(g, w, v),
    ensures
        reach(g, u, v),
{
    let p = choose|p: Seq<int>| #[trigger] is_path(g, p) && p[0] == u && p.last() == w;
    let q = p.push(v);
    assert forall|i: int| 0 <= i < q.len() - 1 implies #[trigger] edge_at(g, q, i) by {
        if i < p.len() - 1 {
            assert(edge_at(g, p, i));
        }
    }
    assert(is_path(g, q));
}

/// Reachability is transitive.
pub proof fn lemma_reach_trans(g: Seq<Seq<u32>>, u: int, w: int, v: int)
    requires
        reach(g, u, w),
        reach(g, w, v),
    ensures
        reach(g, u, v),
{
    let p = choose|p: Seq<int>| #[trigger] is_path(g, p) && p[0] == u && p.last() == w;
    let q = choose|q: Seq<int>| #[trigger] is_path(g, q) && q[0] == w && q.last() == v;
    let r = p + q.drop_first();
    assert forall|i: int| 0 <= i < r.len() - 1 implies #[trigger] edge_at(g, r, i) by {
        if i < p.len() - 1 {
            assert(edge_at(g, p, i));
        } else {
            let j = i - (p.len() - 1);
            assert(edge_at(g, q, j));
            if j == 0 {
                assert(r[i] == p.last());
            } else {
                assert(r[i] == q[j]);
            }
            assert(r[i + 1] == q[j + 1]);
        }
    }
    assert(is_path(g, r));
    if q.len() == 1 {
        assert(r =~= p);
    } else {
        assert(r.last() == q.last());
    }
}

/// Nodes on a path of a graph whose edges stay among its nodes.
proof fn lemma_path_nodes(g: Seq<Seq<u32>>, p: Seq<int>)
    requires
        adj_ok(g),
        is_path(g, p),
        0 <= p[0] < g.len(),
    ensures
        forall|i: int| 0 <= i < p.len() ==> 0 <= #[trigger] p[i] < g.len(),
{
    assert forall|i: int| 0 <= i < p.len() implies 0 <= #[trigger] p[i] < g.len() by {
        if i > 0 {
            assert(edge_at(g, p, i - 1));
            let a = p[i - 1];
            let row = g[a];
            assert(row.contains(p[i] as u32));
            let j = choose|j: int| 0 <= j < row.len() && #[trigger] row[j] == p[i] as u32;
            assert(g[a][j] < g.len());
        }
    }
}

/// A path read backwards is a path of the reversed graph.
pub proof fn lemma_reverse(g: Seq<Seq<u32>>, r: Seq<Seq<u32>>, u: int, v: int)
    requires
        adj_ok(g),
        reversed(g, r),
        0 <= u < g.len(),
        reach(g, u, v),
    ensures
        reach(r, v, u),
{
    let p = choose|p: Seq<int>| #[trigger] is_path(g, p) && p[0] == u && p.last() == v;
    lemma_path_nodes(g, p);
    let q = p.reverse();
    assert forall|i: int| 0 <= i < q.len() - 1 implies #[trigger] edge_at(r, q, i) by {
        let a = p.len() - 2 - i;
        assert(edge_at(g, p, a));
        assert(q[i] == p[a + 1]);
        assert(q[i + 1] == p[a]);
        assert(0 <= p[a] < g.len());
        assert(0 <= p[a + 1] < g.len());
    }
    assert(is_path(r, q));
    assert(q[0] == v);
    assert(q.last() == u);
}

/// A set of nodes that holds `u` and is closed under edges holds every node
/// reachable from `u`.
proof fn lemma_closed(g: Seq<Seq<u32>>, vis: Seq<bool>, u: int, v: int)
    requires
        vis.len() == g.len(),
        0 <= u < g.len(),
        vis[u],
        forall|a: int, b: int| 0 <= a < g.len() && 0 <= b < g.len() && vis[a] && #[trigger] step(g, a, b) ==> vis[b],
        adj_ok(g),
        reach(g, u, v),
    ensures
        0 <= v < g.len() && vis[v],
{
    let p = choose|p: Seq<int>| #[trigger] is_path(g, p) && p[0] == u && p.last() == v;
    lemma_path_nodes(g, p);
    lemma_closed_upto(g, vis, p, p.len() as int - 1);
}

proof fn lemma_closed_upto(g: Seq<Seq<u32>>, vis: Seq<bool>, p: Seq<int>, i: int)
    requires
        vis.len() == g.len(),
        is_path(g, p),
        0 <= i < p.len(),
        vis[p[0]],
        forall|j: int| 0 <= j < p.len() ==> 0 <= #[trigger] p[j] < g.len(),
        forall|a: int, b: int| 0 <= a < g.len() && 0 <= b < g.len() && vis[a] && #[trigger] step(g, a, b) ==> vis[b],
    ensures
        vis[p[i]],
    decreases i,
{
    if i > 0 {
        lemma_closed_upto(g, vis, p, i - 1);
        assert(edge_at(g, p, i - 1));
        assert(0 <= p[i] < g.len());
        assert(0 <= p[i - 1] < g.len());
    }
}

/// The nodes reachable from `u`.
pub fn reachable_from(adj: &Vec<Vec<u32>>, u: usize) -> (vis: Vec<bool>)
    requires
        adj_ok(adj_view(adj)),
        u < adj@.len(),
        adj@.len() <= 0xFFFF_FFFF,
    ensures
        vis@.len() == adj@.len(),
        forall|v: int| 0 <= v < adj@.len() ==> (#[trigger] vis@[v] <==> reach(adj_view(adj), u as int, v)),
{
    let ghost g = adj_view(adj);
    let n = adj.len();
    let mut vis: Vec<bool> = Vec::new();
    let mut i: usize = 0;
    while i < n
        invariant
            i <= n,
            vis@.len() == i,
            forall|j: int| 0 <= j < i ==> !#[trigger] vis@[j],
        decreases n - i,
    {
        vis.push(false);
        i = i + 1;
    }
    let mut queue: Vec<u32> = Vec::new();
    proof {
        lemma_count_false_all(vis@);
        lemma_count_false_set(vis@, u as int);
    }
    vis.set(u, true);
    queue.push(u as u32);
    proof {
        lemma_reach_self(g, u as int);
        assert(queue@[0] == u as u32);
        assert forall|v: int| 0 <= v < n && #[trigger] vis@[v] implies queue@.contains(v as u32) && reach(g, u as int, v) by {
            assert(v == u);
            assert(queue@[0] == v as u32);
        }
    }
    let mut head: usize = 0;
    while head < queue.len()
        invariant
            g == adj_view(adj),
            n == adj@.len(),
            n == g.len(),
            n <= 0xFFFF_FFFF,
            adj_ok(g),
            u < n,
            vis@.len() == n,
            vis@[u as int],
            head <= queue@.len(),
            queue@.len() <= n,
            forall|j: int| 0 <= j < queue@.len() ==> (#[trigger] queue@[j]) < n && vis@[queue@[j] as int],
            queue@.len() + count_false(vis@) == n,
            forall|v: int| 0 <= v < n && #[trigger] vis@[v] ==> queue@.contains(v as u32) && reach(g, u as int, v),
            forall|j: int, b: int|
                0 <= j < head && 0 <= b < n && #[trigger] step(g, queue@[j] as int, b) ==> vis@[b],
        decreases count_false(vis@), queue@.len() - head,
    {
        let w = queue[head] as usize;
        let ghost q0 = queue@;
        let ghost vis_h = vis@;
        let m = adj[w].len();
        let mut k: usize = 0;
        while k < m
            invariant
                g == adj_view(adj),
                n == adj@.len(),
                n == g.len(),
                n <= 0xFFFF_FFFF,
                adj_ok(g),
                u < n,
                w < n,
                m == g[w as int].len(),
                head < q0.len(),
                q0[head as int] == w,
                vis@.len() == n,
                vis@[u as int],
                reach(g, u as int, w as int),
                k <= m,
                queue@.len() <= n,
                q0.len() <= queue@.len(),
                forall|j: int| 0 <= j < q0.len() ==> #[trigger] queue@[j] == q0[j],
                forall|j: int| 0 <= j < queue@.len() ==> (#[trigger] queue@[j]) < n && vis@[queue@[j] as int],
                queue@.len() + count_false(vis@) == n,
                count_false(vis@) <= count_false(vis_h),
                queue@.len() > q0.len() ==> count_false(vis@) < count_false(vis_h),
                queue@.len() == q0.len() ==> vis@ == vis_h,
                forall|v: int| 0 <= v < n && #[trigger] vis@[v] ==> queue@.contains(v as u32) && reach(g, u as int, v),
                forall|j: int, b: int|
                    0 <= j < head && 0 <= b < n && #[trigger] step(g, queue@[j] as int, b) ==> vis@[b],
                forall|k2: int| 0 <= k2 < k ==> vis@[#[trigger] g[w as int][k2] as int],
            decreases m - k,
        {
            let x = adj[w][k] as usize;
            proof {
                assert(g[w as int][k as int] == x);
                assert(x < n);
            }
            if !vis[x] {
                let ghost qb = queue@;
                let ghost vis0 = vis@;
                vis.set(x, true);
                proof {
                    assert(step(g, w as int, x as int)) by {
                        assert(g[w as int][k as int] == x as u32);
                    }
                    lemma_reach_step(g, u as int, w as int, x as int);
                    lemma_count_false_set(vis0, x as int);
                    lemma_count_false_le(vis@);
                }
                queue.push(x as u32);
                proof {
                    assert forall|v: int| 0 <= v < n && #[trigger] vis@[v] implies queue@.contains(v as u32) && reach(g, u as int, v) by {
                        if v == x as int {
                            assert(queue@[queue@.len() - 1] == x as u32);
                            lemma_reach_step(g, u as int, w as int, x as int);
                        } else {
                            assert(qb.contains(v as u32));
                            let j = choose|j: int| 0 <= j < qb.len() && qb[j] == v as u32;
                            assert(queue@[j] == v as u32);
                        }
                    }
                }
            }
            k = k + 1;
        }
        proof {
            assert forall|j: int, b: int|
                0 <= j < head + 1 && 0 <= b < n && #[trigger] step(g, queue@[j] as int, b) implies vis@[b] by {
                if j == head {
                    assert(queue@[j] == w);
                    let k2 = choose|k2: int| 0 <= k2 < g[w as int].len() && g[w as int][k2] == b as u32;
                }
            }
        }
        head = head + 1;
    }
    proof {
        assert forall|v: int| 0 <= v < n implies (#[trigger] vis@[v] <==> reach(g, u as int, v)) by {
            if reach(g, u as int, v) {
                assert forall|a: int, b: int| 0 <= a < g.len() && 0 <= b < g.len() && vis@[a] && #[trigger] step(g, a, b) implies vis@[b] by {
                    assert(queue@.contains(a as u32));
                    let j = choose|j: int| 0 <= j < queue@.len() && queue@[j] == a as u32;
                }
                lemma_closed(g, vis@, u as int, v);
            }
        }
    }
    vis
}

/// Number of `false` entries.
pub open spec fn count_false(s: Seq<bool>) -> nat
    decreases s.len(),
{
    if s.len() == 0 {
        0
    } else {
        count_false(s.drop_last()) + if s.last() { 0nat } else { 1nat }
    }
}

pub proof fn lemma_count_false_set(s: Seq<bool>, x: int)
    requires
        0 <= x < s.len(),
        !s[x],
    ensures
        count_false(s.update(x, true)) + 1 == count_false(s),
    decreases s.len(),
{
    let t = s.update(x, true);
    if x < s.len() - 1 {
        assert(t.drop_last() =~= s.drop_last().update(x, true));
        lemma_count_false_set(s.drop_last(), x);
    } else {
        assert(t.drop_last() =~= s.drop_last());
    }
}

proof fn lemma_count_false_le(s: Seq<bool>)
    ensures
        count_false(s) <= s.len(),
    decreases s.len(),
{
    if s.len() > 0 {
        lemma_count_false_le(s.drop_last());
    }
}

proof fn lemma_count_false_all(s: Seq<bool>)
    requires
        forall|j: int| 0 <= j < s.len() ==> !s[j],
    ensures
        count_false(s) == s.len(),
    decreases s.len(),
{
    if s.len() > 0 {
        lemma_count_false_all(s.drop_last());
    }
}

} // verus!
