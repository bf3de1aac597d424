use vstd::prelude::*;

verus! {

// A graph here has the nodes 0 .. n, listed in scan order, and a relation
// `edge` between them. A clustering groups the nodes the way a flood fill
// does: the k-th cluster starts at the first node that no earlier cluster
// holds, grows along edges, and stops when every edge out of it leads into it
// or into an earlier cluster.

/// `v` lies in one of the first `m` clusters.
pub open spec fn in_first(cl: Seq<Seq<usize>>, m: int, v: usize) -> bool {
    exists|j: int| 0 <= j < m && #[trigger] cl[j].contains(v)
}

/// Member `i` of `c` is reached by an edge from an earlier member.
pub open spec fn reached(edge: spec_fn(usize, usize) -> bool, c: Seq<usize>, i: int) -> bool {
    exists|p: int| 0 <= p < i && #[trigger] edge(c[p], c[i])
}

pub open spec fn valid_clustering(
    n: int,
    edge: spec_fn(usize, usize) -> bool,
    cl: Seq<Seq<usize>>,
) -> bool {
    &&& forall|k: int, i: int| 0 <= k < cl.len() && 0 <= i < cl[k].len() ==> #[trigger] cl[k][i] < n
    &&& forall|k: int| 0 <= k < cl.len() ==> #[trigger] cl[k].len() > 0
    // every node is in a cluster
    &&& forall|v: usize| v < n ==> #[trigger] in_first(cl, cl.len() as int, v)
    // no node is in two clusters
    &&& forall|k: int, v: usize| 0 <= k < cl.len() && #[trigger] cl[k].contains(v) ==> !in_first(cl, k, v)
    // a cluster starts at the first node that earlier clusters left out
    &&& forall|k: int, v: usize| 0 <= k < cl.len() && v < cl[k][0] ==> #[trigger] in_first(cl, k, v)
    // each further member is reached by an edge from an earlier member
    &&& forall|k: int, i: int|
        0 <= k < cl.len() && 1 <= i < cl[k].len() ==> #[trigger] reached(edge, cl[k], i)
    // edges out of a cluster lead into it or into an earlier one
    &&& forall|k: int, i: int, v: usize|
        0 <= k < cl.len() && 0 <= i < cl[k].len() && v < n && #[trigger] edge(cl[k][i], v)
            ==> in_first(cl, k + 1, v)
}

/// The number of clusters of the graph.
pub open spec fn cluster_count(n: int, edge: spec_fn(usize, usize) -> bool) -> nat {
    (choose|cl: Seq<Seq<usize>>| valid_clustering(n, edge, cl)).len()
}

proof fn lemma_in_first_agree(p: Seq<Seq<usize>>, q: Seq<Seq<usize>>, k: int, v: usize)
    requires
        0 <= k <= p.len(),
        k <= q.len(),
        forall|j: int, w: usize| 0 <= j < k ==> (#[trigger] p[j].contains(w) <==> q[j].contains(w)),
    ensures
        in_first(p, k, v) <==> in_first(q, k, v),
{
    if in_first(p, k, v) {
        let j = choose|j: int| 0 <= j < k && #[trigger] p[j].contains(v);
        assert(q[j].contains(v));
    }
    if in_first(q, k, v) {
        let j = choose|j: int| 0 <= j < k && #[trigger] q[j].contains(v);
        assert(p[j].contains(v));
    }
}

proof fn lemma_member_in_other(
    n: int,
    edge: spec_fn(usize, usize) -> bool,
    p: Seq<Seq<usize>>,
    q: Seq<Seq<usize>>,
    k: int,
    i: int,
)
    requires
        valid_clustering(n, edge, p),
        valid_clustering(n, edge, q),
        0 <= k < p.len(),
        k < q.len(),
        0 <= i < p[k].len(),
        p[k][0] == q[k][0],
        forall|j: int, w: usize| 0 <= j < k ==> (#[trigger] p[j].contains(w) <==> q[j].contains(w)),
    ensures
        q[k].contains(p[k][i]),
    decreases i,
{
    if i == 0 {
        assert(q[k][0] == p[k][0]);
    } else {
        assert(reached(edge, p[k], i));
        let par = choose|par: int| 0 <= par < i && #[trigger] edge(p[k][par], p[k][i]);
        lemma_member_in_other(n, edge, p, q, k, par);
        let ii = choose|ii: int| 0 <= ii < q[k].len() && q[k][ii] == p[k][par];
        let v = p[k][i];
        assert(edge(q[k][ii], v));
        assert(in_first(q, k + 1, v));
        let j = choose|j: int| 0 <= j < k + 1 && #[trigger] q[j].contains(v);
        if j < k {
            assert(p[j].contains(v));
            assert(in_first(p, k, v));
            assert(p[k].contains(v));
        }
    }
}

proof fn lemma_cluster_agrees(
    n: int,
    edge: spec_fn(usize, usize) -> bool,
    p: Seq<Seq<usize>>,
    q: Seq<Seq<usize>>,
    k: int,
)
    requires
        valid_clustering(n, edge, p),
        valid_clustering(n, edge, q),
        0 <= k < p.len(),
        k < q.len(),
        forall|j: int, w: usize| 0 <= j < k ==> (#[trigger] p[j].contains(w) <==> q[j].contains(w)),
    ensures
        forall|w: usize| #[trigger] p[k].contains(w) <==> q[k].contains(w),
{
    let a = p[k][0];
    let b = q[k][0];
    assert(p[k].contains(a));
    assert(q[k].contains(b));
    if a < b {
        assert(in_first(q, k, a));
        lemma_in_first_agree(p, q, k, a);
    } else if b < a {
        assert(in_first(p, k, b));
        lemma_in_first_agree(p, q, k, b);
    }
    assert forall|w: usize| #[trigger] p[k].contains(w) implies q[k].contains(w) by {
        let i = choose|i: int| 0 <= i < p[k].len() && p[k][i] == w;
        lemma_member_in_other(n, edge, p, q, k, i);
    }
    assert forall|w: usize| #[trigger] q[k].contains(w) implies p[k].contains(w) by {
        let i = choose|i: int| 0 <= i < q[k].len() && q[k][i] == w;
        lemma_member_in_other(n, edge, q, p, k, i);
    }
}

proof fn lemma_prefix_agrees(
    n: int,
    edge: spec_fn(usize, usize) -> bool,
    p: Seq<Seq<usize>>,
    q: Seq<Seq<usize>>,
    m: int,
)
    requires
        valid_clustering(n, edge, p),
        valid_clustering(n, edge, q),
        0 <= m <= p.len(),
        m <= q.len(),
    ensures
        forall|j: int, w: usize| 0 <= j < m ==> (#[trigger] p[j].contains(w) <==> q[j].contains(w)),
    decreases m,
{
    if m > 0 {
        lemma_prefix_agrees(n, edge, p, q, m - 1);
        lemma_cluster_agrees(n, edge, p, q, m - 1);
    }
}

/// Any two clusterings of one graph have as many clusters.
pub proof fn lemma_clustering_unique(
    n: int,
    edge: spec_fn(usize, usize) -> bool,
    p: Seq<Seq<usize>>,
    q: Seq<Seq<usize>>,
)
    requires
        valid_clustering(n, edge, p),
        valid_clustering(n, edge, q),
    ensures
        p.len() == q.len(),
{
    if p.len() > q.len() {
        lemma_prefix_agrees(n, edge, p, q, q.len() as int);
        let v = p[q.len() as int][0];
        assert(in_first(q, q.len() as int, v));
        lemma_in_first_agree(p, q, q.len() as int, v);
        assert(p[q.len() as int].contains(v));
    } else if q.len() > p.len() {
        lemma_prefix_agrees(n, edge, q, p, p.len() as int);
        let v = q[p.len() as int][0];
        assert(in_first(p, p.len() as int, v));
        lemma_in_first_agree(q, p, p.len() as int, v);
        assert(q[p.len() as int].contains(v));
    }
}

/// Whatever clustering is at hand, `cluster_count` is its number of clusters.
pub proof fn lemma_cluster_count(n: int, edge: spec_fn(usize, usize) -> bool, cl: Seq<Seq<usize>>)
    requires
        valid_clustering(n, edge, cl),
    ensures
        cluster_count(n, edge) == cl.len(),
{
    let other = choose|c: Seq<Seq<usize>>| valid_clustering(n, edge, c);
    lemma_clustering_unique(n, edge, cl, other);
}

/// `path` walks along edges through nodes of the graph.
pub open spec fn is_path(n: int, edge: spec_fn(usize, usize) -> bool, path: Seq<usize>) -> bool {
    &&& path.len() >= 1
    &&& forall|i: int| 0 <= i < path.len() ==> #[trigger] path[i] < n
    &&& forall|i: int| 0 <= i < path.len() - 1 ==> #[trigger] edge(path[i], path[i + 1])
}

pub open spec fn connected(n: int, edge: spec_fn(usize, usize) -> bool, u: usize, v: usize) -> bool {
    exists|path: Seq<usize>| #[trigger]
        is_path(n, edge, path) && path[0] == u && path.last() == v
}

pub open spec fn all_connected(n: int, edge: spec_fn(usize, usize) -> bool) -> bool {
    forall|u: usize, v: usize| u < n && v < n ==> #[trigger] connected(n, edge, u, v)
}

pub open spec fn symmetric(n: int, edge: spec_fn(usize, usize) -> bool) -> bool {
    forall|u: usize, v: usize| u < n && v < n && #[trigger] edge(u, v) ==> edge(v, u)
}

proof fn lemma_path_to_member(
    n: int,
    edge: spec_fn(usize, usize) -> bool,
    cl: Seq<Seq<usize>>,
    k: int,
    i: int,
)
    requires
        valid_clustering(n, edge, cl),
        0 <= k < cl.len(),
        0 <= i < cl[k].len(),
    ensures
        connected(n, edge, cl[k][0], cl[k][i]),
    decreases i,
{
    if i == 0 {
        let path = seq![cl[k][0]];
        assert(is_path(n, edge, path));
    } else {
        assert(reached(edge, cl[k], i));
        let par = choose|par: int| 0 <= par < i && #[trigger] edge(cl[k][par], cl[k][i]);
        lemma_path_to_member(n, edge, cl, k, par);
        let path = choose|path: Seq<usize>| #[trigger]
            is_path(n, edge, path) && path[0] == cl[k][0] && path.last() == cl[k][par];
        let longer = path.push(cl[k][i]);
        assert forall|j: int| 0 <= j < longer.len() - 1 implies #[trigger] edge(
            longer[j],
            longer[j + 1],
        ) by {
            if j < path.len() - 1 {
                assert(longer[j] == path[j] && longer[j + 1] == path[j + 1]);
            }
        }
        assert(is_path(n, edge, longer));
    }
}

proof fn lemma_reverse_path(n: int, edge: spec_fn(usize, usize) -> bool, u: usize, v: usize)
    requires
        symmetric(n, edge),
        connected(n, edge, u, v),
    ensures
        connected(n, edge, v, u),
{
    let path = choose|path: Seq<usize>| #[trigger]
        is_path(n, edge, path) && path[0] == u && path.last() == v;
    let rev = path.reverse();
    assert forall|j: int| 0 <= j < rev.len() - 1 implies #[trigger] edge(rev[j], rev[j + 1]) by {
        let a = path.len() - 2 - j;
        assert(edge(path[a], path[a + 1]));
        assert(path[a] < n && path[a + 1] < n);
    }
    assert(is_path(n, edge, rev));
}

proof fn lemma_join_paths(n: int, edge: spec_fn(usize, usize) -> bool, u: usize, w: usize, v: usize)
    requires
        connected(n, edge, u, w),
        connected(n, edge, w, v),
    ensures
        connected(n, edge, u, v),
{
    let first_leg = choose|path: Seq<usize>| #[trigger]
        is_path(n, edge, path) && path[0] == u && path.last() == w;
    let second_leg = choose|path: Seq<usize>| #[trigger]
        is_path(n, edge, path) && path[0] == w && path.last() == v;
    let joined = first_leg + second_leg.drop_first();
    assert forall|j: int| 0 <= j < joined.len() - 1 implies #[trigger] edge(
        joined[j],
        joined[j + 1],
    ) by {
        if j < first_leg.len() - 1 {
            assert(joined[j] == first_leg[j] && joined[j + 1] == first_leg[j + 1]);
        } else if j == first_leg.len() - 1 {
            assert(joined[j] == second_leg[0] && joined[j + 1] == second_leg[1]);
        } else {
            let t = j - first_leg.len() + 1;
            assert(joined[j] == second_leg[t] && joined[j + 1] == second_leg[t + 1]);
        }
    }
    assert forall|j: int| 0 <= j < joined.len() implies #[trigger] joined[j] < n by {
        if j < first_leg.len() {
            assert(joined[j] == first_leg[j]);
        } else {
            assert(joined[j] == second_leg[j - first_leg.len() + 1]);
        }
    }
    assert(is_path(n, edge, joined));
    if second_leg.len() == 1 {
        assert(joined.last() == first_leg.last());
    } else {
        assert(joined.last() == second_leg.last());
    }
}

proof fn lemma_path_stays_in_first(
    n: int,
    edge: spec_fn(usize, usize) -> bool,
    cl: Seq<Seq<usize>>,
    path: Seq<usize>,
    i: int,
)
    requires
        valid_clustering(n, edge, cl),
        cl.len() >= 1,
        is_path(n, edge, path),
        cl[0].contains(path[0]),
        0 <= i < path.len(),
    ensures
        cl[0].contains(path[i]),
    decreases i,
{
    if i > 0 {
        lemma_path_stays_in_first(n, edge, cl, path, i - 1);
        let a = choose|a: int| 0 <= a < cl[0].len() && cl[0][a] == path[i - 1];
        assert(edge(path[i - 1], path[(i - 1) + 1]));
        assert(edge(cl[0][a], path[i]));
        assert(in_first(cl, 1, path[i]));
    }
}

/// Over edges that go both ways, a graph with nodes falls into a single
/// cluster exactly when every node is connected to every other node.
pub proof fn lemma_one_cluster_iff_connected(
    n: int,
    edge: spec_fn(usize, usize) -> bool,
    cl: Seq<Seq<usize>>,
)
    requires
        valid_clustering(n, edge, cl),
        symmetric(n, edge),
        n >= 1,
    ensures
        cl.len() == 1 <==> all_connected(n, edge),
{
    assert(in_first(cl, cl.len() as int, 0));
    if cl.len() == 1 {
        assert forall|u: usize, v: usize| u < n && v < n implies #[trigger] connected(
            n,
            edge,
            u,
            v,
        ) by {
            assert(in_first(cl, 1, u));
            assert(in_first(cl, 1, v));
            let iu = choose|i: int| 0 <= i < cl[0].len() && cl[0][i] == u;
            let iv = choose|i: int| 0 <= i < cl[0].len() && cl[0][i] == v;
            lemma_path_to_member(n, edge, cl, 0, iu);
            lemma_path_to_member(n, edge, cl, 0, iv);
            lemma_reverse_path(n, edge, cl[0][0], u);
            lemma_join_paths(n, edge, u, cl[0][0], v);
        }
    }
    if all_connected(n, edge) && cl.len() != 1 {
        let a = cl[0][0];
        let b = cl[1][0];
        assert(connected(n, edge, a, b));
        let path = choose|path: Seq<usize>| #[trigger]
            is_path(n, edge, path) && path[0] == a && path.last() == b;
        assert(cl[0].contains(a));
        lemma_path_stays_in_first(n, edge, cl, path, path.len() - 1);
        assert(cl[1].contains(b));
        assert(in_first(cl, 1, b));
    }
}

/// Number of nodes not yet visited.
spec fn unvisited(vis: Seq<bool>) -> nat
    decreases vis.len(),
{
    if vis.len() == 0 {
        0
    } else {
        unvisited(vis.drop_last()) + if vis.last() {
            0nat
        } else {
            1nat
        }
    }
}

proof fn lemma_visit_one(vis: Seq<bool>, i: int)
    requires
        0 <= i < vis.len(),
        !vis[i],
    ensures
        unvisited(vis.update(i, true)) + 1 == unvisited(vis),
    decreases vis.len(),
{
    let upd = vis.update(i, true);
    if i == vis.len() - 1 {
        assert(upd.drop_last() =~= vis.drop_last());
    } else {
        assert(upd.drop_last() =~= vis.drop_last().update(i, true));
        lemma_visit_one(vis.drop_last(), i);
    }
}

/// A node is marked exactly when an earlier cluster or the growing one holds it.
spec fn marked_right(vis: Seq<bool>, g: Seq<Seq<usize>>, m: int, members: Seq<usize>, v: usize) -> bool {
    vis[v as int] <==> (in_first(g, m, v) || members.contains(v))
}

pub open spec fn vec_views(v: Seq<Vec<usize>>) -> Seq<Seq<usize>> {
    v.map_values(|c: Vec<usize>| c@)
}

/// Clusters of the graph whose edges out of node `i` are listed in `adj[i]`,
/// found by a breadth-first flood fill that marks a node before queueing it.
pub fn flood_clusters(adj: &Vec<Vec<usize>>, Ghost(edge): Ghost<spec_fn(usize, usize) -> bool>) -> (cl:
    Vec<Vec<usize>>)
    requires
        forall|i: int, t: int| 0 <= i < adj@.len() && 0 <= t < adj@[i]@.len() ==> #[trigger] adj@[i]@[t] < adj@.len(),
        forall|u: usize, v: usize|
            u < adj@.len() && v < adj@.len() ==> (#[trigger] edge(u, v) <==> adj@[u as int]@.contains(v)),
    ensures
        valid_clustering(adj@.len() as int, edge, vec_views(cl@)),
{
    let n = adj.len();
    let ghost ni = n as int;
    let mut visited: Vec<bool> = Vec::new();
    for i in 0..n
        invariant
            visited@.len() == i,
            forall|j: int| 0 <= j < i ==> !visited@[j],
    {
        visited.push(false);
    }
    let mut cl: Vec<Vec<usize>> = Vec::new();
    for s in 0..n
        invariant
            n == adj@.len(),
            ni == n,
            forall|i: int, t: int| 0 <= i < adj@.len() && 0 <= t < adj@[i]@.len() ==> #[trigger] adj@[i]@[t] < adj@.len(),
            forall|u: usize, v: usize|
                u < adj@.len() && v < adj@.len() ==> (#[trigger] edge(u, v) <==> adj@[u as int]@.contains(v)),
            visited@.len() == n,
            forall|v: usize| v < n ==> (visited@[v as int] <==> #[trigger] in_first(vec_views(cl@), cl@.len() as int, v)),
            forall|v: usize| v < s ==> visited@[v as int],
            ({
                let g = vec_views(cl@);
                &&& forall|k: int, i: int| 0 <= k < g.len() && 0 <= i < g[k].len() ==> #[trigger] g[k][i] < ni
                &&& forall|k: int| 0 <= k < g.len() ==> #[trigger] g[k].len() > 0
                &&& forall|k: int, v: usize| 0 <= k < g.len() && #[trigger] g[k].contains(v) ==> !in_first(g, k, v)
                &&& forall|k: int, v: usize| 0 <= k < g.len() && v < g[k][0] ==> #[trigger] in_first(g, k, v)
                &&& forall|k: int, i: int|
                    0 <= k < g.len() && 1 <= i < g[k].len() ==> #[trigger] reached(edge, g[k], i)
                &&& forall|k: int, i: int, v: usize|
                    0 <= k < g.len() && 0 <= i < g[k].len() && v < ni && #[trigger] edge(g[k][i], v)
                        ==> in_first(g, k + 1, v)
            }),
    {
        if !visited[s] {
            let ghost g = vec_views(cl@);
            let ghost m = cl@.len() as int;
            proof {
                lemma_visit_one(visited@, s as int);
            }
            visited.set(s, true);
            let mut members: Vec<usize> = Vec::new();
            members.push(s);
            proof {
                assert(members@ =~= seq![s]);
                assert(members@[0] == s);
                assert(members@.contains(s));
                assert forall|v: usize| v < n implies #[trigger] marked_right(visited@, g, m, members@, v) by {
                    assert(visited@[v as int] <==> in_first(g, m, v) || v == s);
                }
            }
            let mut head: usize = 0;
            while head < members.len()
                invariant
                    n == adj@.len(),
                    ni == n,
                    g == vec_views(cl@),
                    m == g.len(),
                    forall|i: int, t: int| 0 <= i < adj@.len() && 0 <= t < adj@[i]@.len() ==> #[trigger] adj@[i]@[t] < adj@.len(),
                    forall|u: usize, v: usize|
                        u < adj@.len() && v < adj@.len() ==> (#[trigger] edge(u, v) <==> adj@[u as int]@.contains(v)),
                    visited@.len() == n,
                    head <= members@.len(),
                    members@.len() >= 1,
                    members@[0] == s,
                    s < n,
                    forall|v: usize| v < s ==> #[trigger] in_first(g, m, v),
                    forall|i: int| 0 <= i < members@.len() ==> #[trigger] members@[i] < n,
                    forall|v: usize| v < n ==> #[trigger] marked_right(visited@, g, m, members@, v),
                    forall|v: usize| members@.contains(v) ==> !#[trigger] in_first(g, m, v),
                    forall|i: int|
                        1 <= i < members@.len() ==> #[trigger] reached(edge, members@, i),
                    forall|i: int, v: usize|
                        0 <= i < head && v < n && #[trigger] edge(members@[i], v) ==> visited@[v as int],
                decreases 2 * unvisited(visited@) + members@.len() - head,
            {
                let u = members[head];
                let nb = &adj[u];
                let mut t: usize = 0;
                let ghost start_len = members@.len();
                let ghost start_unv = unvisited(visited@);
                while t < nb.len()
                    invariant
                        n == adj@.len(),
                        ni == n,
                        g == vec_views(cl@),
                        m == g.len(),
                        nb@ == adj@[u as int]@,
                        u == members@[head as int],
                        u < n,
                        forall|i: int, t: int| 0 <= i < adj@.len() && 0 <= t < adj@[i]@.len() ==> #[trigger] adj@[i]@[t] < adj@.len(),
                        forall|u: usize, v: usize|
                            u < adj@.len() && v < adj@.len() ==> (#[trigger] edge(u, v) <==> adj@[u as int]@.contains(v)),
                        visited@.len() == n,
                        head < members@.len(),
                        t <= nb@.len(),
                        members@.len() >= start_len,
                        2 * unvisited(visited@) + members@.len() <= 2 * start_unv + start_len,
                        members@[0] == s,
                        s < n,
                        forall|v: usize| v < s ==> #[trigger] in_first(g, m, v),
                        forall|i: int| 0 <= i < members@.len() ==> #[trigger] members@[i] < n,
                        forall|v: usize| v < n ==> #[trigger] marked_right(visited@, g, m, members@, v),
                        forall|v: usize| members@.contains(v) ==> !#[trigger] in_first(g, m, v),
                        forall|i: int|
                            1 <= i < members@.len() ==> #[trigger] reached(edge, members@, i),
                        forall|i: int, v: usize|
                            0 <= i < head && v < n && #[trigger] edge(members@[i], v) ==> visited@[v as int],
                        forall|j: int| 0 <= j < t ==> visited@[#[trigger] nb@[j] as int],
                    decreases nb@.len() - t,
                {
                    let v = nb[t];
                    assert(adj@[u as int]@[t as int] < adj@.len());
                    if !visited[v] {
                        proof {
                            lemma_visit_one(visited@, v as int);
                        }
                        let ghost old_vis = visited@;
                        visited.set(v, true);
                        let ghost before = members@;
                        members.push(v);
                        proof {
                            assert(members@[before.len() as int] == v);
                            assert(members@.contains(v));
                            assert(adj@[u as int]@.contains(v));
                            assert(edge(members@[head as int], v));
                            assert forall|i: int|
                                1 <= i < members@.len() implies #[trigger] reached(edge, members@, i) by {
                                if i < before.len() {
                                    assert(members@[i] == before[i]);
                                    assert(reached(edge, before, i));
                                    let p = choose|p: int| 0 <= p < i && #[trigger] edge(before[p], before[i]);
                                    assert(members@[p] == before[p]);
                                    assert(edge(members@[p], members@[i]));
                                } else {
                                    assert(edge(members@[head as int], members@[i]));
                                    assert(head < i);
                                }
                            }
                            assert forall|w: usize| w < n implies #[trigger] marked_right(visited@, g, m, members@, w) by {
                                assert(marked_right(old_vis, g, m, before, w));
                                if w != v {
                                    assert(visited@[w as int] == old_vis[w as int]);
                                }
                                if before.contains(w) {
                                    let i = choose|i: int| 0 <= i < before.len() && before[i] == w;
                                    assert(members@[i] == w);
                                }
                                if members@.contains(w) && w != v {
                                    let i = choose|i: int| 0 <= i < members@.len() && members@[i] == w;
                                    assert(before[i] == w);
                                }
                            }
                            assert(marked_right(old_vis, g, m, before, v));
                            assert forall|w: usize| members@.contains(w) implies !#[trigger] in_first(g, m, w) by {
                                if w != v {
                                    let i = choose|i: int| 0 <= i < members@.len() && members@[i] == w;
                                    assert(before[i] == w);
                                }
                            }
                        }
                    }
                    t += 1;
                }
                proof {
                    assert forall|i: int, v: usize|
                        0 <= i < head + 1 && v < n && #[trigger] edge(members@[i], v) implies visited@[v as int] by {
                        if i == head {
                            assert(adj@[u as int]@.contains(v));
                            let j = choose|j: int| 0 <= j < nb@.len() && nb@[j] == v;
                            assert(visited@[nb@[j] as int]);
                        }
                    }
                }
                head += 1;
            }
            let ghost mem = members@;
            assert forall|v: usize| v < s + 1 implies visited@[v as int] by {
                assert(marked_right(visited@, g, m, mem, v));
                if v < s {
                    assert(in_first(g, m, v));
                } else {
                    assert(mem[0] == s);
                    assert(mem.contains(v));
                }
                assert(in_first(g, m, v) || mem.contains(v));
            }
            cl.push(members);
            proof {
                let g2 = vec_views(cl@);
                assert(g2 =~= g.push(mem));
                assert forall|j: int, w: usize| 0 <= j < m implies (#[trigger] g2[j].contains(w) <==> g[j].contains(w)) by {
                    assert(g2[j] == g[j]);
                }
                assert forall|k: int, w: usize| 0 <= k <= m implies (#[trigger] in_first(g2, k, w) <==> in_first(g, k, w)) by {
                    if in_first(g2, k, w) {
                        let j = choose|j: int| 0 <= j < k && #[trigger] g2[j].contains(w);
                        assert(g[j].contains(w));
                    }
                    if in_first(g, k, w) {
                        let j = choose|j: int| 0 <= j < k && #[trigger] g[j].contains(w);
                        assert(g2[j].contains(w));
                    }
                }
                assert forall|w: usize| w < n implies (visited@[w as int] <==> #[trigger] in_first(g2, g2.len() as int, w)) by {
                    assert(marked_right(visited@, g, m, mem, w));
                    if mem.contains(w) {
                        assert(g2[m].contains(w));
                    }
                    if in_first(g, m, w) {
                        let j = choose|j: int| 0 <= j < m && #[trigger] g[j].contains(w);
                        assert(g2[j].contains(w));
                    }
                    if in_first(g2, m + 1, w) {
                        let j = choose|j: int| 0 <= j < m + 1 && #[trigger] g2[j].contains(w);
                        if j < m {
                            assert(g[j].contains(w));
                        }
                    }
                }
                assert forall|k: int, i: int| 0 <= k < g2.len() && 0 <= i < g2[k].len() implies #[trigger] g2[k][i] < ni by {
                    if k < m {
                        assert(g2[k] == g[k]);
                    }
                }
                assert forall|k: int, v: usize| 0 <= k < g2.len() && #[trigger] g2[k].contains(v) implies !in_first(g2, k, v) by {
                    if k < m {
                        assert(g[k].contains(v));
                    }
                }
                assert forall|k: int, v: usize| 0 <= k < g2.len() && v < g2[k][0] implies #[trigger] in_first(g2, k, v) by {
                    if k < m {
                        assert(g2[k] == g[k]);
                        assert(in_first(g, k, v));
                    } else {
                        assert(in_first(g, m, v));
                    }
                }
                assert forall|k: int, i: int|
                    0 <= k < g2.len() && 1 <= i < g2[k].len() implies #[trigger] reached(edge, g2[k], i) by {
                    if k < m {
                        assert(g2[k] == g[k]);
                        assert(reached(edge, g[k], i));
                    } else {
                        assert(reached(edge, mem, i));
                    }
                }
                assert forall|k: int, i: int, v: usize|
                    0 <= k < g2.len() && 0 <= i < g2[k].len() && v < ni && #[trigger] edge(g2[k][i], v)
                        implies in_first(g2, k + 1, v) by {
                    if k < m {
                        assert(g2[k] == g[k]);
                        assert(in_first(g, k + 1, v));
                    } else {
                        assert(visited@[v as int]);
                        assert(marked_right(visited@, g, m, mem, v));
                        if mem.contains(v) {
                            assert(g2[m].contains(v));
                        } else {
                            assert(in_first(g, m, v));
                        }
                    }
                }
            }
        }
    }
    cl
}

} // verus!
