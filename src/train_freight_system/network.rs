use vstd::prelude::*;

use crate::util::search::{first_index, lemma_first_index, lemma_first_index_is, lemma_first_index_push};

use super::node::{leads_to, Node};

verus! {

/// A station named `id`.
pub open spec fn node_named(id: Seq<char>) -> spec_fn(Node) -> bool {
    |n: Node| n.id@ == id
}

/// Position of the station named `id`, or -1.
pub open spec fn node_pos(g: Seq<Node>, id: Seq<char>) -> int {
    first_index(g, node_named(id))
}

/// Position, among the edges of station `i`, of the first one that leads to station `j`, or -1.
pub open spec fn edge_pos(g: Seq<Node>, i: int, j: int) -> int {
    first_index(g[i].edges@, leads_to(g[j].id@))
}

/// Stations `i` and `j` are joined by an edge leaving `i`.
pub open spec fn adjacent(g: Seq<Node>, i: int, j: int) -> bool {
    0 <= i < g.len() && 0 <= j < g.len() && edge_pos(g, i, j) >= 0
}

/// Minutes from station `i` to station `j` by the first edge between them; 0 when there is none.
pub open spec fn edge_time(g: Seq<Node>, i: int, j: int) -> nat {
    if adjacent(g, i, j) {
        g[i].edges@[edge_pos(g, i, j)].travel_time.0 as nat
    } else {
        0
    }
}

/// Station names are unique, every edge leads to a registered station, and every connection
/// is stored both ways with one travel time.
pub open spec fn graph_wf(g: Seq<Node>) -> bool {
    &&& forall|i: int, j: int|
        0 <= i < g.len() && 0 <= j < g.len() && i != j ==> #[trigger] g[i].id@ != #[trigger] g[j].id@
    &&& forall|i: int, k: int|
        0 <= i < g.len() && 0 <= k < g[i].edges@.len() ==> node_pos(g, (#[trigger] g[i].edges@[k]).node@) >= 0
    &&& forall|i: int, j: int|
        #![trigger adjacent(g, i, j)]
        0 <= i < g.len() && 0 <= j < g.len() ==> adjacent(g, i, j) == adjacent(g, j, i) && edge_time(g, i, j)
            == edge_time(g, j, i)
}

/// Position of the station an edge leads to.
pub open spec fn nbr(g: Seq<Node>, i: int, k: int) -> int {
    node_pos(g, g[i].edges@[k].node@)
}

/// Total minutes along a route of station positions.
pub open spec fn route_time(g: Seq<Node>, r: Seq<int>) -> nat
    decreases r.len(),
{
    if r.len() < 2 {
        0
    } else {
        route_time(g, r.drop_last()) + edge_time(g, r[r.len() - 2], r.last())
    }
}

/// A sum as held in a `u64` that stops at its largest value.
pub open spec fn saturate(x: int) -> int {
    if x > u64::MAX {
        u64::MAX as int
    } else {
        x
    }
}

/// The simple routes to `dest` that extend `prefix` through the edges of its last station from
/// the `k`-th on, in depth-first order.
pub open spec fn dfs(g: Seq<Node>, prefix: Seq<int>, dest: int, k: int) -> Seq<Seq<int>>
    decreases g.len() - prefix.len(), g[prefix.last()].edges@.len() - k,
{
    if prefix.len() == 0 || prefix.len() >= g.len() || !(0 <= prefix.last() < g.len()) || k < 0 || k
        >= g[prefix.last()].edges@.len() {
        seq![]
    } else {
        let n = nbr(g, prefix.last(), k);
        let here = if n < 0 || prefix.contains(n) {
            seq![]
        } else if n == dest {
            seq![prefix.push(n)]
        } else {
            dfs(g, prefix.push(n), dest, 0)
        };
        here + dfs(g, prefix, dest, k + 1)
    }
}

/// Every simple route from station `a` to station `b`, in the order depth-first search meets them.
pub open spec fn all_routes(g: Seq<Node>, a: int, b: int) -> Seq<Seq<int>> {
    if a == b {
        seq![seq![a]]
    } else {
        dfs(g, seq![a], b, 0)
    }
}

/// Position of the first quickest route among the first `n` of `rs`, or -1.
pub open spec fn best_route_index(g: Seq<Node>, rs: Seq<Seq<int>>, n: int) -> int
    decreases n,
{
    if n <= 0 {
        -1
    } else {
        let b = best_route_index(g, rs, n - 1);
        if b < 0 || saturate(route_time(g, rs[n - 1]) as int) < saturate(route_time(g, rs[b]) as int) {
            n - 1
        } else {
            b
        }
    }
}

/// The quickest simple route from `a` to `b`, the first found among equals; empty when none exists.
pub open spec fn least_time_route(g: Seq<Node>, a: int, b: int) -> Seq<int> {
    let rs = all_routes(g, a, b);
    let i = best_route_index(g, rs, rs.len() as int);
    if i < 0 {
        seq![]
    } else {
        rs[i]
    }
}

/// Station positions as integers.
pub open spec fn route_view(v: Seq<usize>) -> Seq<int> {
    v.map_values(|x: usize| x as int)
}

pub open spec fn routes_view(vs: Seq<Vec<usize>>) -> Seq<Seq<int>> {
    vs.map_values(|v: Vec<usize>| route_view(v@))
}

/// Positions of stations depend on their names alone.
pub proof fn lemma_node_pos_same_names(g: Seq<Node>, h: Seq<Node>, id: Seq<char>)
    requires
        g.len() == h.len(),
        forall|i: int| 0 <= i < g.len() ==> (#[trigger] g[i]).id@ == h[i].id@,
    ensures
        node_pos(g, id) == node_pos(h, id),
{
    lemma_first_index(g, node_named(id));
    assert forall|i: int| 0 <= i < h.len() implies node_named(id)(#[trigger] h[i]) == node_named(id)(g[i]) by {}
    lemma_first_index_is(h, node_named(id), node_pos(g, id));
}

/// With unique names, a station's position is found from its name.
pub proof fn lemma_node_pos_unique(g: Seq<Node>, i: int)
    requires
        graph_wf(g),
        0 <= i < g.len(),
    ensures
        node_pos(g, g[i].id@) == i,
{
    lemma_first_index_is(g, node_named(g[i].id@), i);
}

/// A route whose stations are all registered.
pub open spec fn in_range(g: Seq<Node>, r: Seq<int>) -> bool {
    forall|i: int| 0 <= i < r.len() ==> 0 <= #[trigger] r[i] < g.len()
}

pub proof fn lemma_dfs_in_range(g: Seq<Node>, prefix: Seq<int>, dest: int, k: int)
    requires
        in_range(g, prefix),
    ensures
        forall|m: int| 0 <= m < dfs(g, prefix, dest, k).len() ==> in_range(g, #[trigger] dfs(g, prefix, dest, k)[m]),
    decreases g.len() - prefix.len(), g[prefix.last()].edges@.len() - k,
{
    if prefix.len() == 0 || prefix.len() >= g.len() || !(0 <= prefix.last() < g.len()) || k < 0 || k
        >= g[prefix.last()].edges@.len() {
    } else {
        let n = nbr(g, prefix.last(), k);
        lemma_first_index(g, node_named(g[prefix.last()].edges@[k].node@));
        let rest = dfs(g, prefix, dest, k + 1);
        lemma_dfs_in_range(g, prefix, dest, k + 1);
        let here = if n < 0 || prefix.contains(n) {
            seq![]
        } else if n == dest {
            seq![prefix.push(n)]
        } else {
            dfs(g, prefix.push(n), dest, 0)
        };
        assert(dfs(g, prefix, dest, k) == here + rest);
        if !(n < 0 || prefix.contains(n)) {
            assert(in_range(g, prefix.push(n)));
            if n != dest {
                lemma_dfs_in_range(g, prefix.push(n), dest, 0);
            }
        }
        assert forall|m: int| 0 <= m < (here + rest).len() implies in_range(g, #[trigger] (here + rest)[m]) by {
            if m >= here.len() {
                assert((here + rest)[m] == rest[m - here.len()]);
            } else {
                assert((here + rest)[m] == here[m]);
            }
        }
    }
}

pub proof fn lemma_best_route_index(g: Seq<Node>, rs: Seq<Seq<int>>, n: int)
    requires
        0 <= n <= rs.len(),
    ensures
        -1 <= best_route_index(g, rs, n) < n,
        n > 0 ==> best_route_index(g, rs, n) >= 0,
        best_route_index(g, rs, n) >= 0 ==> forall|j: int|
            0 <= j < n ==> saturate(route_time(g, rs[best_route_index(g, rs, n)]) as int) <= saturate(
                route_time(g, #[trigger] rs[j]) as int,
            ),
    decreases n,
{
    if n > 0 {
        lemma_best_route_index(g, rs, n - 1);
    }
}

/// The routes that the advisor returns run over registered stations.
pub proof fn lemma_least_time_route_in_range(g: Seq<Node>, a: int, b: int)
    requires
        0 <= a < g.len(),
    ensures
        in_range(g, least_time_route(g, a, b)),
{
    let rs = all_routes(g, a, b);
    if a != b {
        assert(in_range(g, seq![a]));
        lemma_dfs_in_range(g, seq![a], b, 0);
    }
    lemma_best_route_index(g, rs, rs.len() as int);
}

/// Registering a station under a new name, with no edges, keeps the network well formed.
pub proof fn lemma_push_node_wf(g: Seq<Node>, x: Node)
    requires
        graph_wf(g),
        node_pos(g, x.id@) < 0,
        x.edges@.len() == 0,
    ensures
        graph_wf(g.push(x)),
{
    let h = g.push(x);
    let name = x.id@;
    assert(h.drop_last() =~= g);
    lemma_first_index(g, node_named(name));
    assert forall|i: int, k: int|
        0 <= i < h.len() && 0 <= k < h[i].edges@.len() implies node_pos(h, (#[trigger] h[i].edges@[k]).node@) >= 0 by {
        assert(i < g.len());
        assert(h[i] == g[i]);
        assert(node_pos(g, g[i].edges@[k].node@) >= 0);
        lemma_first_index_push(g, node_named(h[i].edges@[k].node@), x);
    }
    assert forall|m: int, k: int| 0 <= m < g.len() && 0 <= k < g[m].edges@.len() implies (#[trigger] g[m].edges@[k]).node@
        != name by {
        lemma_first_index(g, node_named(g[m].edges@[k].node@));
    }
    assert forall|i: int, j: int| 0 <= i < h.len() && 0 <= j < h.len() implies adjacent(h, i, j) == adjacent(h, j, i)
        && edge_time(h, i, j) == edge_time(h, j, i) by {
        if i == h.len() - 1 || j == h.len() - 1 {
            if i < h.len() - 1 {
                assert(h[i] == g[i]);
                assert forall|k: int| 0 <= k < h[i].edges@.len() implies !leads_to(h[j].id@)(#[trigger] h[i].edges@[k]) by {
                    assert(h[i].edges@[k] == g[i].edges@[k]);
                }
                lemma_first_index_is(h[i].edges@, leads_to(h[j].id@), -1);
            }
            if j < h.len() - 1 {
                assert(h[j] == g[j]);
                assert forall|k: int| 0 <= k < h[j].edges@.len() implies !leads_to(h[i].id@)(#[trigger] h[j].edges@[k]) by {
                    assert(h[j].edges@[k] == g[j].edges@[k]);
                }
                lemma_first_index_is(h[j].edges@, leads_to(h[i].id@), -1);
            }
            lemma_first_index_is(h.last().edges@, leads_to(h[i].id@), -1);
            lemma_first_index_is(h.last().edges@, leads_to(h[j].id@), -1);
        } else {
            assert(h[i] == g[i] && h[j] == g[j]);
            assert(adjacent(g, i, j) == adjacent(g, j, i));
        }
    }
}

/// `r` is a simple route from `a` to `b`: registered stations, none twice, each joined to the next.
pub open spec fn simple_route(g: Seq<Node>, r: Seq<int>, a: int, b: int) -> bool {
    &&& r.len() >= 1
    &&& r[0] == a
    &&& r.last() == b
    &&& in_range(g, r)
    &&& r.no_duplicates()
    &&& forall|i: int| 0 <= i < r.len() - 1 ==> #[trigger] adjacent(g, r[i], r[i + 1])
}

/// The stations of `r` in the opposite order.
pub open spec fn reversed(r: Seq<int>) -> Seq<int> {
    Seq::new(r.len(), |i: int| r[r.len() - 1 - i])
}

/// A simple route visits each station at most once, so it is no longer than the network is large.
pub proof fn lemma_simple_route_len(g: Seq<Node>, r: Seq<int>)
    requires
        in_range(g, r),
        r.no_duplicates(),
    ensures
        r.len() <= g.len(),
{
    r.unique_seq_to_set();
    vstd::set_lib::lemma_int_range(0, g.len() as int);
    assert forall|x: int| r.to_set().contains(x) implies vstd::set_lib::set_int_range(0, g.len() as int).contains(x) by {
        let i = choose|i: int| 0 <= i < r.len() && r[i] == x;
    }
    vstd::set_lib::lemma_len_subset(r.to_set(), vstd::set_lib::set_int_range(0, g.len() as int));
}

/// The station an edge leads to is joined to the station the edge leaves.
pub proof fn lemma_nbr_adjacent(g: Seq<Node>, i: int, k: int)
    requires
        graph_wf(g),
        0 <= i < g.len(),
        0 <= k < g[i].edges@.len(),
    ensures
        0 <= nbr(g, i, k) < g.len(),
        g[nbr(g, i, k)].id@ == g[i].edges@[k].node@,
        adjacent(g, i, nbr(g, i, k)),
{
    let n = nbr(g, i, k);
    lemma_first_index(g, node_named(g[i].edges@[k].node@));
    lemma_first_index(g[i].edges@, leads_to(g[n].id@));
}

/// Every route that depth-first search yields is a simple route from the first station of the prefix.
pub proof fn lemma_dfs_sound(g: Seq<Node>, prefix: Seq<int>, dest: int, k: int)
    requires
        graph_wf(g),
        simple_route(g, prefix, prefix[0], prefix.last()),
    ensures
        forall|m: int|
            0 <= m < dfs(g, prefix, dest, k).len() ==> simple_route(g, #[trigger] dfs(g, prefix, dest, k)[m], prefix[0], dest),
    decreases g.len() - prefix.len(), g[prefix.last()].edges@.len() - k,
{
    if prefix.len() == 0 || prefix.len() >= g.len() || !(0 <= prefix.last() < g.len()) || k < 0 || k
        >= g[prefix.last()].edges@.len() {
    } else {
        let n = nbr(g, prefix.last(), k);
        lemma_nbr_adjacent(g, prefix.last(), k);
        let rest = dfs(g, prefix, dest, k + 1);
        lemma_dfs_sound(g, prefix, dest, k + 1);
        let here = if n < 0 || prefix.contains(n) {
            seq![]
        } else if n == dest {
            seq![prefix.push(n)]
        } else {
            dfs(g, prefix.push(n), dest, 0)
        };
        assert(dfs(g, prefix, dest, k) == here + rest);
        if !(n < 0 || prefix.contains(n)) {
            let q = prefix.push(n);
            assert(q[0] == prefix[0]);
            assert forall|i: int| 0 <= i < q.len() - 1 implies #[trigger] adjacent(g, q[i], q[i + 1]) by {
                if i < prefix.len() - 1 {
                    assert(q[i] == prefix[i] && q[i + 1] == prefix[i + 1]);
                    assert(adjacent(g, prefix[i], prefix[i + 1]));
                }
            }
            assert(q.no_duplicates()) by {
                assert forall|i: int, j: int| 0 <= i < j < q.len() implies q[i] != q[j] by {
                    if j == q.len() - 1 {
                        assert(prefix[i] == q[i]);
                    }
                }
            }
            assert(simple_route(g, q, q[0], q.last()));
            if n != dest {
                lemma_dfs_sound(g, q, dest, 0);
            }
        }
        assert forall|m: int| 0 <= m < (here + rest).len() implies simple_route(g, #[trigger] (here + rest)[m], prefix[0], dest) by {
            if m >= here.len() {
                assert((here + rest)[m] == rest[m - here.len()]);
            } else {
                assert((here + rest)[m] == here[m]);
            }
        }
    }
}

/// Depth-first search meets every simple route that extends its prefix.
pub proof fn lemma_dfs_complete(g: Seq<Node>, p: Seq<int>, dest: int, m: int, k: int)
    requires
        graph_wf(g),
        simple_route(g, p, p[0], dest),
        1 <= m < p.len(),
        0 <= k <= edge_pos(g, p[m - 1], p[m]),
    ensures
        dfs(g, p.take(m), dest, k).contains(p),
    decreases g.len() - m, g[p[m - 1]].edges@.len() - k,
{
    lemma_simple_route_len(g, p);
    let prefix = p.take(m);
    let last = p[m - 1];
    let kk = edge_pos(g, last, p[m]);
    assert(adjacent(g, p[m - 1], p[m]));
    lemma_first_index(g[last].edges@, leads_to(g[p[m]].id@));
    assert(prefix.last() == last);
    let rest = dfs(g, prefix, dest, k + 1);
    let n = nbr(g, last, k);
    let here = if n < 0 || prefix.contains(n) {
        seq![]
    } else if n == dest {
        seq![prefix.push(n)]
    } else {
        dfs(g, prefix.push(n), dest, 0)
    };
    assert(dfs(g, prefix, dest, k) == here + rest);
    if k < kk {
        lemma_dfs_complete(g, p, dest, m, k + 1);
        let j = choose|j: int| 0 <= j < rest.len() && rest[j] == p;
        assert((here + rest)[here.len() + j] == p);
    } else {
        lemma_node_pos_unique(g, p[m]);
        assert(n == p[m]);
        assert(!prefix.contains(n)) by {
            if prefix.contains(n) {
                let i = choose|i: int| 0 <= i < prefix.len() && prefix[i] == n;
                assert(p[i] == p[m]);
            }
        }
        if n == dest {
            assert(m == p.len() - 1) by {
                if m < p.len() - 1 {
                    assert(p[m] == p[p.len() - 1]);
                }
            }
            assert(prefix.push(n) =~= p);
            assert((here + rest)[0] == p);
        } else {
            assert(m + 1 < p.len());
            assert(prefix.push(n) =~= p.take(m + 1));
            assert(adjacent(g, p[m], p[m + 1]));
            lemma_dfs_complete(g, p, dest, m + 1, 0);
            let j = choose|j: int| 0 <= j < here.len() && here[j] == p;
            assert((here + rest)[j] == p);
        }
    }
}

/// The routes between two distinct stations are exactly the simple routes between them.
pub proof fn lemma_all_routes(g: Seq<Node>, a: int, b: int)
    requires
        graph_wf(g),
        0 <= a < g.len(),
        0 <= b < g.len(),
    ensures
        forall|m: int| 0 <= m < all_routes(g, a, b).len() ==> simple_route(g, #[trigger] all_routes(g, a, b)[m], a, b),
        forall|p: Seq<int>| simple_route(g, p, a, b) ==> #[trigger] all_routes(g, a, b).contains(p),
{
    if a == b {
        assert(simple_route(g, seq![a], a, b));
        assert forall|p: Seq<int>| simple_route(g, p, a, b) implies #[trigger] all_routes(g, a, b).contains(p) by {
            if p.len() > 1 {
                assert(p[0] == p[p.len() - 1]);
            }
            assert(p =~= seq![a]);
            assert(all_routes(g, a, b)[0] == p);
        }
    } else {
        let start = seq![a];
        assert(simple_route(g, start, a, a));
        lemma_dfs_sound(g, start, b, 0);
        assert forall|p: Seq<int>| simple_route(g, p, a, b) implies #[trigger] all_routes(g, a, b).contains(p) by {
            assert(p.len() >= 2) by {
                if p.len() == 1 {
                    assert(p[0] == p.last());
                }
            }
            assert(adjacent(g, p[0], p[1]));
            assert(p.take(1) =~= start);
            lemma_dfs_complete(g, p, b, 1, 0);
        }
    }
}

/// Route time, read from the front.
pub proof fn lemma_route_time_front(g: Seq<Node>, r: Seq<int>)
    requires
        r.len() >= 2,
    ensures
        route_time(g, r) == edge_time(g, r[0], r[1]) + route_time(g, r.drop_first()),
    decreases r.len(),
{
    let f = r.drop_first();
    if r.len() > 2 {
        lemma_route_time_front(g, r.drop_last());
        assert(r.drop_last().drop_first() =~= f.drop_last());
        assert(f[f.len() - 2] == r[r.len() - 2]);
        assert(f.last() == r.last());
        assert(route_time(g, f) == route_time(g, f.drop_last()) + edge_time(g, f[f.len() - 2], f.last()));
        assert(r.drop_last()[0] == r[0] && r.drop_last()[1] == r[1]);
    } else {
        assert(f.len() == 1);
        assert(route_time(g, f) == 0);
        assert(route_time(g, r.drop_last()) == 0);
        assert(r[r.len() - 2] == r[0]);
    }
}

/// In a well-formed network a route takes as long backwards as forwards, and stays simple.
pub proof fn lemma_reversed_route(g: Seq<Node>, r: Seq<int>)
    requires
        graph_wf(g),
        in_range(g, r),
    ensures
        route_time(g, reversed(r)) == route_time(g, r),
    decreases r.len(),
{
    if r.len() >= 2 {
        let v = reversed(r);
        lemma_route_time_front(g, v);
        assert(v.drop_first() =~= reversed(r.drop_last()));
        lemma_reversed_route(g, r.drop_last());
        assert(adjacent(g, r[r.len() - 2], r.last()) == adjacent(g, r.last(), r[r.len() - 2]));
    }
}

pub proof fn lemma_reversed_simple(g: Seq<Node>, r: Seq<int>, a: int, b: int)
    requires
        graph_wf(g),
        simple_route(g, r, a, b),
    ensures
        simple_route(g, reversed(r), b, a),
{
    let v = reversed(r);
    assert forall|i: int| 0 <= i < v.len() - 1 implies #[trigger] adjacent(g, v[i], v[i + 1]) by {
        let j = r.len() - 2 - i;
        assert(adjacent(g, r[j], r[j + 1]));
        assert(adjacent(g, r[j], r[j + 1]) == adjacent(g, r[j + 1], r[j]));
    }
    assert forall|i: int, j: int| 0 <= i < j < v.len() implies v[i] != v[j] by {
        assert(r[r.len() - 1 - i] != r[r.len() - 1 - j]);
    }
}

/// The quickest route, when there is one, is a simple route.
pub proof fn lemma_least_time_route_simple(g: Seq<Node>, a: int, b: int)
    requires
        graph_wf(g),
        0 <= a < g.len(),
        0 <= b < g.len(),
        least_time_route(g, a, b).len() > 0,
    ensures
        simple_route(g, least_time_route(g, a, b), a, b),
{
    let rs = all_routes(g, a, b);
    lemma_all_routes(g, a, b);
    lemma_best_route_index(g, rs, rs.len() as int);
}

/// The quickest route from `a` to `b` takes exactly as long as the quickest route from `b` to `a`,
/// since every connection is stored both ways with one travel time.
pub proof fn lemma_least_time_symmetric(g: Seq<Node>, a: int, b: int)
    requires
        graph_wf(g),
        0 <= a < g.len(),
        0 <= b < g.len(),
    ensures
        saturate(route_time(g, least_time_route(g, a, b)) as int) == saturate(
            route_time(g, least_time_route(g, b, a)) as int,
        ),
{
    lemma_least_time_le(g, a, b);
    lemma_least_time_le(g, b, a);
}

/// The quickest route from `b` to `a` is no slower than the quickest one from `a` to `b`.
proof fn lemma_least_time_le(g: Seq<Node>, a: int, b: int)
    requires
        graph_wf(g),
        0 <= a < g.len(),
        0 <= b < g.len(),
    ensures
        all_routes(g, a, b).len() > 0 ==> all_routes(g, b, a).len() > 0,
        saturate(route_time(g, least_time_route(g, b, a)) as int) <= saturate(
            route_time(g, least_time_route(g, a, b)) as int,
        ),
{
    let rs = all_routes(g, a, b);
    let qs = all_routes(g, b, a);
    lemma_all_routes(g, a, b);
    lemma_all_routes(g, b, a);
    lemma_best_route_index(g, rs, rs.len() as int);
    lemma_best_route_index(g, qs, qs.len() as int);
    if rs.len() > 0 {
        let r = least_time_route(g, a, b);
        assert(simple_route(g, r, a, b));
        lemma_reversed_simple(g, r, a, b);
        lemma_reversed_route(g, r);
        assert(qs.contains(reversed(r)));
        let j = choose|j: int| 0 <= j < qs.len() && qs[j] == reversed(r);
        assert(saturate(route_time(g, least_time_route(g, b, a)) as int) <= saturate(route_time(g, qs[j]) as int));
    } else {
        if qs.len() > 0 {
            let q = least_time_route(g, b, a);
            assert(simple_route(g, q, b, a));
            lemma_reversed_simple(g, q, b, a);
            assert(rs.contains(reversed(q)));
        }
    }
}

} // verus!
