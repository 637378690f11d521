use vstd::prelude::*;

use crate::util::search::{first_index, lemma_first_index, lemma_positions, positions};

use super::{
    network::{
        adjacent, edge_time, graph_wf, lemma_least_time_route_simple, simple_route, in_range, least_time_route, lemma_least_time_route_in_range, node_named, node_pos, route_time,
        route_view, saturate,
    },
    node::Node,
    package::{self, Package},
    train::{self, loads_consistent, Train},
    TrainFreightSystem,
};

verus! {

/// The quickest route of a waiting package from where it waits to its destination; empty otherwise.
pub open spec fn package_route(g: Seq<Node>, p: Package) -> Seq<int> {
    match p.status {
        package::Status::DroppedAt(at, _) => if node_pos(g, at@) >= 0 && node_pos(g, p.destination@) >= 0 {
            least_time_route(g, node_pos(g, at@), node_pos(g, p.destination@))
        } else {
            seq![]
        },
        _ => seq![],
    }
}

/// The quickest route of a package runs over registered stations.
pub proof fn lemma_least_time_route_in_range_of(g: Seq<Node>, p: Package)
    ensures
        in_range(g, package_route(g, p)),
{
    if let package::Status::DroppedAt(at, _) = p.status {
        if node_pos(g, at@) >= 0 && node_pos(g, p.destination@) >= 0 {
            crate::util::search::lemma_first_index(g, node_named(at@));
            lemma_least_time_route_in_range(g, node_pos(g, at@), node_pos(g, p.destination@));
        }
    }
}

/// A package's quickest route is a simple route from the station where it waits.
pub proof fn lemma_package_route_simple(g: Seq<Node>, p: Package)
    requires
        graph_wf(g),
        package_route(g, p).len() > 0,
    ensures
        p.status is DroppedAt,
        simple_route(g, package_route(g, p), node_pos(g, p.status->DroppedAt_0@), package_route(g, p).last()),
{
    let at = p.status->DroppedAt_0@;
    lemma_first_index(g, node_named(at));
    lemma_first_index(g, node_named(p.destination@));
    lemma_least_time_route_simple(g, node_pos(g, at), node_pos(g, p.destination@));
}

/// The anchor route, when not empty, is the quickest route of one of the packages it was chosen from.
pub proof fn lemma_anchor_route_is_one(g: Seq<Node>, ps: Seq<Package>, sel: Seq<int>)
    ensures
        anchor_route(g, ps, sel).len() > 0 ==> exists|k: int|
            0 <= k < sel.len() && anchor_route(g, ps, sel) == package_route(g, ps[#[trigger] sel[k]]),
    decreases sel.len(),
{
    if sel.len() > 0 {
        lemma_anchor_route_is_one(g, ps, sel.drop_last());
        if anchor_route(g, ps, sel) == package_route(g, ps[sel.last()]) {
            assert(sel[sel.len() - 1] == sel.last());
        } else if anchor_route(g, ps, sel).len() > 0 {
            let k = choose|k: int|
                0 <= k < sel.drop_last().len() && anchor_route(g, ps, sel.drop_last()) == package_route(g, ps[#[trigger] sel.drop_last()[k]]);
            assert(sel[k] == sel.drop_last()[k]);
        }
    }
}

/// The load of a train that starts with `load` and capacity `cap` once the packages `offered[..k]`
/// were offered to it in order, each taken on board if it fits what is left.
pub open spec fn greedy_load(ps: Seq<Package>, offered: Seq<usize>, load: int, cap: int, k: int) -> int
    decreases k,
{
    if k <= 0 {
        load
    } else {
        let l = greedy_load(ps, offered, load, cap, k - 1);
        let w = ps[offered[k - 1] as int].weight.0 as int;
        if l + w <= cap {
            l + w
        } else {
            l
        }
    }
}

/// `passing` keeps the candidates in increasing order.
pub proof fn lemma_passing_increasing(g: Seq<Node>, ps: Seq<Package>, cand: Seq<usize>, hop: int)
    requires
        forall|a: int, b: int| 0 <= a < b < cand.len() ==> cand[a] < cand[b],
    ensures
        forall|a: int, b: int|
            0 <= a < b < passing(g, ps, cand, hop).len() ==> passing(g, ps, cand, hop)[a] < passing(g, ps, cand, hop)[b],
    decreases cand.len(),
{
    if cand.len() > 0 {
        let c = cand.drop_last();
        lemma_passing_increasing(g, ps, c, hop);
        let r = passing(g, ps, c, hop);
        assert forall|a: int| 0 <= a < r.len() implies r[a] < cand.last() by {
            lemma_passing_contains(g, ps, c, hop, r[a]);
            assert(r.contains(r[a]));
            let k = choose|k: int| 0 <= k < c.len() && c[k] == r[a];
            assert(cand[k] == c[k]);
        }
    }
}

/// The packages offered at a station, listed from the positions of those waiting there, are distinct.
pub proof fn lemma_offered_distinct(g: Seq<Node>, ps: Seq<Package>, cand: Seq<usize>, n: Seq<char>, hop: int)
    requires
        route_view(cand) == positions(ps, package::waiting_at(n)),
    ensures
        passing(g, ps, cand, hop).no_duplicates(),
{
    lemma_positions(ps, package::waiting_at(n));
    let sel = positions(ps, package::waiting_at(n));
    assert forall|a: int, b: int| 0 <= a < b < cand.len() implies cand[a] < cand[b] by {
        assert(route_view(cand)[a] == cand[a] as int);
        assert(route_view(cand)[b] == cand[b] as int);
        assert(sel[a] < sel[b]);
    }
    lemma_passing_increasing(g, ps, cand, hop);
    let r = passing(g, ps, cand, hop);
    assert forall|a: int, b: int| 0 <= a < r.len() && 0 <= b < r.len() && a != b implies r[a] != r[b] by {
        if a < b {
            assert(r[a] < r[b]);
        } else {
            assert(r[b] < r[a]);
        }
    }
}

/// Train `t` stands at station `n` and package `p` fits in it.
pub open spec fn can_fetch(n: Seq<char>, p: Package) -> spec_fn(Train) -> bool {
    |t: Train| train::stopped_at(n)(t) && t.load_size.0 + p.weight.0 <= t.max_capacity.0
}

/// Train `t` stands at a registered station from which its quickest route toward station `dest`
/// has a next station, and package `p` fits in it.
pub open spec fn can_head_for(g: Seq<Node>, p: Package, dest: int) -> spec_fn(Train) -> bool {
    |t: Train|
        t.status is StoppedAt && node_pos(g, t.status->StoppedAt_0@) >= 0 && least_time_route(
            g,
            node_pos(g, t.status->StoppedAt_0@),
            dest,
        ).len() >= 2 && t.load_size.0 + p.weight.0 <= t.max_capacity.0
}

/// The first position `h >= 1` on route `r` whose station has a train that can take `p`; -1 if none.
pub open spec fn fetch_hop(g: Seq<Node>, ts: Seq<Train>, p: Package, r: Seq<int>) -> int {
    let k = first_index(r.drop_first(), |x: int| first_index(ts, can_fetch(g[x].id@, p)) >= 0);
    if k < 0 || r.len() == 0 {
        -1
    } else {
        k + 1
    }
}

/// Train `s` became `t` by setting off from `o` toward `d`, `m` minutes away.
pub open spec fn moved_to(s: Train, t: Train, o: Seq<char>, d: Seq<char>, m: nat) -> bool {
    &&& train::same_but_status(s, t)
    &&& t.status matches train::Status::DeliveringTo(o2, d2, m2) && o2@ == o && d2@ == d && m2.0 == m
}

/// What repositioning for waiting package `ps[j]` makes of the fleet `ts`: on the package's route,
/// the first station (after its own) where a stopped train can take it sends the first such train
/// one hop back toward the package; failing that, the first stopped train that can take it and has
/// a route toward the package's destination goes one hop along that route; failing that, nothing.
pub open spec fn repositioned(g: Seq<Node>, ps: Seq<Package>, j: int, ts: Seq<Train>, us: Seq<Train>) -> bool {
    let p = ps[j];
    let r = package_route(g, p);
    let h = fetch_hop(g, ts, p, r);
    let dest = node_pos(g, p.destination@);
    let k2 = first_index(ts, can_head_for(g, p, dest));
    if h >= 1 {
        let k = first_index(ts, can_fetch(g[r[h]].id@, p));
        &&& us == ts.update(k, us[k])
        &&& moved_to(ts[k], us[k], g[r[h]].id@, g[r[h - 1]].id@, edge_time(g, r[h - 1], r[h]))
    } else if dest >= 0 && k2 >= 0 {
        let at = ts[k2].status->StoppedAt_0@;
        let q = least_time_route(g, node_pos(g, at), dest);
        &&& us == ts.update(k2, us[k2])
        &&& moved_to(ts[k2], us[k2], at, g[q[1]].id@, edge_time(g, node_pos(g, at), q[1]))
    } else {
        us == ts
    }
}

/// After the train loads, package `p` (now `q`) is either on board the train named `id` (whose state
/// is now `t`), or left as it was because it did not fit.
pub open spec fn loaded_or_left(p: Package, q: Package, id: Seq<char>, t: Train) -> bool {
    ||| q.id == p.id && q.weight == p.weight && q.destination == p.destination && (q.status matches package::Status::LoadedTo(
        x,
    ) && x@ == id)
    ||| q == p && t.load_size.0 + p.weight.0 > t.max_capacity.0
}

/// Some package waiting at `station` fits in what is left of train `t`.
pub open spec fn fits_waiting_at(ps: Seq<Package>, t: Train, station: Seq<char>) -> bool {
    exists|j: int|
        0 <= j < ps.len() && package::waiting_at(station)(#[trigger] ps[j]) && t.load_size.0 + ps[j].weight.0
            <= t.max_capacity.0
}

/// Station `r[c]` lies off the anchor route, is closer to `node` by direct edge than the anchor
/// route is long, and has a waiting package that fits in train `t`.
pub open spec fn detour_via(g: Seq<Node>, ps: Seq<Package>, t: Train, node: int, anchor: Seq<int>, r: Seq<int>, c: int) -> bool {
    &&& 0 <= c < r.len()
    &&& !anchor.contains(r[c])
    &&& 0 <= r[c] < g.len()
    &&& (edge_time(g, r[c], node) as int) < saturate(route_time(g, anchor) as int)
    &&& fits_waiting_at(ps, t, g[r[c]].id@)
}

pub open spec fn has_detour(g: Seq<Node>, ps: Seq<Package>, t: Train, node: int, anchor: Seq<int>, r: Seq<int>) -> bool {
    exists|c: int| detour_via(g, ps, t, node, anchor, r, c)
}

/// A waiting package whose quickest route offers train `t` a detour from `node`.
pub open spec fn offers_detour(g: Seq<Node>, ps: Seq<Package>, t: Train, node: int, anchor: Seq<int>) -> spec_fn(int) -> bool {
    |j: int| has_detour(g, ps, t, node, anchor, package_route(g, ps[j]))
}

/// The station the detour heads for: on the quickest route of the first waiting package (in
/// registration order) that offers a detour, the last station off the anchor route; -1 when no
/// package offers one.
pub open spec fn detour_target(g: Seq<Node>, ps: Seq<Package>, t: Train, node: int, anchor: Seq<int>) -> int {
    let all = positions(ps, package::waiting());
    let k = first_index(all, offers_detour(g, ps, t, node, anchor));
    if k < 0 {
        -1
    } else {
        last_outside(package_route(g, ps[all[k]]), anchor)
    }
}

/// The last station of `r` that is not on `anchor`, or -1.
pub open spec fn last_outside(r: Seq<int>, anchor: Seq<int>) -> int
    decreases r.len(),
{
    if r.len() == 0 {
        -1
    } else if !anchor.contains(r.last()) {
        r.last()
    } else {
        last_outside(r.drop_last(), anchor)
    }
}

pub proof fn lemma_last_outside_in(r: Seq<int>, anchor: Seq<int>, c: int)
    requires
        0 <= c < r.len(),
        !anchor.contains(r[c]),
    ensures
        r.contains(last_outside(r, anchor)),
    decreases r.len(),
{
    if !anchor.contains(r.last()) {
        assert(r[r.len() - 1] == r.last());
    } else {
        assert(c < r.len() - 1);
        lemma_last_outside_in(r.drop_last(), anchor, c);
        let k = choose|k: int| 0 <= k < r.drop_last().len() && r.drop_last()[k] == last_outside(r, anchor);
        assert(r[k] == last_outside(r, anchor));
    }
}

pub proof fn lemma_last_outside(r: Seq<int>, anchor: Seq<int>, c: int)
    requires
        0 <= c < r.len(),
        !anchor.contains(r[c]),
        forall|i: int| c < i < r.len() ==> anchor.contains(#[trigger] r[i]),
    ensures
        last_outside(r, anchor) == r[c],
    decreases r.len(),
{
    if c < r.len() - 1 {
        assert(anchor.contains(r[r.len() - 1]));
        lemma_last_outside(r.drop_last(), anchor, c);
    }
}

/// The candidates, in order, whose package's quickest route passes through station `hop`.
pub open spec fn passing(g: Seq<Node>, ps: Seq<Package>, cand: Seq<usize>, hop: int) -> Seq<usize>
    decreases cand.len(),
{
    if cand.len() == 0 {
        seq![]
    } else {
        let r = passing(g, ps, cand.drop_last(), hop);
        if package_route(g, ps[cand.last() as int]).contains(hop) {
            r.push(cand.last())
        } else {
            r
        }
    }
}

pub proof fn lemma_passing_contains(g: Seq<Node>, ps: Seq<Package>, cand: Seq<usize>, hop: int, j: usize)
    ensures
        passing(g, ps, cand, hop).contains(j) <==> cand.contains(j) && package_route(g, ps[j as int]).contains(hop),
    decreases cand.len(),
{
    if cand.len() > 0 {
        let c = cand.drop_last();
        lemma_passing_contains(g, ps, c, hop, j);
        let r = passing(g, ps, c, hop);
        assert(cand =~= c.push(cand.last()));
        if passing(g, ps, cand, hop).contains(j) {
            if package_route(g, ps[cand.last() as int]).contains(hop) && j == cand.last() {
                assert(cand[cand.len() - 1] == j);
            } else {
                if package_route(g, ps[cand.last() as int]).contains(hop) {
                    let k = choose|k: int| 0 <= k < r.push(cand.last()).len() && r.push(cand.last())[k] == j;
                    assert(k < r.len());
                    assert(r[k] == j);
                }
                let k = choose|k: int| 0 <= k < c.len() && c[k] == j;
                assert(cand[k] == j);
            }
        }
        if cand.contains(j) && package_route(g, ps[j as int]).contains(hop) {
            let k = choose|k: int| 0 <= k < cand.len() && cand[k] == j;
            if k == cand.len() - 1 {
                assert(passing(g, ps, cand, hop) == r.push(j));
                assert(r.push(j)[r.len() as int] == j);
            } else {
                assert(c[k] == j);
                let m = choose|m: int| 0 <= m < r.len() && r[m] == j;
                if package_route(g, ps[cand.last() as int]).contains(hop) {
                    assert(r.push(cand.last())[m] == j);
                }
            }
        }
    }
}

/// Among the packages waiting at station `n`, those listed by `passing` are exactly the ones whose
/// quickest route passes through `hop`.
pub proof fn lemma_passing_waiting(g: Seq<Node>, ps: Seq<Package>, cand: Seq<usize>, n: Seq<char>, hop: int)
    requires
        route_view(cand) == positions(ps, package::waiting_at(n)),
        ps.len() <= usize::MAX,
    ensures
        forall|l: int|
            0 <= l < passing(g, ps, cand, hop).len() ==> #[trigger] passing(g, ps, cand, hop)[l] < ps.len() && ps[passing(
                g,
                ps,
                cand,
                hop,
            )[l] as int].status is DroppedAt,
        forall|j: int|
            0 <= j < ps.len() ==> (passing(g, ps, cand, hop).contains(j as usize) <==> package::waiting_at(n)(#[trigger] ps[j])
                && package_route(g, ps[j]).contains(hop)),
{
    lemma_positions(ps, package::waiting_at(n));
    let sel = positions(ps, package::waiting_at(n));
    assert forall|k: int| 0 <= k < cand.len() implies (#[trigger] cand[k] as int) == sel[k] by {
        assert(route_view(cand)[k] == cand[k] as int);
    }
    assert forall|l: int| 0 <= l < passing(g, ps, cand, hop).len() implies #[trigger] passing(g, ps, cand, hop)[l] < ps.len()
        && ps[passing(g, ps, cand, hop)[l] as int].status is DroppedAt by {
        let x = passing(g, ps, cand, hop)[l];
        lemma_passing_contains(g, ps, cand, hop, x);
        assert(passing(g, ps, cand, hop).contains(x));
        let k = choose|k: int| 0 <= k < cand.len() && cand[k] == x;
        assert(sel[k] == x as int);
    }
    assert forall|j: int| 0 <= j < ps.len() implies (passing(g, ps, cand, hop).contains(j as usize) <==> package::waiting_at(n)(
        #[trigger] ps[j],
    ) && package_route(g, ps[j]).contains(hop)) by {
        lemma_passing_contains(g, ps, cand, hop, j as usize);
        if package::waiting_at(n)(ps[j]) {
            assert(sel.contains(j));
            let k = choose|k: int| 0 <= k < sel.len() && sel[k] == j;
            assert(cand[k] == j as usize);
        }
        if cand.contains(j as usize) {
            let k = choose|k: int| 0 <= k < cand.len() && cand[k] == j as usize;
            assert(sel[k] == j);
        }
    }
}

/// The anchor route: the longest quickest route among the packages at positions `sel`, the first
/// among equals.
pub open spec fn anchor_route(g: Seq<Node>, ps: Seq<Package>, sel: Seq<int>) -> Seq<int>
    decreases sel.len(),
{
    if sel.len() == 0 {
        seq![]
    } else {
        let a = anchor_route(g, ps, sel.drop_last());
        let r = package_route(g, ps[sel.last()]);
        if r.len() > a.len() {
            r
        } else {
            a
        }
    }
}

/// Going from station `o` to station `d` by their first edge takes `m` minutes, and there is one.
pub open spec fn one_hop(g: Seq<Node>, o: Seq<char>, d: Seq<char>, m: u32) -> bool {
    &&& adjacent(g, node_pos(g, o), node_pos(g, d))
    &&& m == edge_time(g, node_pos(g, o), node_pos(g, d))
}

/// Train `s` became `t` by leaving the station where it stood for a neighbouring one, with the
/// edge's travel time.
pub open spec fn departed(g: Seq<Node>, s: Train, t: Train) -> bool {
    &&& t.id == s.id
    &&& t.max_capacity == s.max_capacity
    &&& s.status is StoppedAt
    &&& t.status matches train::Status::DeliveringTo(o, d, m) && o@ == s.status->StoppedAt_0@ && one_hop(g, o@, d@, m.0)
}

/// Package `p` became `q` by boarding a train that stood at the package's station in `ats` and has
/// left in `bts`.
pub open spec fn boarded(ats: Seq<Train>, bts: Seq<Train>, p: Package, q: Package) -> bool {
    &&& q.id == p.id
    &&& q.weight == p.weight
    &&& q.destination == p.destination
    &&& p.status is DroppedAt
    &&& q.status is LoadedTo
    &&& exists|i: int|
        0 <= i < ats.len() && (#[trigger] ats[i]).status is StoppedAt && ats[i].status->StoppedAt_0@
            == p.status->DroppedAt_0@ && ats[i].id@ == q.status->LoadedTo_0@ && bts[i].status is DeliveringTo
}

/// `b` is `a` after dispatch decisions only: some stopped trains left, one hop each, and some
/// waiting packages boarded trains that stood at their station and left; nothing else changed.
pub open spec fn only_dispatched(a: TrainFreightSystem, b: TrainFreightSystem) -> bool {
    &&& b.nodes == a.nodes
    &&& b.train_handler.trains@.len() == a.train_handler.trains@.len()
    &&& forall|i: int|
        0 <= i < a.train_handler.trains@.len() ==> #[trigger] b.train_handler.trains@[i] == a.train_handler.trains@[i]
            || departed(a.nodes@, a.train_handler.trains@[i], b.train_handler.trains@[i])
    &&& b.package_handler.packages@.len() == a.package_handler.packages@.len()
    &&& forall|j: int|
        0 <= j < a.package_handler.packages@.len() ==> #[trigger] b.package_handler.packages@[j]
            == a.package_handler.packages@[j] || boarded(
            a.train_handler.trains@,
            b.train_handler.trains@,
            a.package_handler.packages@[j],
            b.package_handler.packages@[j],
        )
}

pub proof fn lemma_only_dispatched_refl(a: TrainFreightSystem)
    ensures
        only_dispatched(a, a),
{
}

pub proof fn lemma_only_dispatched_trans(a: TrainFreightSystem, b: TrainFreightSystem, c: TrainFreightSystem)
    requires
        only_dispatched(a, b),
        only_dispatched(b, c),
    ensures
        only_dispatched(a, c),
{
    let (ats, bts, cts) = (a.train_handler.trains@, b.train_handler.trains@, c.train_handler.trains@);
    let (aps, bps, cps) = (a.package_handler.packages@, b.package_handler.packages@, c.package_handler.packages@);
    assert forall|i: int| 0 <= i < ats.len() implies #[trigger] cts[i] == ats[i] || departed(a.nodes@, ats[i], cts[i]) by {
        assert(bts[i] == ats[i] || departed(a.nodes@, ats[i], bts[i]));
        assert(cts[i] == bts[i] || departed(b.nodes@, bts[i], cts[i]));
    }
    assert forall|j: int| 0 <= j < aps.len() implies #[trigger] cps[j] == aps[j] || boarded(ats, cts, aps[j], cps[j]) by {
        assert(bps[j] == aps[j] || boarded(ats, bts, aps[j], bps[j]));
        assert(cps[j] == bps[j] || boarded(bts, cts, bps[j], cps[j]));
        if bps[j] != aps[j] {
            let i = choose|i: int|
                0 <= i < ats.len() && (#[trigger] ats[i]).status is StoppedAt && ats[i].status->StoppedAt_0@
                    == aps[j].status->DroppedAt_0@ && ats[i].id@ == bps[j].status->LoadedTo_0@ && bts[i].status is DeliveringTo;
            assert(cts[i] == bts[i] || departed(b.nodes@, bts[i], cts[i]));
        } else if cps[j] != bps[j] {
            let i = choose|i: int|
                0 <= i < bts.len() && (#[trigger] bts[i]).status is StoppedAt && bts[i].status->StoppedAt_0@
                    == bps[j].status->DroppedAt_0@ && bts[i].id@ == cps[j].status->LoadedTo_0@ && cts[i].status is DeliveringTo;
            assert(bts[i] == ats[i] || departed(a.nodes@, ats[i], bts[i]));
            assert(ats[i] == bts[i]);
        }
    }
}

/// A dispatch pass after which no train travels changed nothing.
pub proof fn lemma_only_dispatched_quiet(a: TrainFreightSystem, b: TrainFreightSystem)
    requires
        only_dispatched(a, b),
        forall|i: int| 0 <= i < b.train_handler.trains@.len() ==> !((#[trigger] b.train_handler.trains@[i]).status is DeliveringTo),
    ensures
        b.train_handler.trains@ == a.train_handler.trains@,
        b.package_handler.packages@ == a.package_handler.packages@,
{
    let (ats, bts) = (a.train_handler.trains@, b.train_handler.trains@);
    let (aps, bps) = (a.package_handler.packages@, b.package_handler.packages@);
    assert forall|i: int| 0 <= i < ats.len() implies #[trigger] bts[i] == ats[i] by {
        assert(bts[i] == ats[i] || departed(a.nodes@, ats[i], bts[i]));
    }
    assert forall|j: int| 0 <= j < aps.len() implies #[trigger] bps[j] == aps[j] by {
        if bps[j] != aps[j] {
            assert(boarded(ats, bts, aps[j], bps[j]));
            let i = choose|i: int|
                0 <= i < ats.len() && (#[trigger] ats[i]).status is StoppedAt && ats[i].status->StoppedAt_0@
                    == aps[j].status->DroppedAt_0@ && ats[i].id@ == bps[j].status->LoadedTo_0@ && bts[i].status is DeliveringTo;
        }
    }
    assert(bts =~= ats);
    assert(bps =~= aps);
}

/// Dispatch has nothing left to do at station `n`: no train stands there, or no package waiting
/// there has a route to its destination (in particular, when none waits there).
pub open spec fn settled(g: Seq<Node>, ts: Seq<Train>, ps: Seq<Package>, n: Seq<char>) -> bool {
    ||| forall|i: int| 0 <= i < ts.len() ==> !train::stopped_at(n)(#[trigger] ts[i])
    ||| forall|j: int| 0 <= j < ps.len() && package::waiting_at(n)(#[trigger] ps[j]) ==> package_route(g, ps[j]).len() < 2
}

/// Dispatch decisions never unsettle a station: they only load waiting packages and send stopped trains.
pub proof fn lemma_settled_stays(a: TrainFreightSystem, b: TrainFreightSystem, n: Seq<char>)
    requires
        only_dispatched(a, b),
        settled(a.nodes@, a.train_handler.trains@, a.package_handler.packages@, n),
    ensures
        settled(b.nodes@, b.train_handler.trains@, b.package_handler.packages@, n),
{
    let ats = a.train_handler.trains@;
    let bts = b.train_handler.trains@;
    let aps = a.package_handler.packages@;
    let bps = b.package_handler.packages@;
    if forall|i: int| 0 <= i < ats.len() ==> !train::stopped_at(n)(#[trigger] ats[i]) {
        assert forall|i: int| 0 <= i < bts.len() implies !train::stopped_at(n)(#[trigger] bts[i]) by {
            assert(bts[i] == ats[i] || departed(a.nodes@, ats[i], bts[i]));
            assert(!train::stopped_at(n)(ats[i]));
        }
    } else {
        assert forall|j: int| 0 <= j < bps.len() && package::waiting_at(n)(#[trigger] bps[j]) implies package_route(
            b.nodes@,
            bps[j],
        ).len() < 2 by {
            assert(bps[j] == aps[j] || boarded(ats, bts, aps[j], bps[j]));
            assert(bps[j] == aps[j]);
            assert(package::waiting_at(n)(aps[j]));
        }
    }
}

/// The anchor route is at least as long as the quickest route of every package it was chosen from.
pub proof fn lemma_anchor_longest(g: Seq<Node>, ps: Seq<Package>, sel: Seq<int>)
    ensures
        forall|k: int| 0 <= k < sel.len() ==> package_route(g, ps[#[trigger] sel[k]]).len() <= anchor_route(g, ps, sel).len(),
    decreases sel.len(),
{
    if sel.len() > 0 {
        lemma_anchor_longest(g, ps, sel.drop_last());
        assert forall|k: int| 0 <= k < sel.len() implies package_route(g, ps[#[trigger] sel[k]]).len() <= anchor_route(g, ps, sel).len() by {
            if k < sel.len() - 1 {
                assert(sel.drop_last()[k] == sel[k]);
            }
        }
    }
}

/// Some train of the fleet could carry weight `w` when empty.
pub open spec fn carriable(ts: Seq<Train>, w: u32) -> bool {
    exists|i: int| 0 <= i < ts.len() && w <= (#[trigger] ts[i]).max_capacity.0
}

/// What freezing and thawing make of a package, given the fleet.
pub open spec fn refrozen(ts: Seq<Train>, p: Package, q: Package) -> bool {
    &&& q.id == p.id
    &&& q.weight == p.weight
    &&& q.destination == p.destination
    &&& if p.status is DroppedAt && !carriable(ts, p.weight.0) {
        q.status matches package::Status::CantBeTransported(at) && at@ == p.status->DroppedAt_0@
    } else if p.status is CantBeTransported && carriable(ts, p.weight.0) {
        package::waits_fresh(q.status, p.status->CantBeTransported_0@)
    } else {
        q.status == p.status
    }
}

/// Nothing to move and nothing frozen that the fleet could now carry.
pub open spec fn at_rest(s: TrainFreightSystem) -> bool {
    let ps = s.package_handler.packages@;
    &&& forall|j: int| 0 <= j < ps.len() ==> !package::outstanding()(#[trigger] ps[j])
    &&& forall|j: int|
        0 <= j < ps.len() ==> !((#[trigger] ps[j]).status is CantBeTransported && carriable(
            s.train_handler.trains@,
            ps[j].weight.0,
        ))
}

/// The stations, the trains' names and capacities, and the packages' names, weights and
/// destinations are those of `a`.
pub open spec fn same_entities(a: TrainFreightSystem, b: TrainFreightSystem) -> bool {
    &&& b.nodes == a.nodes
    &&& b.train_handler.trains@.len() == a.train_handler.trains@.len()
    &&& forall|i: int|
        0 <= i < a.train_handler.trains@.len() ==> (#[trigger] b.train_handler.trains@[i]).id == a.train_handler.trains@[i].id
            && b.train_handler.trains@[i].max_capacity == a.train_handler.trains@[i].max_capacity
    &&& b.package_handler.packages@.len() == a.package_handler.packages@.len()
    &&& forall|j: int|
        0 <= j < a.package_handler.packages@.len() ==> (#[trigger] b.package_handler.packages@[j]).id
            == a.package_handler.packages@[j].id && b.package_handler.packages@[j].weight
            == a.package_handler.packages@[j].weight && b.package_handler.packages@[j].destination
            == a.package_handler.packages@[j].destination
}

pub proof fn lemma_same_entities_trans(a: TrainFreightSystem, b: TrainFreightSystem, c: TrainFreightSystem)
    requires
        same_entities(a, b),
        same_entities(b, c),
    ensures
        same_entities(a, c),
{
    assert forall|i: int| 0 <= i < a.train_handler.trains@.len() implies (#[trigger] c.train_handler.trains@[i]).id
        == a.train_handler.trains@[i].id && c.train_handler.trains@[i].max_capacity
        == a.train_handler.trains@[i].max_capacity by {
        assert(b.train_handler.trains@[i] == b.train_handler.trains@[i]);
    }
    assert forall|j: int| 0 <= j < a.package_handler.packages@.len() implies (#[trigger] c.package_handler.packages@[j]).id
        == a.package_handler.packages@[j].id && c.package_handler.packages@[j].weight
        == a.package_handler.packages@[j].weight && c.package_handler.packages@[j].destination
        == a.package_handler.packages@[j].destination by {
        assert(b.package_handler.packages@[j] == b.package_handler.packages@[j]);
    }
}

pub proof fn lemma_dispatched_same_entities(a: TrainFreightSystem, b: TrainFreightSystem)
    requires
        only_dispatched(a, b),
    ensures
        same_entities(a, b),
{
    assert forall|i: int| 0 <= i < a.train_handler.trains@.len() implies (#[trigger] b.train_handler.trains@[i]).id
        == a.train_handler.trains@[i].id && b.train_handler.trains@[i].max_capacity
        == a.train_handler.trains@[i].max_capacity by {
        assert(b.train_handler.trains@[i] == a.train_handler.trains@[i] || departed(
            a.nodes@,
            a.train_handler.trains@[i],
            b.train_handler.trains@[i],
        ));
    }
    assert forall|j: int| 0 <= j < a.package_handler.packages@.len() implies (#[trigger] b.package_handler.packages@[j]).id
        == a.package_handler.packages@[j].id && b.package_handler.packages@[j].weight
        == a.package_handler.packages@[j].weight && b.package_handler.packages@[j].destination
        == a.package_handler.packages@[j].destination by {
        assert(b.package_handler.packages@[j] == a.package_handler.packages@[j] || boarded(
            a.train_handler.trains@,
            b.train_handler.trains@,
            a.package_handler.packages@[j],
            b.package_handler.packages@[j],
        ));
    }
}

/// Changing the status of one package between states that are not on board keeps every load
/// accounted for and names unique.
pub proof fn lemma_status_change_consistent(ts: Seq<Train>, ps: Seq<Package>, j: int, q: Package)
    requires
        loads_consistent(ts, ps),
        0 <= j < ps.len(),
        q.id == ps[j].id,
        q.weight == ps[j].weight,
        !(ps[j].status is LoadedTo),
        !(q.status is LoadedTo),
    ensures
        loads_consistent(ts, ps.update(j, q)),
        forall|a: int, b: int|
            0 <= a < ps.len() && 0 <= b < ps.len() && a != b && ps[a].id@ != ps[b].id@ ==> #[trigger] ps.update(j, q)[a].id@
                != #[trigger] ps.update(j, q)[b].id@,
{
    let qs = ps.update(j, q);
    assert forall|i: int| 0 <= i < ts.len() implies (#[trigger] ts[i]).load_size.0 == package::carried_weight(qs, ts[i].id@) by {
        package::lemma_carried_weight_update(ps, j, q, ts[i].id@);
    }
    assert forall|l: int|
        0 <= l < qs.len() && ((#[trigger] qs[l]).status matches package::Status::LoadedTo(x)) implies exists|i: int|
        0 <= i < ts.len() && (#[trigger] ts[i]).id@ == qs[l].status->LoadedTo_0@ by {
        assert(qs[l] == ps[l]);
    }
}

} // verus!
