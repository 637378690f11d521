use vstd::prelude::*;

use crate::util::minute::Minute;
use crate::util::kilogram::Kilogram;
use crate::util::search::{
    first_index, lemma_first_index, lemma_first_index_is, lemma_first_index_push, lemma_positions, positions,
};

use self::{
    edge::Edge,
    error::{Error, ErrorKind},
    network::{
        adjacent, lemma_least_time_route_simple, simple_route, best_route_index, dfs, edge_pos, edge_time, graph_wf, in_range, least_time_route,
        lemma_least_time_route_in_range, lemma_node_pos_same_names, lemma_node_pos_unique, lemma_push_node_wf,
        node_named, node_pos, route_time, route_view, routes_view, saturate,
    },
    node::{edge_named, leads_to, Node, NodeId},
    package::{Package, PackageHandler},
    planner::{
        anchor_route, at_rest, boarded, can_fetch, can_head_for, repositioned, fetch_hop, lemma_anchor_route_is_one, lemma_package_route_simple, carriable, departed, lemma_only_dispatched_quiet, one_hop, detour_target, detour_via, offers_detour, has_detour, last_outside, lemma_anchor_longest,
        lemma_dispatched_same_entities, lemma_last_outside, lemma_last_outside_in, lemma_least_time_route_in_range_of,
        lemma_only_dispatched_refl, lemma_only_dispatched_trans, lemma_passing_waiting, lemma_same_entities_trans,
        greedy_load, lemma_offered_distinct, lemma_settled_stays, lemma_status_change_consistent, loaded_or_left, only_dispatched, package_route, passing,
        refrozen, same_entities, settled,
    },
    train::{lemma_no_load_on_new_train, loads_consistent, Train, TrainHandler},
};

pub mod edge;
pub mod error;
pub mod network;
pub mod node;
pub mod package;
pub mod planner;
pub mod train;

verus! {

/// How one dispatch attempt at a station ended.
#[derive(Debug, Clone, Copy, PartialEq, Eq, Structural)]
pub enum DeliveryResult {
    /// No package waits at the station.
    NoPackages,
    /// Packages wait, but no train stands at the station.
    NoTrains,
    /// The train left, and packages still wait at the station.
    NotAllPackageLoaded,
    /// The train left, and no package waits at the station any more.
    AllPackageLoaded,
    /// The train left empty to pick up a closer package first.
    TrainPicking,
    /// Packages wait, but none of them can reach its destination from here.
    NoRoute,
}

/// How a run of the simulation ended.
#[derive(Debug, Clone, Copy, PartialEq, Eq, Structural)]
pub enum RunEnd {
    /// Nothing is left waiting or on board.
    AllDelivered,
    /// A dispatch pass sent no train anywhere; the packages still waiting were frozen.
    Stuck,
    /// The tick budget ran out first.
    OutOfTicks,
}

/// One tick of the clock, for the movement log. The ghost fields hold the system as the tick
/// found it, after its dispatch pass, after its arrivals, and as it left it.
pub struct TickReport {
    /// Minutes the clock moved: the least remaining time of any train after the dispatch pass.
    pub advance: Minute,
    /// Minutes elapsed by the end of this tick, held at `u32::MAX`.
    pub total: Minute,
    /// One line per train, in registration order, once the arrivals are unloaded.
    pub trains: Vec<TrainReport>,
    pub start: Ghost<TrainFreightSystem>,
    pub dispatched: Ghost<TrainFreightSystem>,
    pub arrived: Ghost<TrainFreightSystem>,
    pub ended: Ghost<TrainFreightSystem>,
}

/// What a run of the simulation gives back.
pub struct RunOutcome {
    /// Minutes elapsed over all ticks, held at `u32::MAX`.
    pub total: Minute,
    pub end: RunEnd,
    pub ticks: Vec<TickReport>,
    /// The system once frozen packages were re-evaluated, before the first tick.
    pub start: Ghost<TrainFreightSystem>,
}

/// `a + d`, held at `u32::MAX`.
pub open spec fn capped_add(a: u32, d: u32) -> u32 {
    if a + d > u32::MAX {
        u32::MAX
    } else {
        (a + d) as u32
    }
}

/// Dispatch has nothing left to do at any station.
pub open spec fn all_settled(s: TrainFreightSystem) -> bool {
    forall|i: int|
        0 <= i < s.nodes@.len() ==> settled(
            s.nodes@,
            s.train_handler.trains@,
            s.package_handler.packages@,
            #[trigger] s.nodes@[i].id@,
        )
}

/// No train travels.
pub open spec fn none_moving(s: TrainFreightSystem) -> bool {
    forall|i: int| 0 <= i < s.train_handler.trains@.len() ==> !((#[trigger] s.train_handler.trains@[i]).status is DeliveringTo)
}

/// Some package waits or travels.
pub open spec fn has_outstanding(s: TrainFreightSystem) -> bool {
    exists|j: int| 0 <= j < s.package_handler.packages@.len() && package::outstanding()(#[trigger] s.package_handler.packages@[j])
}

/// `m` is `d` once the clock moved by `adv`: every travelling train went on by `adv` minutes, and
/// the trains that arrived unloaded.
pub open spec fn arrived_from(d: TrainFreightSystem, m: TrainFreightSystem, adv: u32) -> bool {
    &&& same_entities(d, m)
    &&& forall|i: int|
        0 <= i < d.train_handler.trains@.len() ==> train::elapsed(
            (#[trigger] d.train_handler.trains@[i]).status,
            m.train_handler.trains@[i].status,
            adv,
        )
    &&& forall|j: int|
        0 <= j < d.package_handler.packages@.len() ==> train::after_arrivals(
            m.train_handler.trains@,
            #[trigger] d.package_handler.packages@[j],
            m.package_handler.packages@[j],
            m.train_handler.trains@.len() as int,
        )
}

/// `e` is `m` once the delivered packages were marked completed.
pub open spec fn swept_from(m: TrainFreightSystem, e: TrainFreightSystem) -> bool {
    &&& e.nodes == m.nodes
    &&& e.train_handler.trains@ == m.train_handler.trains@
    &&& e.package_handler.packages@.len() == m.package_handler.packages@.len()
    &&& forall|j: int|
        0 <= j < m.package_handler.packages@.len() ==> package::swept(
            #[trigger] m.package_handler.packages@[j],
            e.package_handler.packages@[j],
        )
}

/// One dispatch pass from `a` to `b`: the stations were served in turn, leaving the system `mid`
/// with every station settled; then, for each package still waiting (in registration order), the
/// fleet was repositioned one step; the packages did not change after `mid`.
pub open spec fn dispatch_pass(a: TrainFreightSystem, b: TrainFreightSystem) -> bool {
    exists|mid: TrainFreightSystem, hist: Seq<Seq<Train>>|
        #![trigger all_settled(mid), hist.len()]
        {
            let w = positions(mid.package_handler.packages@, package::waiting());
            &&& only_dispatched(a, mid)
            &&& all_settled(mid)
            &&& b.nodes == mid.nodes
            &&& b.package_handler.packages@ == mid.package_handler.packages@
            &&& hist.len() == w.len() + 1
            &&& hist[0] == mid.train_handler.trains@
            &&& hist[w.len() as int] == b.train_handler.trains@
            &&& forall|d: int|
                0 <= d < w.len() ==> repositioned(
                    mid.nodes@,
                    mid.package_handler.packages@,
                    #[trigger] w[d],
                    hist[d],
                    hist[d + 1],
                )
        }
}

/// A tick, following a total of `prev` minutes: something was outstanding; the dispatch pass left
/// every station settled; the clock moved by the least remaining time; the arrivals unloaded; the
/// log lines describe the trains then; the delivered packages were completed.
pub open spec fn tick_ok(t: TickReport, prev: u32) -> bool {
    let a = t.start@;
    let d = t.dispatched@;
    let m = t.arrived@;
    &&& has_outstanding(a)
    &&& only_dispatched(a, d)
    &&& dispatch_pass(a, d)
    &&& all_settled(d)
    &&& train::least_remaining(d.train_handler.trains@) == Some(t.advance.0)
    &&& arrived_from(d, m, t.advance.0)
    &&& t.total.0 == capped_add(prev, t.advance.0)
    &&& t.trains@.len() == m.train_handler.trains@.len()
    &&& forall|i: int|
        0 <= i < t.trains@.len() ==> reports(
            #[trigger] t.trains@[i],
            m.train_handler.trains@[i],
            m.package_handler.packages@,
            t.total,
        )
    &&& swept_from(m, t.ended@)
}

/// Total before tick `k`.
pub open spec fn prev_total(ts: Seq<TickReport>, k: int) -> u32 {
    if k <= 0 {
        0
    } else {
        ts[k - 1].total.0
    }
}

/// The system after the ticks, from `start`.
pub open spec fn after_ticks(start: TrainFreightSystem, ts: Seq<TickReport>) -> TrainFreightSystem {
    if ts.len() == 0 {
        start
    } else {
        ts.last().ended@
    }
}

/// The ticks follow one another from `start`, each one well formed.
pub open spec fn ticks_ok(start: TrainFreightSystem, ts: Seq<TickReport>) -> bool {
    &&& forall|k: int| 0 <= k < ts.len() ==> tick_ok(#[trigger] ts[k], prev_total(ts, k))
    &&& forall|k: int| 0 <= k < ts.len() ==> (#[trigger] ts[k]).start@ == after_ticks(start, ts.take(k))
}

/// A waiting package is frozen where it waits; any other is unchanged.
pub open spec fn frozen_from(p: Package, q: Package) -> bool {
    if p.status is DroppedAt {
        &&& q.id == p.id && q.weight == p.weight && q.destination == p.destination
        &&& q.status matches package::Status::CantBeTransported(at) && at@ == p.status->DroppedAt_0@
    } else {
        q == p
    }
}

/// A stuck end: in `s` no train travels, and a dispatch pass from `s` (serving the stations, then
/// repositioning) sent no train anywhere and so changed nothing; `f` is `s` with its waiting
/// packages frozen.
pub open spec fn stuck_from(s: TrainFreightSystem, f: TrainFreightSystem) -> bool {
    &&& none_moving(s)
    &&& all_settled(s)
    &&& exists|d: TrainFreightSystem|
        #![trigger dispatch_pass(s, d)]
        dispatch_pass(s, d) && none_moving(d) && d.train_handler.trains@ == s.train_handler.trains@
            && d.package_handler.packages@ == s.package_handler.packages@
    &&& f.nodes == s.nodes
    &&& f.train_handler.trains@ == s.train_handler.trains@
    &&& f.package_handler.packages@.len() == s.package_handler.packages@.len()
    &&& forall|j: int|
        0 <= j < s.package_handler.packages@.len() ==> frozen_from(
            #[trigger] s.package_handler.packages@[j],
            f.package_handler.packages@[j],
        )
}

/// Every frozen package outweighs every train of the fleet.
pub open spec fn frozen_heavy(s: TrainFreightSystem) -> bool {
    forall|j: int|
        0 <= j < s.package_handler.packages@.len() && (#[trigger] s.package_handler.packages@[j]).status is CantBeTransported
            ==> !carriable(s.train_handler.trains@, s.package_handler.packages@[j].weight.0)
}

/// No package is delivered-but-not-completed.
pub open spec fn none_delivered(s: TrainFreightSystem) -> bool {
    forall|j: int| 0 <= j < s.package_handler.packages@.len() ==> !((#[trigger] s.package_handler.packages@[j]).status is Delivered)
}

/// A tick freezes nothing: a package frozen at its end was frozen at its start, the fleet unchanged.
pub proof fn lemma_tick_keeps_frozen_heavy(t: TickReport, prev: u32)
    requires
        tick_ok(t, prev),
        frozen_heavy(t.start@),
    ensures
        frozen_heavy(t.ended@),
        none_delivered(t.ended@),
{
    let (a, d, m, e) = (t.start@, t.dispatched@, t.arrived@, t.ended@);
    lemma_dispatched_same_entities(a, d);
    let (aps, dps, mps, eps) = (a.package_handler.packages@, d.package_handler.packages@, m.package_handler.packages@, e.package_handler.packages@);
    assert forall|j: int| 0 <= j < eps.len() && (#[trigger] eps[j]).status is CantBeTransported implies !carriable(
        e.train_handler.trains@,
        eps[j].weight.0,
    ) by {
        assert(package::swept(mps[j], eps[j]));
        assert(train::after_arrivals(m.train_handler.trains@, dps[j], mps[j], m.train_handler.trains@.len() as int));
        if exists|i: int|
            0 <= i < m.train_handler.trains@.len() && (#[trigger] m.train_handler.trains@[i]).status is StoppedAt
                && package::carried_by(m.train_handler.trains@[i].id@)(dps[j]) {
            let i = choose|i: int|
                0 <= i < m.train_handler.trains@.len() && (#[trigger] m.train_handler.trains@[i]).status is StoppedAt
                    && package::carried_by(m.train_handler.trains@[i].id@)(dps[j]);
            assert(train::unloaded(dps[j], mps[j], m.train_handler.trains@[i].status->StoppedAt_0@, m.train_handler.trains@[i].id@));
        }
        assert(mps[j] == dps[j]);
        assert(dps[j] == aps[j] || boarded(a.train_handler.trains@, d.train_handler.trains@, aps[j], dps[j]));
        assert(aps[j] == dps[j]);
        assert(!carriable(a.train_handler.trains@, aps[j].weight.0));
        if carriable(e.train_handler.trains@, eps[j].weight.0) {
            let i = choose|i: int| 0 <= i < e.train_handler.trains@.len() && eps[j].weight.0 <= (#[trigger] e.train_handler.trains@[i]).max_capacity.0;
            assert(e.train_handler.trains@[i] == m.train_handler.trains@[i]);
            assert(m.train_handler.trains@[i].max_capacity == d.train_handler.trains@[i].max_capacity);
            assert(d.train_handler.trains@[i].max_capacity == a.train_handler.trains@[i].max_capacity);
        }
    }
    assert forall|j: int| 0 <= j < eps.len() implies !((#[trigger] eps[j]).status is Delivered) by {
        assert(package::swept(mps[j], eps[j]));
    }
}

/// During tick `t`, package `j` was delivered by a train that stopped at the package's destination
/// with the package on board.
pub open spec fn delivered_in(t: TickReport, j: int) -> bool {
    let d = t.dispatched@;
    let m = t.arrived@;
    let p = d.package_handler.packages@[j];
    exists|i: int|
        0 <= i < m.train_handler.trains@.len() && (#[trigger] m.train_handler.trains@[i]).status is StoppedAt
            && m.train_handler.trains@[i].status->StoppedAt_0@ == p.destination@ && package::carried_by(
            m.train_handler.trains@[i].id@,
        )(p) && (m.package_handler.packages@[j].status matches package::Status::Delivered(x) && x@
            == m.train_handler.trains@[i].id@)
}

/// A tick in which package `j` was not delivered leaves it neither completed nor delivered, if it
/// was neither before.
proof fn lemma_tick_without_delivery(t: TickReport, prev: u32, j: int)
    requires
        tick_ok(t, prev),
        0 <= j < t.start@.package_handler.packages@.len(),
        !(t.start@.package_handler.packages@[j].status is Completed),
        !(t.start@.package_handler.packages@[j].status is Delivered),
        !delivered_in(t, j),
    ensures
        !(t.ended@.package_handler.packages@[j].status is Completed),
        !(t.ended@.package_handler.packages@[j].status is Delivered),
{
    let a = t.start@;
    let d = t.dispatched@;
    let m = t.arrived@;
    let e = t.ended@;
    let p = d.package_handler.packages@[j];
    assert(d.package_handler.packages@[j] == a.package_handler.packages@[j] || boarded(
        a.train_handler.trains@,
        d.train_handler.trains@,
        a.package_handler.packages@[j],
        d.package_handler.packages@[j],
    ));
    assert(train::after_arrivals(m.train_handler.trains@, p, m.package_handler.packages@[j], m.train_handler.trains@.len() as int));
    if exists|i: int|
        0 <= i < m.train_handler.trains@.len() && (#[trigger] m.train_handler.trains@[i]).status is StoppedAt
            && package::carried_by(m.train_handler.trains@[i].id@)(p) {
        let i = choose|i: int|
            0 <= i < m.train_handler.trains@.len() && (#[trigger] m.train_handler.trains@[i]).status is StoppedAt
                && package::carried_by(m.train_handler.trains@[i].id@)(p);
        assert(train::unloaded(p, m.package_handler.packages@[j], m.train_handler.trains@[i].status->StoppedAt_0@, m.train_handler.trains@[i].id@));
    }
    assert(package::swept(m.package_handler.packages@[j], e.package_handler.packages@[j]));
}

/// Every package that a run completes was delivered in one of its ticks, by a train that stopped at
/// its destination with it on board.
pub proof fn lemma_run_completes_by_delivery(o: TrainFreightSystem, f: TrainFreightSystem, max: u64, r: RunOutcome, j: int)
    requires
        run_ok(o, f, max, r),
        0 <= j < o.package_handler.packages@.len(),
        !(o.package_handler.packages@[j].status is Completed),
        !(o.package_handler.packages@[j].status is Delivered),
        f.package_handler.packages@[j].status is Completed,
    ensures
        exists|k: int| 0 <= k < r.ticks@.len() && delivered_in(#[trigger] r.ticks@[k], j),
{
    let s0 = r.start@;
    let ts = r.ticks@;
    assert(refrozen(o.train_handler.trains@, o.package_handler.packages@[j], s0.package_handler.packages@[j]));
    if forall|k: int| 0 <= k < ts.len() ==> !delivered_in(#[trigger] ts[k], j) {
        lemma_no_delivery_so_far(s0, ts, j, ts.len() as int);
        let last = after_ticks(s0, ts);
        assert(ts.take(ts.len() as int) =~= ts);
        if r.end is Stuck {
            assert(frozen_from(last.package_handler.packages@[j], f.package_handler.packages@[j]));
        }
    }
}

proof fn lemma_no_delivery_so_far(s0: TrainFreightSystem, ts: Seq<TickReport>, j: int, k: int)
    requires
        ticks_ok(s0, ts),
        0 <= k <= ts.len(),
        0 <= j < s0.package_handler.packages@.len(),
        !(s0.package_handler.packages@[j].status is Completed),
        !(s0.package_handler.packages@[j].status is Delivered),
        forall|l: int| 0 <= l < ts.len() ==> !delivered_in(#[trigger] ts[l], j),
    ensures
        j < after_ticks(s0, ts.take(k)).package_handler.packages@.len(),
        !(after_ticks(s0, ts.take(k)).package_handler.packages@[j].status is Completed),
        !(after_ticks(s0, ts.take(k)).package_handler.packages@[j].status is Delivered),
    decreases k,
{
    if k > 0 {
        lemma_no_delivery_so_far(s0, ts, j, k - 1);
        let t = ts[k - 1];
        assert(tick_ok(t, prev_total(ts, k - 1)));
        assert(t.start@ == after_ticks(s0, ts.take(k - 1)));
        lemma_tick_lengths(t, prev_total(ts, k - 1));
        lemma_tick_without_delivery(t, prev_total(ts, k - 1), j);
        assert(ts.take(k).last() == t);
    } else {
        assert(ts.take(0).len() == 0);
    }
}

/// A tick keeps the number of packages.
proof fn lemma_tick_lengths(t: TickReport, prev: u32)
    requires
        tick_ok(t, prev),
    ensures
        t.ended@.package_handler.packages@.len() == t.start@.package_handler.packages@.len(),
{
    lemma_dispatched_same_entities(t.start@, t.dispatched@);
}

/// `r` is a run of at most `max` ticks from `o` that left `f`: frozen packages were re-evaluated
/// first; the ticks follow one another; the total is that of the last tick; and the end says why
/// the run stopped.
pub open spec fn run_ok(o: TrainFreightSystem, f: TrainFreightSystem, max: u64, r: RunOutcome) -> bool {
    let s0 = r.start@;
    let ts = r.ticks@;
    let last = after_ticks(s0, ts);
    &&& s0.nodes == o.nodes
    &&& s0.train_handler.trains@ == o.train_handler.trains@
    &&& s0.package_handler.packages@.len() == o.package_handler.packages@.len()
    &&& forall|j: int|
        0 <= j < o.package_handler.packages@.len() ==> refrozen(
            o.train_handler.trains@,
            #[trigger] o.package_handler.packages@[j],
            s0.package_handler.packages@[j],
        )
    &&& ts.len() <= max
    &&& ticks_ok(s0, ts)
    &&& r.total.0 == prev_total(ts, ts.len() as int)
    &&& r.end is Stuck ==> stuck_from(last, f)
    &&& !(r.end is Stuck) ==> f == last
    &&& r.end is AllDelivered <==> !(r.end is Stuck) && !has_outstanding(f)
    &&& r.end is OutOfTicks ==> ts.len() == max
    &&& !(r.end is Stuck) ==> frozen_heavy(f)
    &&& !(r.end is Stuck) && ts.len() > 0 ==> none_delivered(f)
}

/// What one train did during a tick: the line of the movement log, as values.
#[derive(Debug)]
pub struct TrainReport {
    /// Minutes elapsed by the end of this tick.
    pub elapsed: Minute,
    pub train: String,
    /// The station where the train stands, or the one it left.
    pub origin: String,
    pub in_transit: Vec<String>,
    /// The station the train travels to; empty when it stands.
    pub destination: String,
    pub delivered: Vec<String>,
}

/// Where a status places a train for the log: where it stands or the station it left, and the
/// station it travels to (empty when it stands).
pub open spec fn report_places(s: train::Status) -> (Seq<char>, Seq<char>) {
    match s {
        train::Status::StoppedAt(at) => (at@, seq![]),
        train::Status::DeliveringTo(o, d, _) => (o@, d@),
        train::Status::NotAvailable => (seq![], seq![]),
    }
}

/// `names` are the names of the packages `ps[sel[k]]`, in order.
pub open spec fn names_of(names: Seq<String>, ps: Seq<Package>, sel: Seq<int>) -> bool {
    &&& names.len() == sel.len()
    &&& forall|k: int| 0 <= k < names.len() ==> (#[trigger] names[k])@ == ps[sel[k]].id@
}

/// `rep` is the log line of train `t` when `elapsed` minutes have passed.
pub open spec fn reports(rep: TrainReport, t: Train, ps: Seq<Package>, elapsed: Minute) -> bool {
    &&& rep.elapsed == elapsed
    &&& rep.train@ == t.id@
    &&& rep.origin@ == report_places(t.status).0
    &&& rep.destination@ == report_places(t.status).1
    &&& names_of(rep.in_transit@, ps, positions(ps, package::carried_by(t.id@)))
    &&& names_of(rep.delivered@, ps, positions(ps, package::delivered_by(t.id@)))
}

/// No train carries more than its capacity, and each carries exactly the weight of the packages
/// on board it. Every public operation of the system keeps `wf`, so this holds between any two calls.
pub proof fn lemma_load_within_capacity(s: TrainFreightSystem, i: int)
    requires
        s.wf(),
        0 <= i < s.train_handler.trains@.len(),
    ensures
        s.train_handler.trains@[i].load_size.0 <= s.train_handler.trains@[i].max_capacity.0,
        s.train_handler.trains@[i].load_size.0 == package::carried_weight(
            s.package_handler.packages@,
            s.train_handler.trains@[i].id@,
        ),
{
    assert(s.train_handler.trains@[i].wf());
}

/// A package that a tick completes was delivered during that tick: the train that carried it
/// stopped at the package's destination and is named as the one that delivered it. (At the start
/// of a tick no package is delivered-but-not-completed, since every tick ends with the sweep.)
pub proof fn lemma_completed_was_delivered(ts: Seq<Train>, a: Package, b: Package, c: Package)
    requires
        train::after_arrivals(ts, a, b, ts.len() as int),
        package::swept(b, c),
        !(a.status is Completed),
        !(a.status is Delivered),
        c.status is Completed,
    ensures
        b.status is Delivered,
        exists|i: int|
            0 <= i < ts.len() && (#[trigger] ts[i]).status is StoppedAt && ts[i].status->StoppedAt_0@ == a.destination@
                && package::carried_by(ts[i].id@)(a) && b.status->Delivered_0@ == ts[i].id@,
{
    if forall|i: int| 0 <= i < ts.len() ==> !((#[trigger] ts[i]).status is StoppedAt && package::carried_by(ts[i].id@)(a)) {
        assert(b == a);
    } else {
        let i = choose|i: int| 0 <= i < ts.len() && (#[trigger] ts[i]).status is StoppedAt && package::carried_by(ts[i].id@)(a);
        assert(train::unloaded(a, b, ts[i].status->StoppedAt_0@, ts[i].id@));
    }
}

/// The network, the fleet and the packages: one value that the engine works on.
#[derive(Debug, Default)]
pub struct TrainFreightSystem {
    pub nodes: Vec<Node>,
    pub train_handler: TrainHandler,
    pub package_handler: PackageHandler,
}

impl TrainFreightSystem {
    pub open spec fn wf(&self) -> bool {
        &&& graph_wf(self.nodes@)
        &&& self.train_handler.wf()
        &&& self.package_handler.wf()
        &&& loads_consistent(self.train_handler.trains@, self.package_handler.packages@)
    }

    /// An empty system.
    pub fn new() -> (r: TrainFreightSystem)
        ensures
            r.wf(),
            r.nodes@.len() == 0,
            r.train_handler.trains@.len() == 0,
            r.package_handler.packages@.len() == 0,
    {
        TrainFreightSystem {
            nodes: Vec::new(),
            train_handler: TrainHandler { trains: Vec::new() },
            package_handler: PackageHandler { packages: Vec::new() },
        }
    }

    /// Registers a station, unless one of that name exists.
    pub fn add_node(&mut self, name: &str) -> (r: Result<(), Error>)
        requires
            old(self).wf(),
        ensures
            final(self).wf(),
            final(self).train_handler == old(self).train_handler,
            final(self).package_handler == old(self).package_handler,
            r is Err <==> node_pos(old(self).nodes@, name@) >= 0,
            r matches Err(e) ==> e.kind == ErrorKind::DuplicateStation && final(self).nodes@ == old(self).nodes@,
            r is Ok ==> final(self).nodes@.len() == old(self).nodes@.len() + 1 && final(self).nodes@.drop_last()
                == old(self).nodes@ && final(self).nodes@.last().id@ == name@ && final(self).nodes@.last().edges@.len()
                == 0,
    {
        if self.find_node_index_by_name(name).is_some() {
            return Err(Error::new(ErrorKind::DuplicateStation, "station already exists"));
        }
        let ghost g = self.nodes@;
        let node = Node::new(name);
        proof {
            lemma_push_node_wf(g, node);
        }
        self.nodes.push(node);
        assert(self.nodes@.drop_last() =~= g);
        Ok(())
    }

    fn find_node_index_by_name(&self, node_name: &str) -> (r: Option<usize>)
        ensures
            r is None <==> node_pos(self.nodes@, node_name@) < 0,
            r matches Some(i) ==> i == node_pos(self.nodes@, node_name@) && i < self.nodes@.len() && self.nodes@[i as int].id@
                == node_name@,
    {
        self.find_node_index_by_id(&NodeId(node_name.to_owned()))
    }

    fn find_node_index_by_id(&self, node_id: &NodeId) -> (r: Option<usize>)
        ensures
            r is None <==> node_pos(self.nodes@, node_id@) < 0,
            r matches Some(i) ==> i == node_pos(self.nodes@, node_id@) && i < self.nodes@.len() && self.nodes@[i as int].id@
                == node_id@,
    {
        let mut i: usize = 0;
        while i < self.nodes.len()
            invariant
                i <= self.nodes@.len(),
                forall|j: int| 0 <= j < i ==> !node_named(node_id@)(#[trigger] self.nodes@[j]),
            decreases self.nodes@.len() - i,
        {
            if self.nodes[i].id.0 == node_id.0 {
                proof {
                    lemma_first_index_is(self.nodes@, node_named(node_id@), i as int);
                }
                return Some(i);
            }
            i = i + 1;
        }
        proof {
            lemma_first_index_is(self.nodes@, node_named(node_id@), -1);
        }
        None
    }
    /// Connects two registered stations in both directions, unless either already has an edge of that name.
    pub fn add_edge(&mut self, name: &str, node_1: &str, node_2: &str, travel_time: Minute) -> (r: Result<(), Error>)
        requires
            old(self).wf(),
        ensures
            final(self).wf(),
            final(self).train_handler == old(self).train_handler,
            final(self).package_handler == old(self).package_handler,
            ({
                let g = old(self).nodes@;
                let pos_1 = node_pos(g, node_1@);
                let pos_2 = node_pos(g, node_2@);
                &&& r matches Err(e) ==> final(self).nodes@ == g
                &&& r matches Err(e) ==> (e.kind == ErrorKind::NodeNotFound <==> pos_1 < 0 || pos_2 < 0)
                &&& r matches Err(e) ==> (e.kind == ErrorKind::SameStation <==> pos_1 >= 0 && pos_1 == pos_2)
                &&& r matches Err(e) ==> (e.kind == ErrorKind::DuplicateEdge <==> pos_1 >= 0 && pos_2 >= 0 && pos_1 != pos_2
                    && (first_index(g[pos_1].edges@, edge_named(name@)) >= 0 || first_index(
                    g[pos_2].edges@,
                    edge_named(name@),
                ) >= 0))
                &&& r is Ok <==> pos_1 >= 0 && pos_2 >= 0 && pos_1 != pos_2 && first_index(g[pos_1].edges@, edge_named(name@)) < 0
                    && first_index(g[pos_2].edges@, edge_named(name@)) < 0
                &&& r is Ok ==> final(self).nodes@.len() == g.len() && (forall|i: int|
                    0 <= i < g.len() && i != pos_1 && i != pos_2 ==> #[trigger] final(self).nodes@[i] == g[i])
                    && final(self).nodes@[pos_1].id == g[pos_1].id && final(self).nodes@[pos_2].id == g[pos_2].id
                    && final(self).nodes@[pos_1].edges@.drop_last() == g[pos_1].edges@ && final(self).nodes@[pos_2].edges@.drop_last()
                    == g[pos_2].edges@ && final(self).nodes@[pos_1].edges@.len() == g[pos_1].edges@.len() + 1
                    && final(self).nodes@[pos_2].edges@.len() == g[pos_2].edges@.len() + 1 && final(self).nodes@[pos_1].edges@.last().id@ == name@
                    && final(self).nodes@[pos_1].edges@.last().node@ == node_2@ && final(self).nodes@[pos_1].edges@.last().travel_time
                    == travel_time && final(self).nodes@[pos_2].edges@.last().id@ == name@
                    && final(self).nodes@[pos_2].edges@.last().node@ == node_1@
                    && final(self).nodes@[pos_2].edges@.last().travel_time == travel_time
            }),
    {
        let node_1_pos = match self.find_node_index_by_name(node_1) {
            Some(pos) => pos,
            None => {
                return Err(Error::new(ErrorKind::NodeNotFound, "first station does not exist"));
            },
        };
        let node_2_pos = match self.find_node_index_by_name(node_2) {
            Some(pos) => pos,
            None => {
                return Err(Error::new(ErrorKind::NodeNotFound, "second station does not exist"));
            },
        };
        if node_1_pos == node_2_pos {
            return Err(Error::new(ErrorKind::SameStation, "an edge needs two different stations"));
        }
        let edge_1 = Edge::new(name, NodeId(node_2.to_owned()), travel_time);
        let edge_2 = Edge::new(name, NodeId(node_1.to_owned()), travel_time);
        let ghost g = self.nodes@;
        // Both sides are checked before either changes, so a refused edge leaves no half behind.
        if self.nodes[node_2_pos].find_edge_with_name(&edge_2.id) {
            return Err(Error::new(ErrorKind::DuplicateEdge, "edge already exists at the second station"));
        }
        match self.nodes[node_1_pos].add_edge(edge_1) {
            Ok(()) => {},
            Err(e) => {
                assert(self.nodes@ =~= g);
                return Err(e);
            },
        }
        let ghost g1 = self.nodes@;
        let added = self.nodes[node_2_pos].add_edge(edge_2);
        assert(added is Ok);
        proof {
            let (pos_1, pos_2) = (node_1_pos as int, node_2_pos as int);
            let h = self.nodes@;
            assert(h == g.update(pos_1, h[pos_1]).update(pos_2, h[pos_2]));
            assert forall|i: int| 0 <= i < g.len() implies (#[trigger] g[i]).id@ == h[i].id@ by {}
            assert forall|x: Seq<char>| node_pos(h, x) == node_pos(g, x) by {
                lemma_node_pos_same_names(g, h, x);
            }
            lemma_node_pos_unique(g, pos_1);
            lemma_node_pos_unique(g, pos_2);
            assert(h[pos_1].edges@.drop_last() =~= g[pos_1].edges@);
            assert(h[pos_2].edges@.drop_last() =~= g[pos_2].edges@);
            assert forall|i: int, k: int|
                0 <= i < h.len() && 0 <= k < h[i].edges@.len() implies node_pos(h, (#[trigger] h[i].edges@[k]).node@)
                >= 0 by {
                if (i == pos_1 || i == pos_2) && k == h[i].edges@.len() - 1 {
                } else {
                    assert(h[i].edges@[k] == g[i].edges@[k]);
                }
            }
            // How the first edge between two stations changes.
            assert forall|i: int, j: int| 0 <= i < h.len() && 0 <= j < h.len() implies #[trigger] edge_pos(h, i, j)
                == if edge_pos(g, i, j) >= 0 {
                edge_pos(g, i, j)
            } else if (i == pos_1 && j == pos_2) || (i == pos_2 && j == pos_1) {
                g[i].edges@.len() as int
            } else {
                -1
            } by {
                if i == pos_1 || i == pos_2 {
                    lemma_first_index_push(g[i].edges@, leads_to(g[j].id@), h[i].edges@.last());
                    assert(h[i].edges@ =~= g[i].edges@.push(h[i].edges@.last()));
                    assert(h[j].id@ == g[j].id@);
                    assert(leads_to(g[j].id@)(h[i].edges@.last()) <==> (i == pos_1 && j == pos_2) || (i == pos_2 && j == pos_1));
                } else {
                    assert(h[i] == g[i]);
                    assert(h[j].id@ == g[j].id@);
                }
            }
            assert forall|i: int, j: int| 0 <= i < h.len() && 0 <= j < h.len() implies adjacent(h, i, j) == adjacent(h, j, i)
                && edge_time(h, i, j) == edge_time(h, j, i) by {
                assert(adjacent(g, i, j) == adjacent(g, j, i));
                assert(edge_pos(h, i, j) == edge_pos(h, i, j));
                assert(edge_pos(h, j, i) == edge_pos(h, j, i));
                lemma_first_index(g[i].edges@, leads_to(g[j].id@));
                lemma_first_index(g[j].edges@, leads_to(g[i].id@));
                if adjacent(g, i, j) {
                    assert(h[i].edges@[edge_pos(g, i, j)] == g[i].edges@[edge_pos(g, i, j)]);
                    assert(h[j].edges@[edge_pos(g, j, i)] == g[j].edges@[edge_pos(g, j, i)]);
                }
            }
        }
        Ok(())
    }

    /// Registers a train stopped at a registered station, then re-evaluates which packages the
    /// enlarged fleet can carry.
    pub fn add_train(&mut self, name: &str, max_capacity: Kilogram, location: &str) -> (r: Result<(), Error>)
        requires
            old(self).wf(),
        ensures
            final(self).wf(),
            final(self).nodes == old(self).nodes,
            r matches Err(e) ==> final(self).train_handler.trains@ == old(self).train_handler.trains@,
            r matches Err(e) ==> final(self).package_handler == old(self).package_handler,
            r is Ok ==> final(self).package_handler.packages@.len() == old(self).package_handler.packages@.len(),
            r is Ok ==> forall|j: int|
                0 <= j < old(self).package_handler.packages@.len() ==> refrozen(
                    final(self).train_handler.trains@,
                    #[trigger] old(self).package_handler.packages@[j],
                    final(self).package_handler.packages@[j],
                ),
            r matches Err(e) ==> (e.kind == ErrorKind::NodeNotFound <==> node_pos(old(self).nodes@, location@) < 0),
            r matches Err(e) ==> (e.kind == ErrorKind::DuplicateTrain <==> node_pos(old(self).nodes@, location@) >= 0
                && first_index(old(self).train_handler.trains@, train::train_named(name@)) >= 0),
            r is Ok <==> node_pos(old(self).nodes@, location@) >= 0 && first_index(
                old(self).train_handler.trains@,
                train::train_named(name@),
            ) < 0,
            r is Ok ==> {
                let ts = final(self).train_handler.trains@;
                &&& ts.len() == old(self).train_handler.trains@.len() + 1
                &&& ts.drop_last() == old(self).train_handler.trains@
                &&& ts.last().id@ == name@
                &&& ts.last().max_capacity == max_capacity
                &&& ts.last().load_size.0 == 0
                &&& ts.last().status matches train::Status::StoppedAt(at) && at@ == location@
            },
    {
        let pos = match self.find_node_index_by_name(location) {
            Some(pos) => pos,
            None => {
                return Err(Error::new(ErrorKind::NodeNotFound, "station does not exist"));
            },
        };
        let ghost ps = self.package_handler.packages@;
        let ghost ts = self.train_handler.trains@;
        let r = self.train_handler.add_train(name, max_capacity, &self.nodes[pos].id);
        proof {
            if r is Ok {
                let ts2 = self.train_handler.trains@;
                assert forall|i: int| 0 <= i < ts2.len() implies (#[trigger] ts2[i]).load_size.0 == package::carried_weight(
                    ps,
                    ts2[i].id@,
                ) by {
                    if i == ts.len() {
                        lemma_no_load_on_new_train(ts, ps, name@);
                    } else {
                        assert(ts2[i] == ts[i]);
                    }
                }
                assert forall|j: int|
                    0 <= j < ps.len() && ((#[trigger] ps[j]).status matches package::Status::LoadedTo(t)) implies exists|i: int|
                    0 <= i < ts2.len() && (#[trigger] ts2[i]).id@ == ps[j].status->LoadedTo_0@ by {
                    let i = choose|i: int| 0 <= i < ts.len() && (#[trigger] ts[i]).id@ == ps[j].status->LoadedTo_0@;
                    assert(ts2[i] == ts[i]);
                }
            }
        }
        if let Ok(()) = r {
            // The fleet changed: frozen packages that a train can now carry wait again.
            let ghost before = *self;
            self.blacklist_packages_that_cant_be_transported();
            assert forall|j: int| 0 <= j < ps.len() implies refrozen(
                self.train_handler.trains@,
                #[trigger] ps[j],
                self.package_handler.packages@[j],
            ) by {
                assert(refrozen(before.train_handler.trains@, before.package_handler.packages@[j], self.package_handler.packages@[j]));
            }
        }
        r
    }

    /// Registers a package between two registered stations.
    pub fn add_package(&mut self, name: &str, weight: Kilogram, origin: &str, destination: &str) -> (r: Result<
        (),
        Error,
    >)
        requires
            old(self).wf(),
        ensures
            final(self).wf(),
            final(self).nodes == old(self).nodes,
            final(self).train_handler == old(self).train_handler,
            r matches Err(e) ==> final(self).package_handler.packages@ == old(self).package_handler.packages@,
            r matches Err(e) ==> (e.kind == ErrorKind::NodeNotFound <==> node_pos(old(self).nodes@, origin@) < 0
                || node_pos(old(self).nodes@, destination@) < 0),
            r matches Err(e) ==> (e.kind == ErrorKind::DuplicatePackage <==> node_pos(old(self).nodes@, origin@) >= 0
                && node_pos(old(self).nodes@, destination@) >= 0 && first_index(
                old(self).package_handler.packages@,
                package::package_named(name@),
            ) >= 0),
            r is Ok <==> node_pos(old(self).nodes@, origin@) >= 0 && node_pos(old(self).nodes@, destination@) >= 0
                && first_index(old(self).package_handler.packages@, package::package_named(name@)) < 0,
            r is Ok ==> {
                let ps = final(self).package_handler.packages@;
                &&& ps.len() == old(self).package_handler.packages@.len() + 1
                &&& ps.drop_last() == old(self).package_handler.packages@
                &&& ps.last().id@ == name@
                &&& ps.last().weight == weight
                &&& ps.last().destination@ == destination@
                &&& package::initial_status(ps.last().status, origin@, destination@)
            },
    {
        let origin_pos = match self.find_node_index_by_name(origin) {
            Some(pos) => pos,
            None => {
                return Err(Error::new(ErrorKind::NodeNotFound, "origin station does not exist"));
            },
        };
        let destination_pos = match self.find_node_index_by_name(destination) {
            Some(pos) => pos,
            None => {
                return Err(Error::new(ErrorKind::NodeNotFound, "destination station does not exist"));
            },
        };
        let origin_id = NodeId(self.nodes[origin_pos].id.0.clone());
        let destination_id = NodeId(self.nodes[destination_pos].id.0.clone());
        let ghost ps = self.package_handler.packages@;
        let ghost ts = self.train_handler.trains@;
        let r = self.package_handler.add_package(name, weight, origin_id, destination_id);
        proof {
            if r is Ok {
                let ps2 = self.package_handler.packages@;
                assert(ps2 == ps.push(ps2.last()));
                assert forall|i: int| 0 <= i < ts.len() implies (#[trigger] ts[i]).load_size.0 == package::carried_weight(
                    ps2,
                    ts[i].id@,
                ) by {
                    package::lemma_carried_weight_push(ps, ps2.last(), ts[i].id@);
                }
                assert forall|j: int|
                    0 <= j < ps2.len() && ((#[trigger] ps2[j]).status matches package::Status::LoadedTo(t)) implies exists|i: int|
                    0 <= i < ts.len() && (#[trigger] ts[i]).id@ == ps2[j].status->LoadedTo_0@ by {
                    assert(j < ps.len());
                    assert(ps2[j] == ps[j]);
                }
            }
        }
        r
    }
    /// Minutes from one station to another by the first edge between them; 0 when there is none.
    fn edge_travel_time(&self, from: usize, to: usize) -> (r: u32)
        ensures
            r == edge_time(self.nodes@, from as int, to as int),
    {
        if from >= self.nodes.len() || to >= self.nodes.len() {
            return 0;
        }
        match self.nodes[from].find_edge_with_node(&self.nodes[to].id) {
            Some(edge) => edge.travel_time.0,
            None => 0,
        }
    }

    /// Total minutes along a route, held at `u64::MAX` should it exceed that.
    pub fn get_travel_time_from_routes(&self, routes: &Vec<usize>) -> (r: u64)
        ensures
            r == saturate(route_time(self.nodes@, route_view(routes@)) as int),
    {
        let ghost g = self.nodes@;
        let ghost rv = route_view(routes@);
        if routes.len() == 0 {
            return 0;
        }
        let mut travel_time: u64 = 0;
        let mut i: usize = 1;
        assert(rv.take(1).len() == 1);
        while i < routes.len()
            invariant
                g == self.nodes@,
                rv == route_view(routes@),
                1 <= i <= routes@.len(),
                travel_time == saturate(route_time(g, rv.take(i as int)) as int),
            decreases routes@.len() - i,
        {
            let e = self.edge_travel_time(routes[i - 1], routes[i]) as u64;
            proof {
                let t = rv.take(i + 1);
                assert(t.drop_last() =~= rv.take(i as int));
                assert(t[t.len() - 2] == routes@[i - 1] as int);
                assert(t.last() == routes@[i as int] as int);
            }
            travel_time = if travel_time > u64::MAX - e {
                u64::MAX
            } else {
                travel_time + e
            };
            i = i + 1;
        }
        assert(rv.take(routes@.len() as int) =~= rv);
        travel_time
    }

    /// Appends, in depth-first order, every simple route to `destination` that extends `routes`.
    fn get_all_possible_routes(&self, destination: usize, possible_paths: &mut Vec<Vec<usize>>, routes: &mut Vec<usize>)
        requires
            old(routes)@.len() > 0,
        ensures
            final(routes)@ == old(routes)@,
            routes_view(final(possible_paths)@) == routes_view(old(possible_paths)@) + dfs(
                self.nodes@,
                route_view(old(routes)@),
                destination as int,
                0,
            ),
        decreases self.nodes@.len() - old(routes)@.len(),
    {
        let ghost g = self.nodes@;
        let ghost pv = route_view(routes@);
        let ghost start = routes_view(possible_paths@);
        let last = routes[routes.len() - 1];
        if routes.len() >= self.nodes.len() || last >= self.nodes.len() {
            assert(dfs(g, pv, destination as int, 0) == Seq::<Seq<int>>::empty());
            assert(start + Seq::<Seq<int>>::empty() =~= start);
            return;
        }
        let mut k: usize = 0;
        while k < self.nodes[last].edges.len()
            invariant
                g == self.nodes@,
                routes@ == old(routes)@,
                pv == route_view(routes@),
                0 < routes@.len() < g.len(),
                last == routes@.last(),
                last < g.len(),
                k <= g[last as int].edges@.len(),
                start == routes_view(old(possible_paths)@),
                routes_view(possible_paths@) + dfs(g, pv, destination as int, k as int) == start + dfs(
                    g,
                    pv,
                    destination as int,
                    0,
                ),
            decreases g[last as int].edges@.len() - k,
        {
            let ghost before = routes_view(possible_paths@);
            let ghost rest = dfs(g, pv, destination as int, k + 1);
            assert(pv.last() == last as int);
            assert(pv.len() == routes@.len());
            let found = self.find_node_index_by_id(&self.nodes[last].edges[k].node);
            if let Some(n) = found {
                if !route_contains(routes, n) {
                    if n == destination {
                        let mut path = copy_route(routes);
                        path.push(n);
                        possible_paths.push(path);
                        proof {
                            assert(route_view(path@) =~= pv.push(n as int));
                            assert(routes_view(possible_paths@) =~= before.push(pv.push(n as int)));
                            assert(before + (seq![pv.push(n as int)] + rest) =~= before.push(pv.push(n as int)) + rest);
                        }
                    } else {
                        routes.push(n);
                        proof {
                            assert(route_view(routes@) =~= pv.push(n as int));
                        }
                        self.get_all_possible_routes(destination, possible_paths, routes);
                        routes.pop();
                        proof {
                            assert(routes@ =~= old(routes)@);
                            let sub = dfs(g, pv.push(n as int), destination as int, 0);
                            assert(before + (sub + rest) =~= (before + sub) + rest);
                        }
                    }
                } else {
                    assert(before + (Seq::<Seq<int>>::empty() + rest) =~= before + rest);
                }
            } else {
                assert(before + (Seq::<Seq<int>>::empty() + rest) =~= before + rest);
            }
            k = k + 1;
        }
        assert(dfs(g, pv, destination as int, k as int) == Seq::<Seq<int>>::empty());
        assert(routes_view(possible_paths@) + Seq::<Seq<int>>::empty() =~= routes_view(possible_paths@));
    }

    /// The quickest simple route between two stations, the first found among equals; empty when none exists.
    pub fn get_least_time_path_to_move_from_point_a_to_point_b(&self, node_a: usize, node_b: usize) -> (r: Vec<usize>)
        ensures
            route_view(r@) == least_time_route(self.nodes@, node_a as int, node_b as int),
            node_a < self.nodes@.len() ==> in_range(self.nodes@, route_view(r@)),
    {
        proof {
            if node_a < self.nodes@.len() {
                lemma_least_time_route_in_range(self.nodes@, node_a as int, node_b as int);
            }
        }
        let ghost g = self.nodes@;
        let mut possible_routes: Vec<Vec<usize>> = Vec::new();
        if node_a == node_b {
            possible_routes.push(vec![node_a]);
            assert(routes_view(possible_routes@) =~= seq![seq![node_a as int]]) by {
                assert(route_view(possible_routes@[0]@) =~= seq![node_a as int]);
            }
        } else {
            let mut routes: Vec<usize> = vec![node_a];
            assert(route_view(routes@) =~= seq![node_a as int]);
            self.get_all_possible_routes(node_b, &mut possible_routes, &mut routes);
            assert(routes_view(possible_routes@) =~= dfs(g, seq![node_a as int], node_b as int, 0));
        }
        let ghost rs = routes_view(possible_routes@);
        let mut best: Option<usize> = None;
        let mut best_time: u64 = 0;
        let mut i: usize = 0;
        while i < possible_routes.len()
            invariant
                g == self.nodes@,
                rs == routes_view(possible_routes@),
                i <= rs.len(),
                best is None <==> best_route_index(g, rs, i as int) < 0,
                best matches Some(b) ==> b == best_route_index(g, rs, i as int) && b < i && best_time == saturate(
                    route_time(g, rs[b as int]) as int,
                ),
            decreases rs.len() - i,
        {
            let travel_time = self.get_travel_time_from_routes(&possible_routes[i]);
            if best.is_none() || travel_time < best_time {
                best = Some(i);
                best_time = travel_time;
            }
            i = i + 1;
        }
        match best {
            Some(b) => copy_route(&possible_routes[b]),
            None => Vec::new(),
        }
    }
    /// Takes waiting package `j` on board train `k` if it fits; otherwise changes nothing.
    fn load_into(&mut self, k: usize, j: usize)
        requires
            old(self).wf(),
            k < old(self).train_handler.trains@.len(),
            j < old(self).package_handler.packages@.len(),
        ensures
            final(self).wf(),
            final(self).nodes == old(self).nodes,
            same_entities(*old(self), *final(self)),
            final(self).train_handler.trains@ == old(self).train_handler.trains@.update(
                k as int,
                final(self).train_handler.trains@[k as int],
            ),
            final(self).package_handler.packages@ == old(self).package_handler.packages@.update(
                j as int,
                final(self).package_handler.packages@[j as int],
            ),
            final(self).train_handler.trains@[k as int].status == old(self).train_handler.trains@[k as int].status,
            ({
                let t = old(self).train_handler.trains@[k as int];
                let p = old(self).package_handler.packages@[j as int];
                let q = final(self).package_handler.packages@[j as int];
                let t2 = final(self).train_handler.trains@[k as int];
                &&& p.status is DroppedAt && t.load_size.0 + p.weight.0 <= t.max_capacity.0 ==> (q.status matches package::Status::LoadedTo(x) && x@ == t.id@)
                    && t2.load_size.0 == t.load_size.0 + p.weight.0
                &&& !(p.status is DroppedAt && t.load_size.0 + p.weight.0 <= t.max_capacity.0) ==> q == p && t2.load_size == t.load_size
            }),
    {
        let ghost ts = self.train_handler.trains@;
        let ghost ps = self.package_handler.packages@;
        let waiting = match &self.package_handler.packages[j].status {
            package::Status::DroppedAt(_, _) => true,
            _ => false,
        };
        if waiting {
            proof {
                assert(ts[k as int].wf());
            }
            self.train_handler.trains[k].load_package(&mut self.package_handler.packages[j]);
            proof {
                let ts2 = self.train_handler.trains@;
                let ps2 = self.package_handler.packages@;
                assert(ps2 == ps.update(j as int, ps2[j as int]));
                assert(ts2 == ts.update(k as int, ts2[k as int]));
                assert forall|i: int| 0 <= i < ts2.len() implies (#[trigger] ts2[i]).load_size.0 == package::carried_weight(
                    ps2,
                    ts2[i].id@,
                ) by {
                    package::lemma_carried_weight_update(ps, j as int, ps2[j as int], ts2[i].id@);
                    if i != k {
                        assert(ts[i].id@ != ts[k as int].id@);
                    }
                }
                assert forall|l: int|
                    0 <= l < ps2.len() && ((#[trigger] ps2[l]).status matches package::Status::LoadedTo(x)) implies exists|i: int|
                    0 <= i < ts2.len() && (#[trigger] ts2[i]).id@ == ps2[l].status->LoadedTo_0@ by {
                    if l == j {
                        assert(ts2[k as int].id@ == ps2[l].status->LoadedTo_0@);
                    } else {
                        assert(ps2[l] == ps[l]);
                        let i = choose|i: int| 0 <= i < ts.len() && (#[trigger] ts[i]).id@ == ps[l].status->LoadedTo_0@;
                        assert(ts2[i].id == ts[i].id);
                    }
                }
                assert forall|i: int| 0 <= i < ts2.len() implies (#[trigger] ts2[i]).wf() by {
                    if i != k {
                        assert(ts2[i] == ts[i]);
                    }
                }
                assert forall|a: int, b: int|
                    0 <= a < ps2.len() && 0 <= b < ps2.len() && a != b implies #[trigger] ps2[a].id@ != #[trigger] ps2[b].id@ by {
                    assert(ps2[a].id == ps[a].id);
                    assert(ps2[b].id == ps[b].id);
                }
                assert forall|a: int, b: int|
                    0 <= a < ts2.len() && 0 <= b < ts2.len() && a != b implies #[trigger] ts2[a].id@ != #[trigger] ts2[b].id@ by {
                    assert(ts2[a].id == ts[a].id);
                    assert(ts2[b].id == ts[b].id);
                }
            }
        } else {
            assert(self.package_handler.packages@ =~= ps.update(j as int, ps[j as int]));
            assert(self.train_handler.trains@ =~= ts.update(k as int, ts[k as int]));
        }
    }

    /// Sends train `k`, stopped at `origin`, to the neighbouring station `destination`.
    fn send_train(&mut self, k: usize, origin: &NodeId, destination: &NodeId, travel_time: Minute)
        requires
            old(self).wf(),
            k < old(self).train_handler.trains@.len(),
            old(self).train_handler.trains@[k as int].status matches train::Status::StoppedAt(at) && at@ == origin@,
            one_hop(old(self).nodes@, origin@, destination@, travel_time.0),
        ensures
            final(self).wf(),
            only_dispatched(*old(self), *final(self)),
            final(self).package_handler == old(self).package_handler,
            final(self).train_handler.trains@ == old(self).train_handler.trains@.update(
                k as int,
                final(self).train_handler.trains@[k as int],
            ),
            train::same_but_status(old(self).train_handler.trains@[k as int], final(self).train_handler.trains@[k as int]),
            final(self).train_handler.trains@[k as int].status matches train::Status::DeliveringTo(o, d, m) && o@
                == origin@ && d@ == destination@ && m == travel_time,
    {
        let ghost ts = self.train_handler.trains@;
        self.train_handler.trains[k].move_to(origin, destination, travel_time);
        proof {
            let ts2 = self.train_handler.trains@;
            assert(ts2 == ts.update(k as int, ts2[k as int]));
            train::lemma_statuses_only(ts, ts2, self.package_handler.packages@);
        }
    }

    /// The quickest route of a package from where it waits to its destination; empty if it does not wait.
    fn get_least_time_path_to_deliver_package(&self, package: &Package) -> (r: Vec<usize>)
        ensures
            route_view(r@) == package_route(self.nodes@, *package),
            in_range(self.nodes@, route_view(r@)),
    {
        let origin = match package.get_location() {
            Some(at) => self.find_node_index_by_id(at),
            None => None,
        };
        let destination = self.find_node_index_by_id(&package.destination);
        match (origin, destination) {
            (Some(a), Some(b)) => self.get_least_time_path_to_move_from_point_a_to_point_b(a, b),
            _ => {
                let none: Vec<usize> = Vec::new();
                assert(route_view(none@) =~= seq![]);
                none
            },
        }
    }

    /// The quickest routes of all waiting packages, in registration order.
    fn list_all_undelivered_packages_least_possible_routes(&self) -> (r: Vec<Vec<usize>>)
        ensures
            r@.len() == positions(self.package_handler.packages@, package::waiting()).len(),
            forall|k: int|
                0 <= k < r@.len() ==> route_view((#[trigger] r@[k])@) == package_route(
                    self.nodes@,
                    self.package_handler.packages@[positions(self.package_handler.packages@, package::waiting())[k]],
                ),
    {
        let packages = self.package_handler.list_undelivered_packages_mut();
        proof {
            lemma_positions(self.package_handler.packages@, package::waiting());
        }
        let mut packages_routes: Vec<Vec<usize>> = Vec::new();
        let mut i: usize = 0;
        while i < packages.len()
            invariant
                packages@.len() == positions(self.package_handler.packages@, package::waiting()).len(),
                forall|k: int| 0 <= k < packages@.len() ==> #[trigger] packages@[k] == positions(self.package_handler.packages@, package::waiting())[k],
                forall|k: int|
                    0 <= k < positions(self.package_handler.packages@, package::waiting()).len() ==> 0 <= #[trigger] positions(
                        self.package_handler.packages@,
                        package::waiting(),
                    )[k] < self.package_handler.packages@.len(),
                i <= packages@.len(),
                packages_routes@.len() == i,
                forall|k: int|
                    0 <= k < i ==> route_view((#[trigger] packages_routes@[k])@) == package_route(
                        self.nodes@,
                        self.package_handler.packages@[positions(self.package_handler.packages@, package::waiting())[k]],
                    ),
            decreases packages@.len() - i,
        {
            let j = packages[i];
            let routes = self.get_least_time_path_to_deliver_package(&self.package_handler.packages[j]);
            packages_routes.push(routes);
            i = i + 1;
        }
        packages_routes
    }
    /// Looks for a closer, lighter load off the anchor route: over the routes of the waiting packages,
    /// in order, the first with a detour station gives its last station off the anchor route.
    #[verifier::loop_isolation(false)]
    fn find_pickup_detour(&self, node_index: usize, biggest: usize, highest_routes: &Vec<usize>) -> (r: Option<usize>)
        requires
            biggest < self.train_handler.trains@.len(),
        ensures
            ({
                let g = self.nodes@;
                let ps = self.package_handler.packages@;
                let t = self.train_handler.trains@[biggest as int];
                let sel = positions(ps, package::waiting());
                let anchor = route_view(highest_routes@);
                &&& r is None ==> forall|a: int|
                    0 <= a < sel.len() ==> !has_detour(g, ps, t, node_index as int, anchor, package_route(g, #[trigger] ps[sel[a]]))
                &&& r matches Some(x) ==> x < g.len()
                &&& r matches Some(x) ==> exists|a: int|
                    0 <= a < sel.len() && has_detour(g, ps, t, node_index as int, anchor, package_route(g, #[trigger] ps[sel[a]]))
                        && x == last_outside(package_route(g, ps[sel[a]]), anchor) && forall|b: int|
                        0 <= b < a ==> !has_detour(g, ps, t, node_index as int, anchor, package_route(g, #[trigger] ps[sel[b]]))
            }),
    {
        let ghost g = self.nodes@;
        let ghost ps = self.package_handler.packages@;
        let ghost t = self.train_handler.trains@[biggest as int];
        let ghost sel = positions(ps, package::waiting());
        let ghost anchor = route_view(highest_routes@);
        let all_routes = self.list_all_undelivered_packages_least_possible_routes();
        let time2 = self.get_travel_time_from_routes(highest_routes);
        let mut a: usize = 0;
        while a < all_routes.len()
            invariant
                g == self.nodes@,
                ps == self.package_handler.packages@,
                t == self.train_handler.trains@[biggest as int],
                biggest < self.train_handler.trains@.len(),
                sel == positions(ps, package::waiting()),
                anchor == route_view(highest_routes@),
                time2 == saturate(route_time(g, anchor) as int),
                all_routes@.len() == sel.len(),
                forall|k: int| 0 <= k < all_routes@.len() ==> route_view((#[trigger] all_routes@[k])@) == package_route(g, ps[sel[k]]),
                a <= all_routes@.len(),
                forall|b: int| 0 <= b < a ==> !has_detour(g, ps, t, node_index as int, anchor, package_route(g, #[trigger] ps[sel[b]])),
            decreases all_routes@.len() - a,
        {
            let routes = &all_routes[a];
            let ghost rv = route_view(routes@);
            assert(rv == package_route(g, ps[sel[a as int]]));
            let mut first_outside: Option<usize> = None;
            let mut c: usize = routes.len();
            while c > 0
                invariant
                    g == self.nodes@,
                    ps == self.package_handler.packages@,
                    t == self.train_handler.trains@[biggest as int],
                    biggest < self.train_handler.trains@.len(),
                    anchor == route_view(highest_routes@),
                    time2 == saturate(route_time(g, anchor) as int),
                    rv == route_view(routes@),
                    c <= routes@.len(),
                    first_outside is None ==> forall|i: int| c <= i < rv.len() ==> anchor.contains(#[trigger] rv[i]),
                    first_outside matches Some(x) ==> last_outside(rv, anchor) == x,
                    forall|i: int| c <= i < rv.len() ==> !detour_via(g, ps, t, node_index as int, anchor, rv, i),
                decreases c,
            {
                c = c - 1;
                let check = routes[c];
                if !route_contains(highest_routes, check) {
                    if first_outside.is_none() {
                        proof {
                            lemma_last_outside(rv, anchor, c as int);
                        }
                        first_outside = Some(check);
                    }
                    if check < self.nodes.len() {
                        let time1 = self.edge_travel_time(check, node_index) as u64;
                        if time1 < time2 {
                            let packages = self.package_handler.positions_waiting_at(&self.nodes[check].id);
                            proof {
                                lemma_positions(ps, package::waiting_at(g[check as int].id@));
                            }
                            let mut k: usize = 0;
                            while k < packages.len()
                                invariant
                                    g == self.nodes@,
                                    ps == self.package_handler.packages@,
                                    t == self.train_handler.trains@[biggest as int],
                                    biggest < self.train_handler.trains@.len(),
                                    check < g.len(),
                                    packages@.len() == positions(ps, package::waiting_at(g[check as int].id@)).len(),
                                    forall|l: int| 0 <= l < packages@.len() ==> #[trigger] packages@[l] == positions(ps, package::waiting_at(g[check as int].id@))[l],
                                    forall|l: int| 0 <= l < packages@.len() ==> (#[trigger] packages@[l] as int) < ps.len()
                                        && package::waiting_at(g[check as int].id@)(ps[packages@[l] as int]),
                                    k <= packages@.len(),
                                    forall|l: int| 0 <= l < k ==> !(t.load_size.0 + ps[#[trigger] packages@[l] as int].weight.0 <= t.max_capacity.0),
                                decreases packages@.len() - k,
                            {
                                let j = packages[k];
                                if self.train_handler.trains[biggest].can_accomodate_package(&self.package_handler.packages[j]) {
                                    proof {
                                        assert(package::waiting_at(g[check as int].id@)(ps[j as int]));
                                        assert(rv[c as int] == check as int);
                                        assert(detour_via(g, ps, t, node_index as int, anchor, rv, c as int));
                                        lemma_last_outside_in(rv, anchor, c as int);
                                        lemma_least_time_route_in_range_of(g, ps[sel[a as int]]);
                                    }
                                    return first_outside;
                                }
                                k = k + 1;
                            }
                            proof {
                                assert forall|j: int| 0 <= j < ps.len() && package::waiting_at(g[check as int].id@)(#[trigger] ps[j])
                                    implies !(t.load_size.0 + ps[j].weight.0 <= t.max_capacity.0) by {
                                    let l = choose|l: int| 0 <= l < packages@.len() && positions(ps, package::waiting_at(g[check as int].id@))[l] == j;
                                    assert(packages@[l] == j);
                                }
                            }
                        }
                    }
                }
            }
            assert(!has_detour(g, ps, t, node_index as int, anchor, package_route(g, ps[sel[a as int]])));
            a = a + 1;
        }
        None
    }
    /// Of the given packages, in order, those whose quickest route passes through station `node_index`.
    fn get_packages_passing_to_node(&self, node_index: usize, packages: &Vec<usize>) -> (r: Vec<usize>)
        requires
            forall|k: int| 0 <= k < packages@.len() ==> #[trigger] packages@[k] < self.package_handler.packages@.len(),
        ensures
            r@ == passing(self.nodes@, self.package_handler.packages@, packages@, node_index as int),
    {
        let ghost g = self.nodes@;
        let ghost ps = self.package_handler.packages@;
        let mut filtered_packages: Vec<usize> = Vec::new();
        let mut i: usize = 0;
        while i < packages.len()
            invariant
                g == self.nodes@,
                ps == self.package_handler.packages@,
                i <= packages@.len(),
                forall|k: int| 0 <= k < packages@.len() ==> #[trigger] packages@[k] < ps.len(),
                filtered_packages@ == passing(g, ps, packages@.take(i as int), node_index as int),
            decreases packages@.len() - i,
        {
            proof {
                assert(packages@.take(i + 1).drop_last() =~= packages@.take(i as int));
            }
            let j = packages[i];
            let routes = self.get_least_time_path_to_deliver_package(&self.package_handler.packages[j]);
            if route_contains(&routes, node_index) {
                filtered_packages.push(j);
            }
            i = i + 1;
        }
        assert(packages@.take(packages@.len() as int) =~= packages@);
        filtered_packages
    }
    /// One dispatch attempt at a station: the largest train there either detours empty toward a
    /// closer load, or takes the packages routed through the next station of the anchor route
    /// (the longest quickest route among the packages waiting here) and leaves for that station.
    #[verifier::loop_isolation(false)]
    #[verifier::rlimit(60)]
    fn deliver_packages_in_node(&mut self, node_index: usize) -> (r: DeliveryResult)
        requires
            old(self).wf(),
            node_index < old(self).nodes@.len(),
        ensures
            final(self).wf(),
            only_dispatched(*old(self), *final(self)),
            ({
                let g = old(self).nodes@;
                let n = g[node_index as int].id@;
                let ts = old(self).train_handler.trains@;
                let ps = old(self).package_handler.packages@;
                let fs = final(self).package_handler.packages@;
                let b = train::largest_stopped_at(ts, n);
                let sel = positions(ps, package::waiting_at(n));
                let anchor = anchor_route(g, ps, sel);
                let hop = anchor[1];
                let all = positions(ps, package::waiting());
                let x = detour_target(g, ps, ts[b], node_index as int, anchor);
                let toward = least_time_route(g, node_index as int, x);
                let departed = r is TrainPicking || r is NotAllPackageLoaded || r is AllPackageLoaded;
                &&& r is NoPackages <==> sel.len() == 0
                &&& r is NoTrains <==> sel.len() > 0 && b < 0
                &&& r is NoRoute <==> sel.len() > 0 && b >= 0 && anchor.len() < 2
                &&& r is TrainPicking <==> sel.len() > 0 && b >= 0 && anchor.len() >= 2 && x >= 0 && toward.len() >= 2
                &&& !departed ==> final(self).train_handler.trains@ == ts && fs == ps
                &&& departed ==> {
                    &&& 0 <= b < ts.len()
                    &&& train::stopped_at(n)(ts[b])
                    &&& final(self).train_handler.trains@[b].id == ts[b].id
                    &&& final(self).train_handler.trains@[b].max_capacity == ts[b].max_capacity
                    &&& forall|i: int| 0 <= i < ts.len() && i != b ==> #[trigger] final(self).train_handler.trains@[i] == ts[i]
                }
                &&& r is TrainPicking ==> fs == ps && (final(self).train_handler.trains@[b].status matches train::Status::DeliveringTo(
                    o,
                    d,
                    m,
                ) && o@ == n && d@ == g[toward[1]].id@ && m.0 == edge_time(g, node_index as int, toward[1]))
                &&& (r is NotAllPackageLoaded || r is AllPackageLoaded) ==> {
                    let t2 = final(self).train_handler.trains@[b];
                    &&& final(self).train_handler.trains@[b].status matches train::Status::DeliveringTo(o, d, m) && o@ == n
                        && d@ == g[hop].id@ && m.0 == edge_time(g, node_index as int, hop)
                    &&& t2.id == ts[b].id && t2.max_capacity == ts[b].max_capacity
                &&& ({
                    let offered = passing(g, ps, sel.map_values(|i: int| i as usize), hop);
                    let load0 = ts[b].load_size.0 as int;
                    let cap = ts[b].max_capacity.0 as int;
                    &&& t2.load_size.0 == greedy_load(ps, offered, load0, cap, offered.len() as int)
                    &&& forall|l: int|
                        0 <= l < offered.len() ==> ((fs[#[trigger] offered[l] as int].status is LoadedTo) <==> greedy_load(
                            ps,
                            offered,
                            load0,
                            cap,
                            l,
                        ) + ps[offered[l] as int].weight.0 <= cap)
                })
                    &&& forall|j: int| 0 <= j < ps.len() ==> if package::waiting_at(n)(#[trigger] ps[j])
                        && package_route(g, ps[j]).contains(hop) {
                        loaded_or_left(ps[j], fs[j], ts[b].id@, t2)
                    } else {
                        fs[j] == ps[j]
                    }
                }
                &&& r is AllPackageLoaded ==> positions(fs, package::waiting_at(n)).len() == 0
                &&& r is NotAllPackageLoaded ==> positions(fs, package::waiting_at(n)).len() > 0
                &&& !(r is NotAllPackageLoaded || r is TrainPicking) ==> settled(g, final(self).train_handler.trains@, fs, n)
            }),
    {
        let ghost s0 = *self;
        let ghost g = self.nodes@;
        let ghost ts = self.train_handler.trains@;
        let ghost ps = self.package_handler.packages@;
        let node_id = NodeId(self.nodes[node_index].id.0.clone());
        let ghost n = node_id@;
        let ghost sel = positions(ps, package::waiting_at(n));
        let packages = self.package_handler.positions_waiting_at(&node_id);
        proof {
            lemma_positions(ps, package::waiting_at(n));
            train::lemma_largest_stopped_at(ts, n);
            assert(route_view(packages@) =~= sel);
        }
        if packages.len() == 0 {
            return DeliveryResult::NoPackages;
        }
        let biggest_train = match self.train_handler.largest_capacity_train_index(&node_id) {
            Some(k) => k,
            None => {
                assert(forall|i: int| 0 <= i < ts.len() ==> !train::stopped_at(n)(#[trigger] ts[i]));
                return DeliveryResult::NoTrains;
            },
        };
        let highest_routes = self.find_anchor_route(&packages);
        let ghost anchor = route_view(highest_routes@);
        if highest_routes.len() < 2 {
            proof {
                lemma_anchor_longest(g, ps, sel);
                assert forall|j: int| 0 <= j < ps.len() && package::waiting_at(n)(#[trigger] ps[j]) implies package_route(g, ps[j]).len() < 2 by {
                    assert(sel.contains(j));
                    let k = choose|k: int| 0 <= k < sel.len() && sel[k] == j;
                    assert(package_route(g, ps[sel[k]]).len() <= anchor_route(g, ps, sel).len());
                }
            }
            return DeliveryResult::NoRoute;
        }
        let destination = highest_routes[1];
        assert(anchor[1] == destination as int);
        let detour = self.find_pickup_detour(node_index, biggest_train, &highest_routes);
        proof {
            let t = ts[biggest_train as int];
            let all = positions(ps, package::waiting());
            let pred = offers_detour(g, ps, t, node_index as int, anchor);
            match detour {
                Some(x) => {
                    let a = choose|a: int|
                        0 <= a < all.len() && has_detour(g, ps, t, node_index as int, anchor, package_route(g, #[trigger] ps[all[a]]))
                            && x == last_outside(package_route(g, ps[all[a]]), anchor) && forall|c: int|
                            0 <= c < a ==> !has_detour(g, ps, t, node_index as int, anchor, package_route(g, #[trigger] ps[all[c]]));
                    assert forall|c: int| 0 <= c < all.len() && (a < 0 || c < a) implies !pred(#[trigger] all[c]) by {}
                    crate::util::search::lemma_first_index_is(all, pred, a);
                },
                None => {
                    assert forall|c: int| 0 <= c < all.len() implies !pred(#[trigger] all[c]) by {}
                    crate::util::search::lemma_first_index_is(all, pred, -1);
                },
            }
        }
        if let Some(target) = detour {
            // One hop along the quickest route toward the station with the load.
            let toward = self.get_least_time_path_to_move_from_point_a_to_point_b(node_index, target);
            if toward.len() >= 2 {
                assert(route_view(toward@)[1] == toward@[1] as int);
                let next = toward[1];
                let time = self.edge_travel_time(node_index, next);
                let next_id = NodeId(self.nodes[next].id.0.clone());
                proof {
                    lemma_least_time_route_simple(g, node_index as int, target as int);
                    lemma_node_pos_unique(g, node_index as int);
                    lemma_node_pos_unique(g, next as int);
                    let tv = route_view(toward@);
                    assert(adjacent(g, tv[0], tv[0int + 1]));
                    train::lemma_largest_stopped_at(ts, n);
                }
                self.send_train(biggest_train, &node_id, &next_id, Minute(time));
                return DeliveryResult::TrainPicking;
            }
        }
        let filtered_packages = self.get_packages_passing_to_node(destination, &packages);
        proof {
            assert(ps.len() == self.package_handler.packages.len());
            lemma_passing_waiting(g, ps, packages@, n, destination as int);
            lemma_offered_distinct(g, ps, packages@, n, destination as int);
            assert forall|k: int| 0 <= k < packages@.len() implies #[trigger] packages@[k] == sel.map_values(|i: int| i as usize)[k] by {
                assert(route_view(packages@)[k] == packages@[k] as int);
            }
            assert(packages@ =~= sel.map_values(|i: int| i as usize));
        }
        self.load_passing_packages(biggest_train, &filtered_packages);
        let travel_time = self.edge_travel_time(node_index, destination);
        let destination_id = NodeId(self.nodes[destination].id.0.clone());
        proof {
            // The anchor route starts here and its next station is a neighbour.
            lemma_anchor_route_is_one(g, ps, sel);
            let k = choose|k: int| 0 <= k < sel.len() && anchor_route(g, ps, sel) == package_route(g, ps[#[trigger] sel[k]]);
            assert(package::waiting_at(n)(ps[sel[k]]));
            lemma_package_route_simple(g, ps[sel[k]]);
            lemma_node_pos_unique(g, node_index as int);
            lemma_node_pos_unique(g, destination as int);
            assert(adjacent(g, anchor[0], anchor[0int + 1]));
            train::lemma_largest_stopped_at(ts, n);
        }
        let ghost loaded = *self;
        self.send_train(biggest_train, &node_id, &destination_id, Minute(travel_time));
        proof {
            let b = biggest_train as int;
            let fts = self.train_handler.trains@;
            let fps = self.package_handler.packages@;
            assert forall|i: int| 0 <= i < ts.len() implies #[trigger] fts[i] == ts[i] || departed(g, ts[i], fts[i]) by {
                if i != b {
                    assert(fts[i] == loaded.train_handler.trains@[i]);
                }
            }
            assert forall|j: int| 0 <= j < ps.len() implies #[trigger] fps[j] == ps[j] || boarded(ts, fts, ps[j], fps[j]) by {
                assert(fps[j] == loaded.package_handler.packages@[j]);
                if filtered_packages@.contains(j as usize) {
                    if fps[j] != ps[j] {
                        assert(fts[b].status is DeliveringTo);
                    }
                }
            }
        }
        if self.package_handler.positions_waiting_at(&node_id).len() != 0 {
            DeliveryResult::NotAllPackageLoaded
        } else {
            proof {
                lemma_positions(self.package_handler.packages@, package::waiting_at(n));
            }
            DeliveryResult::AllPackageLoaded
        }
    }

    /// One dispatch pass: every station in registration order is served until it makes no more
    /// progress; then, for each package still waiting, one stopped train is sent one hop toward it.
    fn deliver_packages_in_nodes(&mut self)
        requires
            old(self).wf(),
        ensures
            final(self).wf(),
            only_dispatched(*old(self), *final(self)),
            dispatch_pass(*old(self), *final(self)),
            forall|i: int|
                0 <= i < final(self).nodes@.len() ==> settled(
                    final(self).nodes@,
                    final(self).train_handler.trains@,
                    final(self).package_handler.packages@,
                    #[trigger] final(self).nodes@[i].id@,
                ),
    {
        let ghost s0 = *self;
        let mut index: usize = 0;
        while index < self.nodes.len()
            invariant
                self.wf(),
                only_dispatched(s0, *self),
                index <= self.nodes@.len(),
                forall|i: int|
                    0 <= i < index ==> settled(
                        self.nodes@,
                        self.train_handler.trains@,
                        self.package_handler.packages@,
                        #[trigger] self.nodes@[i].id@,
                    ),
            decreases self.nodes@.len() - index,
        {
            let node_id = NodeId(self.nodes[index].id.0.clone());
            loop
                invariant
                    self.wf(),
                    only_dispatched(s0, *self),
                    index < self.nodes@.len(),
                    node_id@ == self.nodes@[index as int].id@,
                    forall|i: int|
                        0 <= i < index ==> settled(
                            self.nodes@,
                            self.train_handler.trains@,
                            self.package_handler.packages@,
                            #[trigger] self.nodes@[i].id@,
                        ),
                ensures
                    self.wf(),
                    only_dispatched(s0, *self),
                    index < self.nodes@.len(),
                    forall|i: int|
                        0 <= i <= index ==> settled(
                            self.nodes@,
                            self.train_handler.trains@,
                            self.package_handler.packages@,
                            #[trigger] self.nodes@[i].id@,
                        ),
                decreases positions(self.train_handler.trains@, train::stopped_at(node_id@)).len(),
            {
                let ghost before = *self;
                let result = self.deliver_packages_in_node(index);
                proof {
                    lemma_only_dispatched_trans(s0, before, *self);
                    assert forall|i: int| 0 <= i < index implies settled(
                        self.nodes@,
                        self.train_handler.trains@,
                        self.package_handler.packages@,
                        #[trigger] self.nodes@[i].id@,
                    ) by {
                        lemma_settled_stays(before, *self, self.nodes@[i].id@);
                    }
                }
                match result {
                    DeliveryResult::NotAllPackageLoaded | DeliveryResult::TrainPicking => {
                        proof {
                            let ts = before.train_handler.trains@;
                            let b = train::largest_stopped_at(ts, node_id@);
                            let t2 = self.train_handler.trains@;
                            assert(t2 =~= ts.update(b, t2[b]));
                            crate::util::search::lemma_positions_update_drop(ts, train::stopped_at(node_id@), b, t2[b]);
                        }
                    },
                    _ => {
                        break;
                    },
                }
            }
            index = index + 1;
        }
        let dropped_packages = self.package_handler.list_undelivered_packages_mut();
        proof {
            lemma_positions(self.package_handler.packages@, package::waiting());
        }
        let ghost plen = self.package_handler.packages@.len();
        let ghost mid = *self;
        let ghost w = positions(mid.package_handler.packages@, package::waiting());
        let ghost mut hist: Seq<Seq<Train>> = seq![mid.train_handler.trains@];
        proof {
            assert(all_settled(mid));
        }
        let mut d: usize = 0;
        while d < dropped_packages.len()
            invariant
                mid.nodes == s0.nodes,
                only_dispatched(s0, mid),
                all_settled(mid),
                w == positions(mid.package_handler.packages@, package::waiting()),
                dropped_packages@.len() == w.len(),
                forall|k: int| 0 <= k < dropped_packages@.len() ==> #[trigger] dropped_packages@[k] == w[k],
                self.nodes == mid.nodes,
                self.package_handler.packages@ == mid.package_handler.packages@,
                hist.len() == d + 1,
                hist[0] == mid.train_handler.trains@,
                hist[d as int] == self.train_handler.trains@,
                forall|e: int|
                    0 <= e < d ==> repositioned(
                        mid.nodes@,
                        mid.package_handler.packages@,
                        #[trigger] w[e],
                        hist[e],
                        hist[e + 1],
                    ),
                self.wf(),
                only_dispatched(s0, *self),
                only_dispatched(mid, *self),
                forall|i: int|
                    0 <= i < mid.nodes@.len() ==> settled(
                        mid.nodes@,
                        mid.train_handler.trains@,
                        mid.package_handler.packages@,
                        #[trigger] mid.nodes@[i].id@,
                    ),
                plen == self.package_handler.packages@.len(),
                forall|k: int| 0 <= k < dropped_packages@.len() ==> #[trigger] dropped_packages@[k] < plen,
                d <= dropped_packages@.len(),
            decreases dropped_packages@.len() - d,
        {
            let j = dropped_packages[d];
            let routes = self.get_least_time_path_to_deliver_package(&self.package_handler.packages[j]);
            proof {
                if routes@.len() > 0 {
                    lemma_package_route_simple(self.nodes@, self.package_handler.packages@[j as int]);
                }
            }
            let ghost before = *self;
            let has_trains_moved = self.send_train_back(j, &routes);
            proof {
                lemma_only_dispatched_trans(s0, before, *self);
                lemma_only_dispatched_trans(mid, before, *self);
            }
            if !has_trains_moved {
                let ghost before = *self;
                self.send_any_train_toward(j);
                proof {
                    lemma_only_dispatched_trans(s0, before, *self);
                    lemma_only_dispatched_trans(mid, before, *self);
                }
            }
            proof {
                let old_hist = hist;
                hist = hist.push(self.train_handler.trains@);
                assert(w[d as int] == j as int);
                assert(repositioned(mid.nodes@, mid.package_handler.packages@, w[d as int], old_hist[d as int], hist[d + 1]));
                assert forall|e: int| 0 <= e < d + 1 implies repositioned(
                    mid.nodes@,
                    mid.package_handler.packages@,
                    #[trigger] w[e],
                    hist[e],
                    hist[e + 1],
                ) by {
                    if e < d {
                        assert(hist[e] == old_hist[e] && hist[e + 1] == old_hist[e + 1]);
                    }
                }
            }
            d = d + 1;
        }
        proof {
            assert forall|i: int| 0 <= i < self.nodes@.len() implies settled(
                self.nodes@,
                self.train_handler.trains@,
                self.package_handler.packages@,
                #[trigger] self.nodes@[i].id@,
            ) by {
                assert(mid.nodes@[i].id@ == self.nodes@[i].id@);
                lemma_settled_stays(mid, *self, self.nodes@[i].id@);
            }
            assert(hist[w.len() as int] == self.train_handler.trains@);
            assert(all_settled(mid) && hist.len() == w.len() + 1);
        }
    }

    /// Sends the first stopped train that can take package `j` one hop along its own quickest route
    /// toward the package's destination.
    fn send_any_train_toward(&mut self, j: usize)
        requires
            old(self).wf(),
            j < old(self).package_handler.packages@.len(),
        ensures
            final(self).wf(),
            only_dispatched(*old(self), *final(self)),
            ({
                let g = old(self).nodes@;
                let ts = old(self).train_handler.trains@;
                let p = old(self).package_handler.packages@[j as int];
                let dest = node_pos(g, p.destination@);
                let k = first_index(ts, can_head_for(g, p, dest));
                &&& (dest < 0 || k < 0) ==> *final(self) == *old(self)
                &&& (dest >= 0 && k >= 0) ==> {
                    let at = ts[k].status->StoppedAt_0@;
                    let r = least_time_route(g, node_pos(g, at), dest);
                    &&& final(self).package_handler == old(self).package_handler
                    &&& final(self).train_handler.trains@ == ts.update(k, final(self).train_handler.trains@[k])
                    &&& train::same_but_status(ts[k], final(self).train_handler.trains@[k])
                    &&& final(self).train_handler.trains@[k].status matches train::Status::DeliveringTo(o, d, m) && o@ == at
                        && d@ == g[r[1]].id@ && m.0 == edge_time(g, node_pos(g, at), r[1])
                }
            }),
    {
        let ghost s0 = *self;
        let destination = self.find_node_index_by_id(&self.package_handler.packages[j].destination);
        let destination = match destination {
            Some(di) => di,
            None => {
                proof {
                    lemma_only_dispatched_refl(*self);
                }
                return;
            },
        };
        let ghost pred = can_head_for(self.nodes@, self.package_handler.packages@[j as int], destination as int);
        let mut k: usize = 0;
        while k < self.train_handler.trains.len()
            invariant
                s0 == *old(self),
                *self == s0,
                self.wf(),
                j < self.package_handler.packages@.len(),
                destination < self.nodes@.len(),
                destination == node_pos(self.nodes@, self.package_handler.packages@[j as int].destination@),
                pred == can_head_for(self.nodes@, self.package_handler.packages@[j as int], destination as int),
                forall|l: int| 0 <= l < k ==> !pred(#[trigger] self.train_handler.trains@[l]),
            decreases self.train_handler.trains@.len() - k,
        {
            let location = match &self.train_handler.trains[k].status {
                train::Status::StoppedAt(at) => self.find_node_index_by_id(at),
                _ => None,
            };
            if let Some(li) = location {
                let routes = self.get_least_time_path_to_move_from_point_a_to_point_b(li, destination);
                if routes.len() >= 2 && self.train_handler.trains[k].can_accomodate_package(&self.package_handler.packages[j]) {
                    assert(route_view(routes@)[1] == routes@[1] as int);
                    let time = self.edge_travel_time(li, routes[1]);
                    let from = NodeId(self.nodes[li].id.0.clone());
                    let to = NodeId(self.nodes[routes[1]].id.0.clone());
                    proof {
                        let g = self.nodes@;
                        lemma_least_time_route_simple(g, li as int, destination as int);
                        lemma_node_pos_unique(g, li as int);
                        lemma_node_pos_unique(g, routes@[1] as int);
                        let rv = route_view(routes@);
                        assert(rv[0] == li as int);
                        assert(adjacent(g, rv[0], rv[0int + 1]));
                    }
                    proof {
                        crate::util::search::lemma_first_index_is(s0.train_handler.trains@, pred, k as int);
                    }
                    self.send_train(k, &from, &to, Minute(time));
                    return;
                }
            }
            k = k + 1;
        }
        proof {
            crate::util::search::lemma_first_index_is(s0.train_handler.trains@, pred, -1);
            lemma_only_dispatched_refl(*self);
        }
    }

    /// Advances the clock to the next arrival: every moving train goes on by the least remaining
    /// time of any, and the trains that arrive unload. Returns the minutes that passed.
    fn train_arrived(&mut self) -> (r: Minute)
        requires
            old(self).wf(),
        ensures
            final(self).wf(),
            same_entities(*old(self), *final(self)),
            r.0 == match train::least_remaining(old(self).train_handler.trains@) {
                Some(m) => m,
                None => 0,
            },
            forall|i: int|
                0 <= i < old(self).train_handler.trains@.len() ==> train::elapsed(
                    (#[trigger] old(self).train_handler.trains@[i]).status,
                    final(self).train_handler.trains@[i].status,
                    r.0,
                ),
            forall|j: int|
                0 <= j < old(self).package_handler.packages@.len() ==> train::after_arrivals(
                    final(self).train_handler.trains@,
                    #[trigger] old(self).package_handler.packages@[j],
                    final(self).package_handler.packages@[j],
                    final(self).train_handler.trains@.len() as int,
                ),
    {
        let ghost s0 = *self;
        let least_travel_time = match self.train_handler.get_moving_train_lowest_travel_time() {
            Some(m) => m,
            None => Minute(0),
        };
        proof {
            train::lemma_least_remaining(self.train_handler.trains@);
        }
        let ghost ts = self.train_handler.trains@;
        self.train_handler.time_elapsed(&least_travel_time);
        proof {
            train::lemma_statuses_only(ts, self.train_handler.trains@, self.package_handler.packages@);
        }
        let ghost ts2 = self.train_handler.trains@;
        self.train_handler.unload_packages_in_trains_that_stopped(&mut self.package_handler.packages);
        proof {
            let ts3 = self.train_handler.trains@;
            let ps = s0.package_handler.packages@;
            let ps3 = self.package_handler.packages@;
            assert forall|j: int| 0 <= j < ps.len() implies train::after_arrivals(ts3, #[trigger] ps[j], ps3[j], ts3.len() as int) by {
                assert(train::after_arrivals(ts2, ps[j], ps3[j], ts2.len() as int));
                train::lemma_after_arrivals_same(ts2, ts3, ps[j], ps3[j], ts2.len() as int);
            }
            assert forall|a: int, b: int|
                0 <= a < ps3.len() && 0 <= b < ps3.len() && a != b implies #[trigger] ps3[a].id@ != #[trigger] ps3[b].id@ by {
                assert(train::after_arrivals(ts2, ps[a], ps3[a], ts2.len() as int));
                assert(train::after_arrivals(ts2, ps[b], ps3[b], ts2.len() as int));
                if exists|i: int| 0 <= i < ts2.len() && (#[trigger] ts2[i]).status is StoppedAt && package::carried_by(ts2[i].id@)(ps[a]) {
                    let i = choose|i: int| 0 <= i < ts2.len() && (#[trigger] ts2[i]).status is StoppedAt && package::carried_by(ts2[i].id@)(ps[a]);
                    assert(ps3[a].id == ps[a].id);
                }
                if exists|i: int| 0 <= i < ts2.len() && (#[trigger] ts2[i]).status is StoppedAt && package::carried_by(ts2[i].id@)(ps[b]) {
                    let i = choose|i: int| 0 <= i < ts2.len() && (#[trigger] ts2[i]).status is StoppedAt && package::carried_by(ts2[i].id@)(ps[b]);
                    assert(ps3[b].id == ps[b].id);
                }
            }
            assert forall|j: int| 0 <= j < ps.len() implies (#[trigger] ps3[j]).id == ps[j].id && ps3[j].weight == ps[j].weight
                && ps3[j].destination == ps[j].destination by {
                assert(train::after_arrivals(ts2, ps[j], ps3[j], ts2.len() as int));
                if exists|i: int| 0 <= i < ts2.len() && (#[trigger] ts2[i]).status is StoppedAt && package::carried_by(ts2[i].id@)(ps[j]) {
                    let i = choose|i: int| 0 <= i < ts2.len() && (#[trigger] ts2[i]).status is StoppedAt && package::carried_by(ts2[i].id@)(ps[j]);
                }
            }
        }
        least_travel_time
    }

    /// Freezes every waiting package that no train of the fleet can carry, and thaws every frozen
    /// one that some train now can.
    pub fn blacklist_packages_that_cant_be_transported(&mut self)
        requires
            old(self).wf(),
        ensures
            final(self).wf(),
            final(self).nodes == old(self).nodes,
            final(self).train_handler == old(self).train_handler,
            final(self).package_handler.packages@.len() == old(self).package_handler.packages@.len(),
            forall|j: int|
                0 <= j < old(self).package_handler.packages@.len() ==> refrozen(
                    old(self).train_handler.trains@,
                    #[trigger] old(self).package_handler.packages@[j],
                    final(self).package_handler.packages@[j],
                ),
    {
        let ghost ts = self.train_handler.trains@;
        let ghost ps0 = self.package_handler.packages@;
        let mut j: usize = 0;
        while j < self.package_handler.packages.len()
            invariant
                self.wf(),
                self.nodes == old(self).nodes,
                self.train_handler == old(self).train_handler,
                ts == self.train_handler.trains@,
                self.package_handler.packages@.len() == ps0.len(),
                j <= ps0.len(),
                forall|l: int| j <= l < ps0.len() ==> #[trigger] self.package_handler.packages@[l] == ps0[l],
                forall|l: int|
                    0 <= l < j ==> {
                        let p = #[trigger] ps0[l];
                        let q = self.package_handler.packages@[l];
                        &&& q.id == p.id && q.weight == p.weight && q.destination == p.destination
                        &&& p.status is DroppedAt && !carriable(ts, p.weight.0) ==> (q.status matches package::Status::CantBeTransported(at) && at@ == p.status->DroppedAt_0@)
                        &&& !(p.status is DroppedAt && !carriable(ts, p.weight.0)) ==> q.status == p.status
                    },
            decreases ps0.len() - j,
        {
            let waiting = match &self.package_handler.packages[j].status {
                package::Status::DroppedAt(_, _) => true,
                _ => false,
            };
            if waiting && !self.train_handler.can_pacakge_be_transported_by_any_trains(&self.package_handler.packages[j]) {
                let ghost before = self.package_handler.packages@;
                self.package_handler.packages[j].set_to_cant_be_transported();
                proof {
                    let after = self.package_handler.packages@;
                    assert(after == before.update(j as int, after[j as int]));
                    lemma_status_change_consistent(ts, before, j as int, after[j as int]);
                }
            }
            j = j + 1;
        }
        let ghost ps1 = self.package_handler.packages@;
        let mut j: usize = 0;
        while j < self.package_handler.packages.len()
            invariant
                self.wf(),
                self.nodes == old(self).nodes,
                self.train_handler == old(self).train_handler,
                ts == self.train_handler.trains@,
                self.package_handler.packages@.len() == ps0.len(),
                ps1.len() == ps0.len(),
                j <= ps0.len(),
                forall|l: int|
                    0 <= l < ps0.len() ==> {
                        let p = #[trigger] ps0[l];
                        let q = ps1[l];
                        &&& q.id == p.id && q.weight == p.weight && q.destination == p.destination
                        &&& p.status is DroppedAt && !carriable(ts, p.weight.0) ==> (q.status matches package::Status::CantBeTransported(at) && at@ == p.status->DroppedAt_0@)
                        &&& !(p.status is DroppedAt && !carriable(ts, p.weight.0)) ==> q.status == p.status
                    },
                forall|l: int| j <= l < ps0.len() ==> #[trigger] self.package_handler.packages@[l] == ps1[l],
                forall|l: int| 0 <= l < j ==> refrozen(ts, #[trigger] ps0[l], self.package_handler.packages@[l]),
            decreases ps0.len() - j,
        {
            let frozen = match &self.package_handler.packages[j].status {
                package::Status::CantBeTransported(_) => true,
                _ => false,
            };
            assert(ps1[j as int] == ps1[j as int]);
            if frozen && self.train_handler.can_pacakge_be_transported_by_any_trains(&self.package_handler.packages[j]) {
                let ghost before = self.package_handler.packages@;
                self.package_handler.packages[j].drop_to_origin();
                proof {
                    let after = self.package_handler.packages@;
                    assert(after == before.update(j as int, after[j as int]));
                    lemma_status_change_consistent(ts, before, j as int, after[j as int]);
                }
            }
            j = j + 1;
        }
    }
    /// Freezes every waiting package where it waits.
    fn freeze_waiting_packages(&mut self)
        requires
            old(self).wf(),
        ensures
            final(self).wf(),
            same_entities(*old(self), *final(self)),
            final(self).train_handler == old(self).train_handler,
            final(self).package_handler.packages@.len() == old(self).package_handler.packages@.len(),
            forall|j: int|
                0 <= j < old(self).package_handler.packages@.len() ==> frozen_from(
                    #[trigger] old(self).package_handler.packages@[j],
                    final(self).package_handler.packages@[j],
                ),
    {
        let ghost ts = self.train_handler.trains@;
        let ghost ps0 = self.package_handler.packages@;
        let mut j: usize = 0;
        while j < self.package_handler.packages.len()
            invariant
                self.wf(),
                self.nodes == old(self).nodes,
                self.train_handler == old(self).train_handler,
                ts == self.train_handler.trains@,
                self.package_handler.packages@.len() == ps0.len(),
                j <= ps0.len(),
                forall|l: int| j <= l < ps0.len() ==> #[trigger] self.package_handler.packages@[l] == ps0[l],
                forall|l: int| 0 <= l < j ==> frozen_from(#[trigger] ps0[l], self.package_handler.packages@[l]),
            decreases ps0.len() - j,
        {
            let waiting = match &self.package_handler.packages[j].status {
                package::Status::DroppedAt(_, _) => true,
                _ => false,
            };
            if waiting {
                let ghost before = self.package_handler.packages@;
                self.package_handler.packages[j].set_to_cant_be_transported();
                proof {
                    let after = self.package_handler.packages@;
                    assert(after == before.update(j as int, after[j as int]));
                    lemma_status_change_consistent(ts, before, j as int, after[j as int]);
                }
            }
            j = j + 1;
        }
        proof {
            assert forall|j: int| 0 <= j < ps0.len() implies (#[trigger] self.package_handler.packages@[j]).id == ps0[j].id
                && self.package_handler.packages@[j].weight == ps0[j].weight
                && self.package_handler.packages@[j].destination == ps0[j].destination by {
                assert(frozen_from(ps0[j], self.package_handler.packages@[j]));
            }
        }
    }

    /// Marks the packages delivered during this tick as completed.
    fn sweep_completed(&mut self)
        requires
            old(self).wf(),
        ensures
            final(self).wf(),
            swept_from(*old(self), *final(self)),
            same_entities(*old(self), *final(self)),
    {
        let ghost before = *self;
        self.package_handler.delist_delivered_packages();
        proof {
            let ps = before.package_handler.packages@;
            let ps2 = self.package_handler.packages@;
            let ts = self.train_handler.trains@;
            assert forall|i: int| 0 <= i < ts.len() implies (#[trigger] ts[i]).load_size.0 == package::carried_weight(ps2, ts[i].id@) by {
                assert forall|j: int| 0 <= j < ps.len() implies package::weight_on(#[trigger] ps[j], ts[i].id@) == package::weight_on(ps2[j], ts[i].id@) by {}
                package::lemma_carried_weight_pointwise(ps, ps2, ts[i].id@);
            }
            assert forall|l: int|
                0 <= l < ps2.len() && ((#[trigger] ps2[l]).status matches package::Status::LoadedTo(x)) implies exists|i: int|
                0 <= i < ts.len() && (#[trigger] ts[i]).id@ == ps2[l].status->LoadedTo_0@ by {
                assert(ps2[l].status == ps[l].status);
            }
            assert forall|a: int, b: int|
                0 <= a < ps2.len() && 0 <= b < ps2.len() && a != b implies #[trigger] ps2[a].id@ != #[trigger] ps2[b].id@ by {
                assert(ps2[a].id == ps[a].id && ps2[b].id == ps[b].id);
            }
        }
    }

    /// One log line per train, in registration order.
    pub fn report_trains(&self, elapsed: Minute) -> (r: Vec<TrainReport>)
        ensures
            r@.len() == self.train_handler.trains@.len(),
            forall|i: int|
                0 <= i < r@.len() ==> reports(#[trigger] r@[i], self.train_handler.trains@[i], self.package_handler.packages@, elapsed),
    {
        let mut out: Vec<TrainReport> = Vec::new();
        let mut i: usize = 0;
        while i < self.train_handler.trains.len()
            invariant
                i <= self.train_handler.trains@.len(),
                out@.len() == i,
                forall|k: int|
                    0 <= k < i ==> reports(#[trigger] out@[k], self.train_handler.trains@[k], self.package_handler.packages@, elapsed),
            decreases self.train_handler.trains@.len() - i,
        {
            let train = &self.train_handler.trains[i];
            let (origin, destination) = match &train.status {
                train::Status::StoppedAt(location) => (location.0.clone(), String::new()),
                train::Status::DeliveringTo(origin, destination, _) => (origin.0.clone(), destination.0.clone()),
                train::Status::NotAvailable => (String::new(), String::new()),
            };
            let in_transit = self.package_handler.list_package_names_in_transit(&train.id);
            let delivered = self.package_handler.list_package_names_delivered(&train.id);
            out.push(TrainReport { elapsed, train: train.id.0.clone(), origin, in_transit, destination, delivered });
            i = i + 1;
        }
        out
    }

    /// Runs the simulation for at most `max_ticks` ticks. Frozen packages are re-evaluated first.
    /// Each tick dispatches every station, advances the clock to the next arrival, unloads, logs one
    /// line per train and marks the delivered packages completed. The run stops when nothing is
    /// outstanding. When a dispatch pass sends no train anywhere, nothing can change any more: the
    /// waiting packages are frozen and the run ends as stuck.
    pub fn run_delivery(&mut self, max_ticks: u64) -> (r: RunOutcome)
        requires
            old(self).wf(),
        ensures
            final(self).wf(),
            same_entities(*old(self), *final(self)),
            run_ok(*old(self), *final(self), max_ticks, r),
            at_rest(*old(self)) ==> {
                &&& r.total.0 == 0
                &&& r.end is AllDelivered
                &&& r.ticks@.len() == 0
                &&& final(self).nodes == old(self).nodes
                &&& final(self).train_handler.trains@ == old(self).train_handler.trains@
                &&& final(self).package_handler.packages@ == old(self).package_handler.packages@
            },
    {
        let ghost s0 = *self;
        self.blacklist_packages_that_cant_be_transported();
        let ghost start = *self;
        proof {
            if at_rest(s0) {
                let ps = s0.package_handler.packages@;
                assert forall|j: int| 0 <= j < ps.len() implies #[trigger] self.package_handler.packages@[j] == ps[j] by {
                    assert(refrozen(s0.train_handler.trains@, ps[j], self.package_handler.packages@[j]));
                    assert(!package::outstanding()(ps[j]));
                }
                assert(self.package_handler.packages@ =~= ps);
            }
            assert forall|j: int| 0 <= j < s0.package_handler.packages@.len() implies (#[trigger] self.package_handler.packages@[j]).id
                == s0.package_handler.packages@[j].id && self.package_handler.packages@[j].weight
                == s0.package_handler.packages@[j].weight && self.package_handler.packages@[j].destination
                == s0.package_handler.packages@[j].destination by {
                assert(refrozen(s0.train_handler.trains@, s0.package_handler.packages@[j], self.package_handler.packages@[j]));
            }
            assert(same_entities(s0, start));
            assert forall|j: int|
                0 <= j < start.package_handler.packages@.len() && (#[trigger] start.package_handler.packages@[j]).status is CantBeTransported
                    implies !carriable(start.train_handler.trains@, start.package_handler.packages@[j].weight.0) by {
                assert(refrozen(s0.train_handler.trains@, s0.package_handler.packages@[j], start.package_handler.packages@[j]));
            }
            if at_rest(s0) {
                assert(!has_outstanding(start)) by {
                    if has_outstanding(start) {
                        let j = choose|j: int| 0 <= j < start.package_handler.packages@.len() && package::outstanding()(#[trigger] start.package_handler.packages@[j]);
                        assert(start.package_handler.packages@[j] == s0.package_handler.packages@[j]);
                    }
                }
            }
        }
        let mut ticks: Vec<TickReport> = Vec::new();
        let mut total_delivery_time: u32 = 0;
        let mut left = max_ticks;
        let mut stuck = false;
        while left > 0 && self.package_handler.have_undelivered_packages()
            invariant_except_break
                !stuck,
                *self == after_ticks(start, ticks@),
                frozen_heavy(*self),
                ticks@.len() > 0 ==> none_delivered(*self),
            invariant
                self.wf(),
                same_entities(s0, *self),
                left <= max_ticks,
                ticks@.len() == max_ticks - left,
                ticks_ok(start, ticks@),
                total_delivery_time == prev_total(ticks@, ticks@.len() as int),
                at_rest(s0) ==> !stuck && ticks@.len() == 0,
                at_rest(s0) ==> !has_outstanding(start),
            ensures
                self.wf(),
                same_entities(s0, *self),
                ticks@.len() == max_ticks - left,
                ticks_ok(start, ticks@),
                total_delivery_time == prev_total(ticks@, ticks@.len() as int),
                at_rest(s0) ==> !stuck && ticks@.len() == 0,
                !stuck ==> *self == after_ticks(start, ticks@),
                !stuck ==> frozen_heavy(*self),
                !stuck && ticks@.len() > 0 ==> none_delivered(*self),
                !stuck ==> left == 0 || !has_outstanding(*self),
                stuck ==> stuck_from(after_ticks(start, ticks@), *self),
            decreases left,
        {
            assert(!at_rest(s0)) by {
                if at_rest(s0) {
                    assert(*self == start);
                    assert(has_outstanding(*self));
                }
            }
            let ghost a = *self;
            self.deliver_packages_in_nodes();
            let ghost d = *self;
            proof {
                lemma_dispatched_same_entities(a, d);
                lemma_same_entities_trans(s0, a, d);
                train::lemma_least_remaining(d.train_handler.trains@);
            }
            if self.train_handler.get_moving_train_lowest_travel_time().is_none() {
                proof {
                    lemma_only_dispatched_quiet(a, d);
                    assert(all_settled(a));
                    assert(dispatch_pass(a, d) && none_moving(d));
                }
                self.freeze_waiting_packages();
                proof {
                    lemma_same_entities_trans(s0, d, *self);
                }
                stuck = true;
                break;
            }
            let travel_time = self.train_arrived();
            let ghost m = *self;
            proof {
                lemma_same_entities_trans(s0, d, m);
            }
            total_delivery_time = total_delivery_time.saturating_add(travel_time.0);
            let reports = self.report_trains(Minute(total_delivery_time));
            self.sweep_completed();
            let ghost e = *self;
            proof {
                lemma_same_entities_trans(s0, m, e);
            }
            let tick = TickReport {
                advance: travel_time,
                total: Minute(total_delivery_time),
                trains: reports,
                start: Ghost(a),
                dispatched: Ghost(d),
                arrived: Ghost(m),
                ended: Ghost(e),
            };
            let ghost old_ticks = ticks@;
            ticks.push(tick);
            proof {
                let ts = ticks@;
                assert(ts.take(old_ticks.len() as int) =~= old_ticks);
                assert forall|k: int| 0 <= k < ts.len() implies tick_ok(#[trigger] ts[k], prev_total(ts, k)) by {
                    if k < old_ticks.len() {
                        assert(ts[k] == old_ticks[k]);
                        if k > 0 {
                            assert(ts[k - 1] == old_ticks[k - 1]);
                        }
                    } else if k > 0 {
                        assert(ts[k - 1] == old_ticks[k - 1]);
                    }
                }
                assert forall|k: int| 0 <= k < ts.len() implies (#[trigger] ts[k]).start@ == after_ticks(start, ts.take(k)) by {
                    if k < old_ticks.len() {
                        assert(ts[k] == old_ticks[k]);
                        assert(ts.take(k) =~= old_ticks.take(k));
                    }
                }
                assert(after_ticks(start, ts) == e);
                assert(tick_ok(ts[ts.len() - 1], prev_total(ts, ts.len() - 1)));
                lemma_tick_keeps_frozen_heavy(ts[ts.len() - 1], prev_total(ts, ts.len() - 1));
            }
            left = left - 1;
        }
        let end = if stuck {
            RunEnd::Stuck
        } else if !self.package_handler.have_undelivered_packages() {
            RunEnd::AllDelivered
        } else {
            RunEnd::OutOfTicks
        };
        RunOutcome { total: Minute(total_delivery_time), end, ticks, start: Ghost(start) }
    }

    /// Runs the simulation until nothing is outstanding (at most `u64::MAX` ticks) and returns the
    /// minutes it took; `run_delivery` also hands out the ticks.
    pub fn deliver_packages(&mut self) -> (r: Minute)
        requires
            old(self).wf(),
        ensures
            final(self).wf(),
            same_entities(*old(self), *final(self)),
            exists|out: RunOutcome| run_ok(*old(self), *final(self), u64::MAX, out) && out.total == r,
            at_rest(*old(self)) ==> {
                &&& r.0 == 0
                &&& final(self).nodes == old(self).nodes
                &&& final(self).train_handler.trains@ == old(self).train_handler.trains@
                &&& final(self).package_handler.packages@ == old(self).package_handler.packages@
            },
    {
        let out = self.run_delivery(u64::MAX);
        out.total
    }

    /// The anchor route among the packages at the given positions: the longest quickest route, the
    /// first among equals.
    fn find_anchor_route(&self, packages: &Vec<usize>) -> (r: Vec<usize>)
        requires
            forall|k: int| 0 <= k < packages@.len() ==> #[trigger] packages@[k] < self.package_handler.packages@.len(),
        ensures
            route_view(r@) == anchor_route(self.nodes@, self.package_handler.packages@, route_view(packages@)),
            in_range(self.nodes@, route_view(r@)),
    {
        let ghost g = self.nodes@;
        let ghost ps = self.package_handler.packages@;
        let ghost sel = route_view(packages@);
        let mut highest_routes: Vec<usize> = Vec::new();
        assert(route_view(highest_routes@) =~= seq![]);
        let mut i: usize = 0;
        while i < packages.len()
            invariant
                g == self.nodes@,
                ps == self.package_handler.packages@,
                sel == route_view(packages@),
                forall|k: int| 0 <= k < packages@.len() ==> #[trigger] packages@[k] < ps.len(),
                i <= packages@.len(),
                in_range(g, route_view(highest_routes@)),
                route_view(highest_routes@) == anchor_route(g, ps, sel.take(i as int)),
            decreases packages@.len() - i,
        {
            let routes = self.get_least_time_path_to_deliver_package(&self.package_handler.packages[packages[i]]);
            proof {
                assert(sel.take(i + 1).drop_last() =~= sel.take(i as int));
                assert(sel.take(i + 1).last() == packages@[i as int] as int);
            }
            if routes.len() > highest_routes.len() {
                highest_routes = routes;
            }
            i = i + 1;
        }
        assert(sel.take(sel.len() as int) =~= sel);
        highest_routes
    }

    /// Offers each listed waiting package, in order, to train `k`: those that fit go on board.
    fn load_passing_packages(&mut self, k: usize, filtered: &Vec<usize>)
        requires
            old(self).wf(),
            k < old(self).train_handler.trains@.len(),
            forall|l: int|
                0 <= l < filtered@.len() ==> #[trigger] filtered@[l] < old(self).package_handler.packages@.len()
                    && old(self).package_handler.packages@[filtered@[l] as int].status is DroppedAt,
            filtered@.no_duplicates(),
        ensures
            ({
                let t = old(self).train_handler.trains@[k as int];
                let ps = old(self).package_handler.packages@;
                &&& final(self).train_handler.trains@[k as int].load_size.0 == greedy_load(
                    ps,
                    filtered@,
                    t.load_size.0 as int,
                    t.max_capacity.0 as int,
                    filtered@.len() as int,
                )
                &&& forall|l: int|
                    0 <= l < filtered@.len() ==> ((final(self).package_handler.packages@[#[trigger] filtered@[l] as int].status is LoadedTo)
                        <==> greedy_load(ps, filtered@, t.load_size.0 as int, t.max_capacity.0 as int, l)
                        + ps[filtered@[l] as int].weight.0 <= t.max_capacity.0)
            }),
            final(self).wf(),
            final(self).nodes == old(self).nodes,
            same_entities(*old(self), *final(self)),
            final(self).train_handler.trains@ == old(self).train_handler.trains@.update(
                k as int,
                final(self).train_handler.trains@[k as int],
            ),
            final(self).train_handler.trains@[k as int].status == old(self).train_handler.trains@[k as int].status,
            final(self).package_handler.packages@.len() == old(self).package_handler.packages@.len(),
            forall|j: int|
                0 <= j < old(self).package_handler.packages@.len() ==> if filtered@.contains(j as usize) {
                    loaded_or_left(
                        #[trigger] old(self).package_handler.packages@[j],
                        final(self).package_handler.packages@[j],
                        old(self).train_handler.trains@[k as int].id@,
                        final(self).train_handler.trains@[k as int],
                    )
                } else {
                    final(self).package_handler.packages@[j] == old(self).package_handler.packages@[j]
                },
    {
        let ghost s0 = *self;
        let ghost ts = self.train_handler.trains@;
        let ghost ps = self.package_handler.packages@;
        let ghost t_id = ts[k as int].id@;
        assert(ps.len() == self.package_handler.packages.len());
        let mut f: usize = 0;
        while f < filtered.len()
            invariant
                s0 == *old(self),
                ts == s0.train_handler.trains@,
                ps == s0.package_handler.packages@,
                t_id == ts[k as int].id@,
                k < ts.len(),
                ps.len() <= usize::MAX,
                forall|l: int| 0 <= l < filtered@.len() ==> #[trigger] filtered@[l] < ps.len() && ps[filtered@[l] as int].status is DroppedAt,
                self.wf(),
                self.nodes == s0.nodes,
                same_entities(s0, *self),
                self.train_handler.trains@ == ts.update(k as int, self.train_handler.trains@[k as int]),
                self.train_handler.trains@[k as int].status == ts[k as int].status,
                self.package_handler.packages@.len() == ps.len(),
                f <= filtered@.len(),
                filtered@.no_duplicates(),
                self.train_handler.trains@[k as int].load_size.0 == greedy_load(
                    ps,
                    filtered@,
                    ts[k as int].load_size.0 as int,
                    ts[k as int].max_capacity.0 as int,
                    f as int,
                ),
                self.train_handler.trains@[k as int].max_capacity == ts[k as int].max_capacity,
                forall|l: int|
                    0 <= l < f ==> ((self.package_handler.packages@[#[trigger] filtered@[l] as int].status is LoadedTo)
                        <==> greedy_load(ps, filtered@, ts[k as int].load_size.0 as int, ts[k as int].max_capacity.0 as int, l)
                        + ps[filtered@[l] as int].weight.0 <= ts[k as int].max_capacity.0),
                forall|j: int| 0 <= j < ps.len() ==> if filtered@.take(f as int).contains(j as usize) {
                    loaded_or_left(#[trigger] ps[j], self.package_handler.packages@[j], t_id, self.train_handler.trains@[k as int])
                } else {
                    self.package_handler.packages@[j] == ps[j]
                },
            decreases filtered@.len() - f,
        {
            let j = filtered[f];
            let ghost before = *self;
            self.load_into(k, j);
            proof {
                lemma_same_entities_trans(s0, before, *self);
                let take_f = filtered@.take(f as int);
                let take_f1 = filtered@.take(f + 1);
                assert(take_f1 =~= take_f.push(j));
                assert(take_f1[f as int] == j);
                let t2 = self.train_handler.trains@[k as int];
                assert(t2.id == ts[k as int].id);
                assert forall|l: int| 0 <= l < ps.len() implies if take_f1.contains(l as usize) {
                    loaded_or_left(#[trigger] ps[l], self.package_handler.packages@[l], t_id, t2)
                } else {
                    self.package_handler.packages@[l] == ps[l]
                } by {
                    if take_f1.contains(l as usize) && l != j as int {
                        let m = choose|m: int| 0 <= m < take_f1.len() && take_f1[m] == l as usize;
                        assert(m != f as int);
                        assert(take_f[m] == take_f1[m]);
                    }
                    if take_f.contains(l as usize) {
                        let m = choose|m: int| 0 <= m < take_f.len() && take_f[m] == l as usize;
                        assert(take_f1[m] == l as usize);
                    }
                    if l != j as int {
                        assert(self.package_handler.packages@[l] == before.package_handler.packages@[l]);
                    }
                }
                // The package offered now was never offered before, so it still waits as it did.
                assert(!take_f.contains(j)) by {
                    if take_f.contains(j) {
                        let m = choose|m: int| 0 <= m < take_f.len() && take_f[m] == j;
                        assert(filtered@[m] == filtered@[f as int]);
                    }
                }
                assert(before.package_handler.packages@[j as int] == ps[j as int]);
                assert forall|l: int| 0 <= l < f + 1 implies ((self.package_handler.packages@[#[trigger] filtered@[l] as int].status is LoadedTo)
                    <==> greedy_load(ps, filtered@, ts[k as int].load_size.0 as int, ts[k as int].max_capacity.0 as int, l)
                    + ps[filtered@[l] as int].weight.0 <= ts[k as int].max_capacity.0) by {
                    if l < f {
                        assert(filtered@[l] != filtered@[f as int]);
                        assert(self.package_handler.packages@[filtered@[l] as int] == before.package_handler.packages@[filtered@[l] as int]);
                    }
                }
            }
            f = f + 1;
        }
        assert(filtered@.take(filtered@.len() as int) =~= filtered@);
    }

    /// For waiting package `j`, the first station along its route `routes` (after the first) where
    /// a stopped train can take it sends the first such train one hop back toward the package.
    /// Returns whether a train was sent.
    fn send_train_back(&mut self, j: usize, routes: &Vec<usize>) -> (moved: bool)
        requires
            old(self).wf(),
            j < old(self).package_handler.packages@.len(),
            routes@.len() > 0 ==> simple_route(
                old(self).nodes@,
                route_view(routes@),
                route_view(routes@)[0],
                route_view(routes@).last(),
            ),
        ensures
            final(self).wf(),
            only_dispatched(*old(self), *final(self)),
            ({
                let g = old(self).nodes@;
                let ts = old(self).train_handler.trains@;
                let p = old(self).package_handler.packages@[j as int];
                let rv = route_view(routes@);
                let h = fetch_hop(g, ts, p, rv);
                &&& moved <==> h >= 1
                &&& !moved ==> *final(self) == *old(self)
                &&& moved ==> {
                    let k = first_index(ts, can_fetch(g[rv[h]].id@, p));
                    &&& 0 <= k < ts.len()
                    &&& final(self).package_handler == old(self).package_handler
                    &&& final(self).train_handler.trains@ == ts.update(k, final(self).train_handler.trains@[k])
                    &&& train::same_but_status(ts[k], final(self).train_handler.trains@[k])
                    &&& final(self).train_handler.trains@[k].status matches train::Status::DeliveringTo(o, d, m) && o@
                        == g[rv[h]].id@ && d@ == g[rv[h - 1]].id@ && m.0 == edge_time(g, rv[h - 1], rv[h])
                }
            }),
    {
        let ghost g = self.nodes@;
        let ghost ts = self.train_handler.trains@;
        let ghost p = self.package_handler.packages@[j as int];
        let ghost rv = route_view(routes@);
        let ghost pred = |x: int| first_index(ts, can_fetch(g[x].id@, p)) >= 0;
        let mut i: usize = 1;
        while i < routes.len()
            invariant
                *self == *old(self),
                g == self.nodes@,
                ts == self.train_handler.trains@,
                p == self.package_handler.packages@[j as int],
                rv == route_view(routes@),
                j < self.package_handler.packages@.len(),
                pred == (|x: int| first_index(ts, can_fetch(g[x].id@, p)) >= 0),
                old(self).wf(),
                routes@.len() > 0 ==> simple_route(g, rv, rv[0], rv.last()),
                1 <= i,
                routes@.len() > 0 ==> i <= routes@.len(),
                forall|m: int| 0 <= m < i - 1 && m < rv.drop_first().len() ==> !pred(#[trigger] rv.drop_first()[m]),
            decreases routes@.len() - i,
        {
            assert(rv[i as int] == routes@[i as int] as int);
            assert(rv[i - 1] == routes@[i - 1] as int);
            let stop = NodeId(self.nodes[routes[i]].id.0.clone());
            if let Some(k) = self.first_train_to_fetch(&stop, j) {
                let travel_time = self.edge_travel_time(routes[i - 1], routes[i]);
                let back = NodeId(self.nodes[routes[i - 1]].id.0.clone());
                proof {
                    assert(adjacent(g, rv[i - 1], rv[(i - 1) + 1]));
                    assert(adjacent(g, rv[i as int], rv[i - 1]) == adjacent(g, rv[i - 1], rv[i as int]));
                    lemma_node_pos_unique(g, rv[i as int]);
                    lemma_node_pos_unique(g, rv[i - 1]);
                    assert(rv.drop_first()[i - 1] == rv[i as int]);
                    assert forall|m: int| 0 <= m < rv.drop_first().len() && (i - 1 < 0 || m < i - 1) implies !pred(
                        #[trigger] rv.drop_first()[m],
                    ) by {}
                    crate::util::search::lemma_first_index_is(rv.drop_first(), pred, i - 1);
                    crate::util::search::lemma_first_index(ts, can_fetch(stop@, p));
                }
                self.send_train(k, &stop, &back, Minute(travel_time));
                return true;
            }
            proof {
                assert(rv.drop_first()[i - 1] == rv[i as int]);
            }
            i = i + 1;
        }
        proof {
            if routes@.len() > 0 {
                assert forall|m: int| 0 <= m < rv.drop_first().len() implies !pred(#[trigger] rv.drop_first()[m]) by {}
                crate::util::search::lemma_first_index_is(rv.drop_first(), pred, -1);
            }
            lemma_only_dispatched_refl(*self);
        }
        false
    }

    /// The first train, in registration order, that stands at `node` and can take package `j`.
    fn first_train_to_fetch(&self, node: &NodeId, j: usize) -> (r: Option<usize>)
        requires
            j < self.package_handler.packages@.len(),
        ensures
            r is None <==> first_index(self.train_handler.trains@, can_fetch(node@, self.package_handler.packages@[j as int])) < 0,
            r matches Some(k) ==> k == first_index(
                self.train_handler.trains@,
                can_fetch(node@, self.package_handler.packages@[j as int]),
            ),
    {
        let ghost pred = can_fetch(node@, self.package_handler.packages@[j as int]);
        let mut k: usize = 0;
        while k < self.train_handler.trains.len()
            invariant
                j < self.package_handler.packages@.len(),
                pred == can_fetch(node@, self.package_handler.packages@[j as int]),
                k <= self.train_handler.trains@.len(),
                forall|l: int| 0 <= l < k ==> !pred(#[trigger] self.train_handler.trains@[l]),
            decreases self.train_handler.trains@.len() - k,
        {
            let here = match &self.train_handler.trains[k].status {
                train::Status::StoppedAt(at) => at.0 == node.0,
                _ => false,
            };
            if here && self.train_handler.trains[k].can_accomodate_package(&self.package_handler.packages[j]) {
                proof {
                    crate::util::search::lemma_first_index_is(self.train_handler.trains@, pred, k as int);
                }
                return Some(k);
            }
            k = k + 1;
        }
        proof {
            crate::util::search::lemma_first_index_is(self.train_handler.trains@, pred, -1);
        }
        None
    }
}

/// Whether a route passes through a station.
fn route_contains(routes: &Vec<usize>, node: usize) -> (r: bool)
    ensures
        r == route_view(routes@).contains(node as int),
{
    let mut i: usize = 0;
    while i < routes.len()
        invariant
            i <= routes@.len(),
            forall|j: int| 0 <= j < i ==> routes@[j] != node,
        decreases routes@.len() - i,
    {
        if routes[i] == node {
            assert(route_view(routes@)[i as int] == node as int);
            return true;
        }
        i = i + 1;
    }
    false
}

fn copy_names(names: &Vec<String>) -> (r: Vec<String>)
    ensures
        r@.len() == names@.len(),
        forall|k: int| 0 <= k < r@.len() ==> (#[trigger] r@[k])@ == names@[k]@,
{
    let mut out: Vec<String> = Vec::new();
    let mut i: usize = 0;
    while i < names.len()
        invariant
            i <= names@.len(),
            out@.len() == i,
            forall|k: int| 0 <= k < i ==> (#[trigger] out@[k])@ == names@[k]@,
        decreases names@.len() - i,
    {
        out.push(names[i].clone());
        i = i + 1;
    }
    out
}

fn copy_route(routes: &Vec<usize>) -> (r: Vec<usize>)
    ensures
        r@ == routes@,
{
    let mut out: Vec<usize> = Vec::new();
    let mut i: usize = 0;
    while i < routes.len()
        invariant
            i <= routes@.len(),
            out@ == routes@.take(i as int),
        decreases routes@.len() - i,
    {
        out.push(routes[i]);
        assert(routes@.take(i + 1) =~= routes@.take(i as int).push(routes@[i as int]));
        i = i + 1;
    }
    assert(routes@.take(routes@.len() as int) =~= routes@);
    out
}

} // verus!
