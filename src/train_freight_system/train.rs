use vstd::prelude::*;

use crate::util::{kilogram::Kilogram, minute::Minute};
use crate::util::search::{first_index, lemma_first_index, lemma_first_index_is, lemma_positions_take, positions};

use super::{
    error::{Error, ErrorKind},
    node::NodeId,
    package::{self, carried_by, carried_weight, lemma_carried_weight_update, Package},
};

verus! {

/// Where a train is.
#[derive(Debug, PartialEq, Clone)]
pub enum Status {
    /// Not placed on the network yet.
    NotAvailable,
    /// Stopped at a station.
    StoppedAt(NodeId),
    /// Travelling from the first station to the second, with the minutes still to go.
    DeliveringTo(NodeId, NodeId, Minute),
}

/// The name of a train.
#[derive(Debug, Default, PartialEq, Clone)]
pub struct TrainId(pub String);

impl View for TrainId {
    type V = Seq<char>;

    open spec fn view(&self) -> Seq<char> {
        self.0@
    }
}

#[derive(Debug)]
pub struct Train {
    pub id: TrainId,
    pub max_capacity: Kilogram,
    pub status: Status,
    pub load_size: Kilogram,
}

/// A train named `id`.
pub open spec fn train_named(id: Seq<char>) -> spec_fn(Train) -> bool {
    |t: Train| t.id@ == id
}

/// A train stopped at station `n`.
pub open spec fn stopped_at(n: Seq<char>) -> spec_fn(Train) -> bool {
    |t: Train| t.status matches Status::StoppedAt(at) && at@ == n
}

/// A train stopped anywhere.
pub open spec fn stopped() -> spec_fn(Train) -> bool {
    |t: Train| t.status is StoppedAt
}

/// The train whose status after a call is `t`, had it only its status changed from `s`.
pub open spec fn same_but_status(s: Train, t: Train) -> bool {
    t.id == s.id && t.max_capacity == s.max_capacity && t.load_size == s.load_size
}

/// What unloading at station `at` by train `by` makes of a package: delivered at its destination,
/// waiting at `at` elsewhere.
pub open spec fn unloaded(a: Package, b: Package, at: Seq<char>, by: Seq<char>) -> bool {
    &&& b.id == a.id
    &&& b.weight == a.weight
    &&& b.destination == a.destination
    &&& if a.destination@ == at {
        b.status matches package::Status::Delivered(x) && x@ == by
    } else {
        b.status matches package::Status::DroppedAt(n, x) && n@ == at && x@ == by
    }
}

/// Each train's load is the weight of the packages on board it, and every package on board
/// names a registered train.
pub open spec fn loads_consistent(ts: Seq<Train>, ps: Seq<Package>) -> bool {
    &&& forall|i: int| 0 <= i < ts.len() ==> (#[trigger] ts[i]).load_size.0 == carried_weight(ps, ts[i].id@)
    &&& forall|j: int|
        0 <= j < ps.len() ==> ((#[trigger] ps[j]).status matches package::Status::LoadedTo(t) ==> exists|i: int|
            0 <= i < ts.len() && (#[trigger] ts[i]).id@ == t@)
}

/// The stopped train at `n` with the largest capacity; the first one wins ties; -1 when none.
pub open spec fn largest_stopped_at(ts: Seq<Train>, n: Seq<char>) -> int
    decreases ts.len(),
{
    if ts.len() == 0 {
        -1
    } else {
        let b = largest_stopped_at(ts.drop_last(), n);
        if stopped_at(n)(ts.last()) && (b < 0 || ts[b].max_capacity.0 < ts.last().max_capacity.0) {
            ts.len() - 1
        } else {
            b
        }
    }
}

/// The least number of minutes that a moving train still has to go, if any train moves.
pub open spec fn least_remaining(ts: Seq<Train>) -> Option<u32>
    decreases ts.len(),
{
    if ts.len() == 0 {
        None
    } else {
        let r = least_remaining(ts.drop_last());
        match ts.last().status {
            Status::DeliveringTo(_, _, m) => match r {
                Some(x) if x <= m.0 => Some(x),
                _ => Some(m.0),
            },
            _ => r,
        }
    }
}

pub proof fn lemma_largest_stopped_at(ts: Seq<Train>, n: Seq<char>)
    ensures
        -1 <= largest_stopped_at(ts, n) < ts.len(),
        largest_stopped_at(ts, n) >= 0 ==> stopped_at(n)(ts[largest_stopped_at(ts, n)]),
        largest_stopped_at(ts, n) < 0 <==> forall|i: int| 0 <= i < ts.len() ==> !stopped_at(n)(#[trigger] ts[i]),
    decreases ts.len(),
{
    if ts.len() > 0 {
        lemma_largest_stopped_at(ts.drop_last(), n);
        assert forall|i: int| 0 <= i < ts.len() - 1 implies ts.drop_last()[i] == ts[i] by {}
    }
}

pub proof fn lemma_least_remaining(ts: Seq<Train>)
    ensures
        least_remaining(ts) is None <==> forall|i: int| 0 <= i < ts.len() ==> !((#[trigger] ts[i]).status is DeliveringTo),
        least_remaining(ts) matches Some(m) ==> forall|i: int|
            0 <= i < ts.len() ==> ((#[trigger] ts[i]).status matches Status::DeliveringTo(_, _, t) ==> m <= t.0),
    decreases ts.len(),
{
    if ts.len() > 0 {
        lemma_least_remaining(ts.drop_last());
        assert forall|i: int| 0 <= i < ts.len() - 1 implies ts.drop_last()[i] == ts[i] by {}
    }
}

impl Train {
    /// Load never exceeds capacity.
    pub open spec fn wf(&self) -> bool {
        self.load_size.0 <= self.max_capacity.0
    }

    pub fn new(name: &str, max_capacity: Kilogram) -> (r: Train)
        ensures
            r.id@ == name@,
            r.max_capacity == max_capacity,
            r.status is NotAvailable,
            r.load_size.0 == 0,
            r.wf(),
    {
        Train { id: TrainId(name.to_owned()), max_capacity, status: Status::NotAvailable, load_size: Kilogram(0) }
    }

    pub fn set_location(&mut self, location: NodeId)
        ensures
            same_but_status(*old(self), *final(self)),
            final(self).status == Status::StoppedAt(location),
    {
        self.status = Status::StoppedAt(location);
    }

    /// The station where the train stands, if it stands.
    pub fn get_location(&mut self) -> (r: Option<NodeId>)
        ensures
            *final(self) == *old(self),
            r is Some <==> old(self).status is StoppedAt,
            r matches Some(n) ==> old(self).status == Status::StoppedAt(n),
    {
        match &self.status {
            Status::StoppedAt(node) => Some(NodeId(node.0.clone())),
            _ => None,
        }
    }

    /// Whether the package fits in what is left of the capacity.
    pub fn can_accomodate_package(&self, package: &Package) -> (r: bool)
        ensures
            r == (self.load_size.0 + package.weight.0 <= self.max_capacity.0),
    {
        (self.load_size.0 as u64) + (package.weight.0 as u64) <= self.max_capacity.0 as u64
    }

    /// Takes the package on board if it fits; otherwise changes nothing.
    pub fn load_package(&mut self, package: &mut Package)
        requires
            old(self).wf(),
        ensures
            final(self).wf(),
            final(self).id == old(self).id,
            final(self).max_capacity == old(self).max_capacity,
            final(self).status == old(self).status,
            final(package).id == old(package).id,
            final(package).weight == old(package).weight,
            final(package).destination == old(package).destination,
            old(self).load_size.0 + old(package).weight.0 <= old(self).max_capacity.0 ==> {
                &&& final(self).load_size.0 == old(self).load_size.0 + old(package).weight.0
                &&& final(package).status matches package::Status::LoadedTo(t) && t@ == old(self).id@
            },
            old(self).load_size.0 + old(package).weight.0 > old(self).max_capacity.0 ==> {
                &&& final(self).load_size == old(self).load_size
                &&& final(package).status == old(package).status
            },
    {
        if self.can_accomodate_package(package) {
            self.load_size = Kilogram(self.load_size.0 + package.weight.0);
            package.status = package::Status::LoadedTo(TrainId(self.id.0.clone()));
        }
    }

    pub fn move_to(&mut self, origin: &NodeId, destination: &NodeId, travel_time: Minute)
        ensures
            same_but_status(*old(self), *final(self)),
            final(self).status matches Status::DeliveringTo(o, d, m) && o@ == origin@ && d@ == destination@ && m
                == travel_time,
    {
        self.status = Status::DeliveringTo(NodeId(origin.0.clone()), NodeId(destination.0.clone()), travel_time);
    }

    pub fn stopped(&mut self, node: &NodeId)
        ensures
            same_but_status(*old(self), *final(self)),
            final(self).status matches Status::StoppedAt(n) && n@ == node@,
    {
        self.status = Status::StoppedAt(NodeId(node.0.clone()));
    }

    /// Takes the package off at `node`: delivered there if it is its destination, waiting there otherwise.
    pub fn unload_package(&mut self, package: &mut Package, node: &NodeId)
        requires
            old(package).weight.0 <= old(self).load_size.0,
        ensures
            final(self).id == old(self).id,
            final(self).max_capacity == old(self).max_capacity,
            final(self).status == old(self).status,
            final(self).load_size.0 == old(self).load_size.0 - old(package).weight.0,
            unloaded(*old(package), *final(package), node@, old(self).id@),
    {
        if package.destination.0 == node.0 {
            package.status = package::Status::Delivered(TrainId(self.id.0.clone()));
        } else {
            package.status = package::Status::DroppedAt(NodeId(node.0.clone()), TrainId(self.id.0.clone()));
        }
        self.load_size = Kilogram(self.load_size.0 - package.weight.0);
    }
}

/// What one step of the clock by `d` minutes makes of a train's status.
pub open spec fn elapsed(s: Status, t: Status, d: u32) -> bool {
    match s {
        Status::DeliveringTo(o, dst, m) => if m.0 == d {
            t matches Status::StoppedAt(n) && n@ == dst@
        } else {
            t matches Status::DeliveringTo(o2, d2, m2) && o2@ == o@ && d2@ == dst@ && m2.0 == m.0 - d
        },
        _ => t == s,
    }
}

/// What arriving trains make of a package: unloaded by the stopped train that carries it, if any.
pub open spec fn after_arrivals(ts: Seq<Train>, a: Package, b: Package, upto: int) -> bool {
    &&& forall|i: int|
        0 <= i < upto && (#[trigger] ts[i]).status is StoppedAt && carried_by(ts[i].id@)(a) ==> unloaded(
            a,
            b,
            ts[i].status->StoppedAt_0@,
            ts[i].id@,
        )
    &&& (forall|i: int| 0 <= i < upto ==> !((#[trigger] ts[i]).status is StoppedAt && carried_by(ts[i].id@)(a)))
        ==> b == a
}

/// The registry of trains, in the order they were added.
#[derive(Debug, Default)]
pub struct TrainHandler {
    pub trains: Vec<Train>,
}

impl TrainHandler {
    /// Train names are unique and no train carries more than its capacity.
    pub open spec fn wf(&self) -> bool {
        &&& forall|i: int, j: int|
            0 <= i < self.trains@.len() && 0 <= j < self.trains@.len() && i != j
                ==> #[trigger] self.trains@[i].id@ != #[trigger] self.trains@[j].id@
        &&& forall|i: int| 0 <= i < self.trains@.len() ==> (#[trigger] self.trains@[i]).wf()
    }

    /// Registers a train stopped at `location`, unless one of that name exists.
    pub fn add_train(&mut self, name: &str, max_capacity: Kilogram, location: &NodeId) -> (r: Result<(), Error>)
        requires
            old(self).wf(),
        ensures
            final(self).wf(),
            r is Err <==> first_index(old(self).trains@, train_named(name@)) >= 0,
            r matches Err(e) ==> e.kind == ErrorKind::DuplicateTrain && final(self).trains@ == old(self).trains@,
            r is Ok ==> {
                &&& final(self).trains@.len() == old(self).trains@.len() + 1
                &&& final(self).trains@.drop_last() == old(self).trains@
                &&& final(self).trains@.last().id@ == name@
                &&& final(self).trains@.last().max_capacity == max_capacity
                &&& final(self).trains@.last().load_size.0 == 0
                &&& final(self).trains@.last().status == Status::StoppedAt(*location)
            },
    {
        let mut train = Train::new(name, max_capacity);
        train.set_location(NodeId(location.0.clone()));

        if self.find_train_index_by_name(name).is_some() {
            return Err(Error::new(ErrorKind::DuplicateTrain, "train already exists"));
        }
        let ghost old_ts = self.trains@;
        proof {
            lemma_first_index(old_ts, train_named(name@));
        }
        self.trains.push(train);
        assert(self.trains@.drop_last() =~= old_ts);
        Ok(())
    }

    fn find_train_index_by_name(&self, train_name: &str) -> (r: Option<usize>)
        ensures
            r is None <==> first_index(self.trains@, train_named(train_name@)) < 0,
            r matches Some(i) ==> i == first_index(self.trains@, train_named(train_name@)) && i < self.trains@.len(),
    {
        let train_id = TrainId(train_name.to_owned());
        self.find_train_index_by_id(&train_id)
    }

    fn find_train_index_by_id(&self, train_id: &TrainId) -> (r: Option<usize>)
        ensures
            r is None <==> first_index(self.trains@, train_named(train_id@)) < 0,
            r matches Some(i) ==> i == first_index(self.trains@, train_named(train_id@)) && i < self.trains@.len()
                && self.trains@[i as int].id@ == train_id@,
    {
        let mut i: usize = 0;
        while i < self.trains.len()
            invariant
                i <= self.trains@.len(),
                forall|j: int| 0 <= j < i ==> !train_named(train_id@)(#[trigger] self.trains@[j]),
            decreases self.trains@.len() - i,
        {
            if self.trains[i].id.0 == train_id.0 {
                proof {
                    lemma_first_index_is(self.trains@, train_named(train_id@), i as int);
                }
                return Some(i);
            }
            i = i + 1;
        }
        proof {
            lemma_first_index_is(self.trains@, train_named(train_id@), -1);
        }
        None
    }

    pub fn get_train(&self, train_id: &TrainId) -> (r: Option<&Train>)
        ensures
            r is None <==> first_index(self.trains@, train_named(train_id@)) < 0,
            r matches Some(t) ==> *t == self.trains@[first_index(self.trains@, train_named(train_id@))],
    {
        match self.find_train_index_by_id(train_id) {
            Some(pos) => Some(&self.trains[pos]),
            None => None,
        }
    }

    /// Positions of the trains stopped at a station, in registration order.
    pub fn list_trains_stopped_at_node(&self, node_id: &NodeId) -> (r: Vec<usize>)
        ensures
            r@.len() == positions(self.trains@, stopped_at(node_id@)).len(),
            forall|k: int| 0 <= k < r@.len() ==> #[trigger] r@[k] == positions(self.trains@, stopped_at(node_id@))[k],
    {
        let ghost ts = self.trains@;
        let ghost p = stopped_at(node_id@);
        let mut out: Vec<usize> = Vec::new();
        let mut i: usize = 0;
        while i < self.trains.len()
            invariant
                ts == self.trains@,
                p == stopped_at(node_id@),
                i <= ts.len(),
                out@.len() == positions(ts.take(i as int), p).len(),
                forall|k: int| 0 <= k < out@.len() ==> #[trigger] out@[k] == positions(ts.take(i as int), p)[k],
            decreases ts.len() - i,
        {
            proof {
                lemma_positions_take(ts, p, i as int);
            }
            let hit = match &self.trains[i].status {
                Status::StoppedAt(at) => at.0 == node_id.0,
                _ => false,
            };
            if hit {
                out.push(i);
            }
            i = i + 1;
        }
        assert(ts.take(ts.len() as int) =~= ts);
        out
    }

    /// Position of the largest train stopped at a station; the first registered wins ties.
    pub fn largest_capacity_train_index(&self, node_id: &NodeId) -> (r: Option<usize>)
        ensures
            r is None <==> largest_stopped_at(self.trains@, node_id@) < 0,
            r matches Some(i) ==> i == largest_stopped_at(self.trains@, node_id@),
    {
        let ghost ts = self.trains@;
        let mut best: Option<usize> = None;
        let mut i: usize = 0;
        while i < self.trains.len()
            invariant
                ts == self.trains@,
                i <= ts.len(),
                best is None <==> largest_stopped_at(ts.take(i as int), node_id@) < 0,
                best matches Some(b) ==> b == largest_stopped_at(ts.take(i as int), node_id@),
            decreases ts.len() - i,
        {
            proof {
                assert(ts.take(i + 1).drop_last() =~= ts.take(i as int));
                lemma_largest_stopped_at(ts.take(i as int), node_id@);
            }
            let here = match &self.trains[i].status {
                Status::StoppedAt(at) => at.0 == node_id.0,
                _ => false,
            };
            if here {
                match best {
                    None => {
                        best = Some(i);
                    },
                    Some(b) => {
                        if self.trains[b].max_capacity.0 < self.trains[i].max_capacity.0 {
                            best = Some(i);
                        }
                    },
                }
            }
            i = i + 1;
        }
        assert(ts.take(ts.len() as int) =~= ts);
        best
    }

    /// Name of the largest train stopped at a station; the first registered wins ties.
    pub fn find_largest_capacity_train_in_node(&mut self, node_id: &NodeId) -> (r: Option<TrainId>)
        ensures
            *final(self) == *old(self),
            r is None <==> largest_stopped_at(old(self).trains@, node_id@) < 0,
            r matches Some(t) ==> t@ == old(self).trains@[largest_stopped_at(old(self).trains@, node_id@)].id@,
    {
        proof {
            lemma_largest_stopped_at(self.trains@, node_id@);
        }
        match self.largest_capacity_train_index(node_id) {
            Some(i) => Some(TrainId(self.trains[i].id.0.clone())),
            None => None,
        }
    }

    /// The least number of minutes that a moving train still has to go, if any train moves.
    pub fn get_moving_train_lowest_travel_time(&self) -> (r: Option<Minute>)
        ensures
            r matches Some(m) ==> least_remaining(self.trains@) == Some(m.0),
            r is None ==> least_remaining(self.trains@) is None,
    {
        let ghost ts = self.trains@;
        let mut least: Option<u32> = None;
        let mut i: usize = 0;
        while i < self.trains.len()
            invariant
                ts == self.trains@,
                i <= ts.len(),
                least == least_remaining(ts.take(i as int)),
            decreases ts.len() - i,
        {
            proof {
                assert(ts.take(i + 1).drop_last() =~= ts.take(i as int));
            }
            if let Status::DeliveringTo(_, _, m) = &self.trains[i].status {
                least = match least {
                    Some(x) if x <= m.0 => Some(x),
                    _ => Some(m.0),
                };
            }
            i = i + 1;
        }
        assert(ts.take(ts.len() as int) =~= ts);
        match least {
            Some(x) => Some(Minute(x)),
            None => None,
        }
    }

    /// Advances every moving train by `duration`; a train whose trip ends stops at its destination.
    pub fn time_elapsed(&mut self, duration: &Minute)
        requires
            forall|i: int|
                0 <= i < old(self).trains@.len() ==> ((#[trigger] old(self).trains@[i]).status matches Status::DeliveringTo(
                    _,
                    _,
                    m,
                ) ==> duration.0 <= m.0),
        ensures
            final(self).trains@.len() == old(self).trains@.len(),
            forall|i: int|
                0 <= i < old(self).trains@.len() ==> same_but_status(#[trigger] old(self).trains@[i], final(self).trains@[i])
                    && elapsed(old(self).trains@[i].status, final(self).trains@[i].status, duration.0),
    {
        let mut i: usize = 0;
        while i < self.trains.len()
            invariant
                self.trains@.len() == old(self).trains@.len(),
                forall|j: int|
                    0 <= j < self.trains@.len() ==> ((#[trigger] old(self).trains@[j]).status matches Status::DeliveringTo(
                        _,
                        _,
                        m,
                    ) ==> duration.0 <= m.0),
                forall|j: int| i <= j < self.trains@.len() ==> #[trigger] self.trains@[j] == old(self).trains@[j],
                forall|j: int|
                    0 <= j < i ==> same_but_status(#[trigger] old(self).trains@[j], self.trains@[j]) && elapsed(
                        old(self).trains@[j].status,
                        self.trains@[j].status,
                        duration.0,
                    ),
            decreases self.trains@.len() - i,
        {
            let next = match &self.trains[i].status {
                Status::DeliveringTo(origin, destination, travel_time) => Some(
                    (NodeId(origin.0.clone()), NodeId(destination.0.clone()), travel_time.0),
                ),
                _ => None,
            };
            if let Some((origin, destination, travel_time)) = next {
                let remaining_time = travel_time - duration.0;
                if remaining_time == 0 {
                    self.trains[i].stopped(&destination);
                } else {
                    self.trains[i].move_to(&origin, &destination, Minute(remaining_time));
                }
            }
            i = i + 1;
        }
    }

    /// Names of the stopped trains, in registration order.
    pub fn list_stopped_trains(&self) -> (r: Vec<TrainId>)
        ensures
            r@.len() == positions(self.trains@, stopped()).len(),
            forall|k: int| 0 <= k < r@.len() ==> #[trigger] r@[k]@ == self.trains@[positions(self.trains@, stopped())[k]].id@,
    {
        let ghost ts = self.trains@;
        let ghost p = stopped();
        let mut out: Vec<TrainId> = Vec::new();
        let mut i: usize = 0;
        while i < self.trains.len()
            invariant
                ts == self.trains@,
                p == stopped(),
                i <= ts.len(),
                out@.len() == positions(ts.take(i as int), p).len(),
                forall|k: int| 0 <= k < out@.len() ==> #[trigger] out@[k]@ == ts[positions(ts.take(i as int), p)[k]].id@,
            decreases ts.len() - i,
        {
            proof {
                lemma_positions_take(ts, p, i as int);
            }
            if let Status::StoppedAt(_) = &self.trains[i].status {
                out.push(TrainId(self.trains[i].id.0.clone()));
            }
            i = i + 1;
        }
        assert(ts.take(ts.len() as int) =~= ts);
        out
    }

    /// Whether some train of the fleet could carry the package when empty.
    pub fn can_pacakge_be_transported_by_any_trains(&self, package: &Package) -> (r: bool)
        ensures
            r == exists|i: int| 0 <= i < self.trains@.len() && package.weight.0 <= (#[trigger] self.trains@[i]).max_capacity.0,
    {
        let mut i: usize = 0;
        while i < self.trains.len()
            invariant
                i <= self.trains@.len(),
                forall|j: int| 0 <= j < i ==> package.weight.0 > (#[trigger] self.trains@[j]).max_capacity.0,
            decreases self.trains@.len() - i,
        {
            if package.weight.0 <= self.trains[i].max_capacity.0 {
                return true;
            }
            i = i + 1;
        }
        false
    }
    /// Every stopped train unloads the packages on board it at its station.
    pub fn unload_packages_in_trains_that_stopped(&mut self, packages: &mut Vec<Package>)
        requires
            old(self).wf(),
            loads_consistent(old(self).trains@, old(packages)@),
        ensures
            final(self).wf(),
            loads_consistent(final(self).trains@, final(packages)@),
            final(self).trains@.len() == old(self).trains@.len(),
            forall|i: int|
                0 <= i < old(self).trains@.len() ==> (#[trigger] final(self).trains@[i]).id == old(self).trains@[i].id
                    && final(self).trains@[i].max_capacity == old(self).trains@[i].max_capacity
                    && final(self).trains@[i].status == old(self).trains@[i].status,
            final(packages)@.len() == old(packages)@.len(),
            forall|j: int|
                0 <= j < old(packages)@.len() ==> after_arrivals(
                    old(self).trains@,
                    #[trigger] old(packages)@[j],
                    final(packages)@[j],
                    old(self).trains@.len() as int,
                ),
    {
        let ghost ts0 = self.trains@;
        let ghost ps0 = packages@;
        let mut k: usize = 0;
        while k < self.trains.len()
            invariant
                self.wf(),
                loads_consistent(self.trains@, packages@),
                self.trains@.len() == ts0.len(),
                k <= ts0.len(),
                forall|i: int|
                    0 <= i < ts0.len() ==> (#[trigger] self.trains@[i]).id == ts0[i].id && self.trains@[i].max_capacity
                        == ts0[i].max_capacity && self.trains@[i].status == ts0[i].status,
                packages@.len() == ps0.len(),
                forall|j: int| 0 <= j < ps0.len() ==> after_arrivals(ts0, #[trigger] ps0[j], packages@[j], k as int),
            decreases ts0.len() - k,
        {
            let location = match &self.trains[k].status {
                Status::StoppedAt(at) => Some(NodeId(at.0.clone())),
                _ => None,
            };
            if let Some(location) = location {
                let ghost tk = ts0[k as int];
                let ghost id_k = tk.id@;
                let ghost mid = packages@;
                let mut j: usize = 0;
                while j < packages.len()
                    invariant
                        self.wf(),
                        loads_consistent(self.trains@, packages@),
                        self.trains@.len() == ts0.len(),
                        0 <= k < ts0.len(),
                        tk == ts0[k as int],
                        id_k == tk.id@,
                        tk.status is StoppedAt,
                        location@ == tk.status->StoppedAt_0@,
                        forall|i: int|
                            0 <= i < ts0.len() ==> (#[trigger] self.trains@[i]).id == ts0[i].id
                                && self.trains@[i].max_capacity == ts0[i].max_capacity && self.trains@[i].status
                                == ts0[i].status,
                        packages@.len() == ps0.len(),
                        mid.len() == ps0.len(),
                        j <= ps0.len(),
                        forall|l: int| 0 <= l < ps0.len() ==> after_arrivals(ts0, #[trigger] ps0[l], mid[l], k as int),
                        forall|l: int| j <= l < ps0.len() ==> #[trigger] packages@[l] == mid[l],
                        forall|l: int|
                            0 <= l < j ==> after_arrivals(ts0, #[trigger] ps0[l], packages@[l], k + 1),
                    decreases ps0.len() - j,
                {
                    let ghost a = ps0[j as int];
                    proof {
                        // A package is on board at most one train, since train names are unique.
                        assert forall|i: int|
                            0 <= i < k && (#[trigger] ts0[i]).status is StoppedAt && carried_by(ts0[i].id@)(a) implies !carried_by(
                            id_k,
                        )(a) by {
                            assert(self.trains@[i].id@ != self.trains@[k as int].id@);
                        }
                    }
                    if packages[j].is_package_loaded_in_train(&self.trains[k].id) {
                        let ghost before = packages@;
                        let ghost tbefore = self.trains@;
                        proof {
                            lemma_carried_weight_update(before, j as int, before[j as int], id_k);
                        }
                        self.trains[k].unload_package(&mut packages[j], &location);
                        let ghost after = packages@;
                        proof {
                            assert(after == before.update(j as int, after[j as int]));
                            assert forall|i: int| 0 <= i < self.trains@.len() implies (#[trigger] self.trains@[i]).load_size.0
                                == carried_weight(after, self.trains@[i].id@) by {
                                lemma_carried_weight_update(before, j as int, after[j as int], self.trains@[i].id@);
                                if i != k {
                                    assert(self.trains@[i].id@ != self.trains@[k as int].id@);
                                }
                            }
                            assert forall|l: int|
                                0 <= l < after.len() && ((#[trigger] after[l]).status matches package::Status::LoadedTo(
                                    t,
                                )) implies exists|i: int| 0 <= i < self.trains@.len() && (#[trigger] self.trains@[i]).id@ == after[l].status->LoadedTo_0@ by {
                                assert(l != j);
                                assert(after[l] == before[l]);
                                let i = choose|i: int| 0 <= i < tbefore.len() && (#[trigger] tbefore[i]).id@ == before[l].status->LoadedTo_0@;
                                assert(self.trains@[i].id == tbefore[i].id);
                            }
                            assert forall|i: int| 0 <= i < self.trains@.len() implies (#[trigger] self.trains@[i]).wf() by {
                                lemma_carried_weight_update(before, j as int, before[j as int], self.trains@[i].id@);
                            }
                        }
                    }
                    j = j + 1;
                }
            }
            k = k + 1;
        }
    }

    /// Loads a package into the train of that name, if it fits.
    pub fn load_package(&mut self, train_id: &TrainId, package: &mut Package)
        requires
            old(self).wf(),
        ensures
            final(self).wf(),
            first_index(old(self).trains@, train_named(train_id@)) < 0 ==> final(self).trains@ == old(self).trains@
                && *final(package) == *old(package),
            first_index(old(self).trains@, train_named(train_id@)) >= 0 ==> {
                let i = first_index(old(self).trains@, train_named(train_id@));
                let t = old(self).trains@[i];
                let t2 = final(self).trains@[i];
                &&& final(self).trains@ == old(self).trains@.update(i, t2)
                &&& t2.id == t.id && t2.max_capacity == t.max_capacity && t2.status == t.status
                &&& final(package).id == old(package).id && final(package).weight == old(package).weight
                    && final(package).destination == old(package).destination
                &&& t.load_size.0 + old(package).weight.0 <= t.max_capacity.0 ==> t2.load_size.0 == t.load_size.0
                    + old(package).weight.0 && (final(package).status matches package::Status::LoadedTo(x) && x@ == t.id@)
                &&& t.load_size.0 + old(package).weight.0 > t.max_capacity.0 ==> t2.load_size == t.load_size
                    && final(package).status == old(package).status
            },
    {
        if let Some(pos) = self.find_train_index_by_id(train_id) {
            proof {
                assert(self.trains@[pos as int].wf());
            }
            self.trains[pos].load_package(package);
            proof {
                assert forall|i: int| 0 <= i < self.trains@.len() implies (#[trigger] self.trains@[i]).wf() by {
                    if i != pos {
                        assert(self.trains@[i] == old(self).trains@[i]);
                    }
                }
                assert forall|a: int, b: int|
                    0 <= a < self.trains@.len() && 0 <= b < self.trains@.len() && a != b implies #[trigger] self.trains@[a].id@
                    != #[trigger] self.trains@[b].id@ by {
                    assert(self.trains@[a].id == old(self).trains@[a].id);
                    assert(self.trains@[b].id == old(self).trains@[b].id);
                }
            }
        }
    }

    /// Sends the train of that name from `origin` toward `destination`.
    pub fn move_to_node(&mut self, train_id: &TrainId, origin: &NodeId, destination: &NodeId, travel_time: Minute)
        requires
            old(self).wf(),
        ensures
            final(self).wf(),
            first_index(old(self).trains@, train_named(train_id@)) < 0 ==> final(self).trains@ == old(self).trains@,
            first_index(old(self).trains@, train_named(train_id@)) >= 0 ==> {
                let i = first_index(old(self).trains@, train_named(train_id@));
                &&& final(self).trains@ == old(self).trains@.update(i, final(self).trains@[i])
                &&& same_but_status(old(self).trains@[i], final(self).trains@[i])
                &&& final(self).trains@[i].status matches Status::DeliveringTo(o, d, m) && o@ == origin@ && d@
                    == destination@ && m == travel_time
            },
    {
        if let Some(pos) = self.find_train_index_by_id(train_id) {
            self.trains[pos].move_to(origin, destination, travel_time);
        }
    }
}

/// A train name that no registered train has carries nothing.
pub proof fn lemma_no_load_on_new_train(ts: Seq<Train>, ps: Seq<Package>, name: Seq<char>)
    requires
        forall|j: int|
            0 <= j < ps.len() ==> ((#[trigger] ps[j]).status matches package::Status::LoadedTo(t) ==> exists|i: int|
                0 <= i < ts.len() && (#[trigger] ts[i]).id@ == t@),
        forall|i: int| 0 <= i < ts.len() ==> (#[trigger] ts[i]).id@ != name,
    ensures
        carried_weight(ps, name) == 0,
    decreases ps.len(),
{
    if ps.len() > 0 {
        let qs = ps.drop_last();
        assert forall|j: int|
            0 <= j < qs.len() && ((#[trigger] qs[j]).status matches package::Status::LoadedTo(t)) implies exists|i: int|
            0 <= i < ts.len() && (#[trigger] ts[i]).id@ == qs[j].status->LoadedTo_0@ by {
            assert(qs[j] == ps[j]);
        }
        lemma_no_load_on_new_train(ts, qs, name);
        assert(ps[ps.len() - 1] == ps.last());
    }
}

/// `after_arrivals` reads only the trains' names and statuses.
pub proof fn lemma_after_arrivals_same(ts: Seq<Train>, us: Seq<Train>, a: Package, b: Package, upto: int)
    requires
        after_arrivals(ts, a, b, upto),
        us.len() == ts.len(),
        0 <= upto <= ts.len(),
        forall|i: int| 0 <= i < ts.len() ==> (#[trigger] us[i]).id == ts[i].id && us[i].status == ts[i].status,
    ensures
        after_arrivals(us, a, b, upto),
{
    assert forall|i: int|
        0 <= i < upto && (#[trigger] us[i]).status is StoppedAt && carried_by(us[i].id@)(a) implies unloaded(
        a,
        b,
        us[i].status->StoppedAt_0@,
        us[i].id@,
    ) by {
        assert(us[i].id == ts[i].id && us[i].status == ts[i].status);
        assert(ts[i].status is StoppedAt);
    }
    if forall|i: int| 0 <= i < upto ==> !((#[trigger] us[i]).status is StoppedAt && carried_by(us[i].id@)(a)) {
        assert forall|i: int| 0 <= i < upto implies !((#[trigger] ts[i]).status is StoppedAt && carried_by(ts[i].id@)(a)) by {
            assert(us[i].id == ts[i].id && us[i].status == ts[i].status);
        }
    }
}

/// Changing only the trains' statuses keeps every load accounted for, names unique and loads
/// within capacity.
pub proof fn lemma_statuses_only(ts: Seq<Train>, us: Seq<Train>, ps: Seq<Package>)
    requires
        loads_consistent(ts, ps),
        forall|a: int, b: int| 0 <= a < ts.len() && 0 <= b < ts.len() && a != b ==> #[trigger] ts[a].id@ != #[trigger] ts[b].id@,
        forall|i: int| 0 <= i < ts.len() ==> (#[trigger] ts[i]).wf(),
        us.len() == ts.len(),
        forall|i: int| 0 <= i < ts.len() ==> same_but_status(#[trigger] ts[i], us[i]),
    ensures
        loads_consistent(us, ps),
        forall|a: int, b: int| 0 <= a < us.len() && 0 <= b < us.len() && a != b ==> #[trigger] us[a].id@ != #[trigger] us[b].id@,
        forall|i: int| 0 <= i < us.len() ==> (#[trigger] us[i]).wf(),
{
    assert forall|i: int| 0 <= i < us.len() implies (#[trigger] us[i]).load_size.0 == carried_weight(ps, us[i].id@) && us[i].wf() by {
        assert(same_but_status(ts[i], us[i]));
        assert(ts[i].wf());
    }
    assert forall|l: int|
        0 <= l < ps.len() && ((#[trigger] ps[l]).status matches package::Status::LoadedTo(x)) implies exists|i: int|
        0 <= i < us.len() && (#[trigger] us[i]).id@ == ps[l].status->LoadedTo_0@ by {
        let i = choose|i: int| 0 <= i < ts.len() && (#[trigger] ts[i]).id@ == ps[l].status->LoadedTo_0@;
        assert(same_but_status(ts[i], us[i]));
    }
    assert forall|a: int, b: int| 0 <= a < us.len() && 0 <= b < us.len() && a != b implies #[trigger] us[a].id@ != #[trigger] us[b].id@ by {
        assert(same_but_status(ts[a], us[a]));
        assert(same_but_status(ts[b], us[b]));
    }
}

} // verus!
