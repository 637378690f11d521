use vstd::prelude::*;

use crate::util::kilogram::Kilogram;
use crate::util::search::{first_index, lemma_first_index_is, lemma_positions_take, positions};

use super::{
    error::{Error, ErrorKind},
    node::NodeId,
    train::TrainId,
};

verus! {

/// Where a package is in its life.
#[derive(Debug, PartialEq, Clone)]
pub enum Status {
    /// Delivered in an earlier tick; no longer reported.
    Completed,
    /// Waiting for pickup at a station, left there by a train (empty name when it never moved).
    DroppedAt(NodeId, TrainId),
    /// On board a train.
    LoadedTo(TrainId),
    /// Unloaded at its destination by a train during the current tick.
    Delivered(TrainId),
    /// Frozen at a station: no train of the fleet can carry its weight.
    CantBeTransported(NodeId),
}

/// The name of a package.
#[derive(Debug, Default, PartialEq, Clone)]
pub struct PackageId(pub String);

impl View for PackageId {
    type V = Seq<char>;

    open spec fn view(&self) -> Seq<char> {
        self.0@
    }
}

#[derive(Debug)]
pub struct Package {
    pub id: PackageId,
    pub weight: Kilogram,
    pub destination: NodeId,
    pub status: Status,
}

/// A package named `id`.
pub open spec fn package_named(id: Seq<char>) -> spec_fn(Package) -> bool {
    |p: Package| p.id@ == id
}

/// A package waiting for pickup at station `n`.
pub open spec fn waiting_at(n: Seq<char>) -> spec_fn(Package) -> bool {
    |p: Package| p.status matches Status::DroppedAt(at, _) && at@ == n
}

/// A package waiting for pickup anywhere.
pub open spec fn waiting() -> spec_fn(Package) -> bool {
    |p: Package| p.status is DroppedAt
}

/// A package frozen for want of a train that can carry it.
pub open spec fn frozen() -> spec_fn(Package) -> bool {
    |p: Package| p.status is CantBeTransported
}

/// A package on board the train named `t`.
pub open spec fn carried_by(t: Seq<char>) -> spec_fn(Package) -> bool {
    |p: Package| p.status matches Status::LoadedTo(x) && x@ == t
}

/// A package delivered by the train named `t` during the current tick.
pub open spec fn delivered_by(t: Seq<char>) -> spec_fn(Package) -> bool {
    |p: Package| p.status matches Status::Delivered(x) && x@ == t
}

/// A package still to be moved: waiting somewhere or on board a train.
pub open spec fn outstanding() -> spec_fn(Package) -> bool {
    |p: Package| p.status is DroppedAt || p.status is LoadedTo
}

/// The status a package gets when it is registered between `origin` and `destination`.
pub open spec fn initial_status(s: Status, origin: Seq<char>, destination: Seq<char>) -> bool {
    if origin == destination {
        s is Completed
    } else {
        waits_fresh(s, origin)
    }
}

/// Waiting at station `at`, left there by no train.
pub open spec fn waits_fresh(s: Status, at: Seq<char>) -> bool {
    s matches Status::DroppedAt(n, by) && n@ == at && by@.len() == 0
}

/// What the end-of-tick sweep makes of a package: delivered ones are completed, others stay.
pub open spec fn swept(p: Package, q: Package) -> bool {
    &&& q.id == p.id
    &&& q.weight == p.weight
    &&& q.destination == p.destination
    &&& p.status is Delivered ==> q.status is Completed
    &&& !(p.status is Delivered) ==> q.status == p.status
}

/// Total weight on board the train named `t`.
pub open spec fn carried_weight(ps: Seq<Package>, t: Seq<char>) -> int
    decreases ps.len(),
{
    if ps.len() == 0 {
        0
    } else {
        carried_weight(ps.drop_last(), t) + if carried_by(t)(ps.last()) {
            ps.last().weight.0 as int
        } else {
            0
        }
    }
}

/// Weight that one package adds to the load of train `t`.
pub open spec fn weight_on(p: Package, t: Seq<char>) -> int {
    if carried_by(t)(p) {
        p.weight.0 as int
    } else {
        0
    }
}

pub proof fn lemma_carried_weight_push(ps: Seq<Package>, p: Package, t: Seq<char>)
    ensures
        carried_weight(ps.push(p), t) == carried_weight(ps, t) + weight_on(p, t),
{
    assert(ps.push(p).drop_last() =~= ps);
}

/// Replacing one package changes a train's carried weight by the difference of its share.
pub proof fn lemma_carried_weight_update(ps: Seq<Package>, i: int, p: Package, t: Seq<char>)
    requires
        0 <= i < ps.len(),
    ensures
        carried_weight(ps.update(i, p), t) == carried_weight(ps, t) - weight_on(ps[i], t) + weight_on(p, t),
        0 <= weight_on(ps[i], t) <= carried_weight(ps, t),
    decreases ps.len(),
{
    let qs = ps.update(i, p);
    if i == ps.len() - 1 {
        assert(qs.drop_last() =~= ps.drop_last());
        lemma_carried_weight_nonneg(ps.drop_last(), t);
    } else {
        lemma_carried_weight_update(ps.drop_last(), i, p, t);
        assert(qs.drop_last() =~= ps.drop_last().update(i, p));
    }
}

pub proof fn lemma_carried_weight_nonneg(ps: Seq<Package>, t: Seq<char>)
    ensures
        carried_weight(ps, t) >= 0,
    decreases ps.len(),
{
    if ps.len() > 0 {
        lemma_carried_weight_nonneg(ps.drop_last(), t);
    }
}

/// Carried weight depends only on each package's share.
pub proof fn lemma_carried_weight_pointwise(ps: Seq<Package>, qs: Seq<Package>, t: Seq<char>)
    requires
        ps.len() == qs.len(),
        forall|j: int| 0 <= j < ps.len() ==> weight_on(#[trigger] ps[j], t) == weight_on(qs[j], t),
    ensures
        carried_weight(ps, t) == carried_weight(qs, t),
    decreases ps.len(),
{
    if ps.len() > 0 {
        assert(weight_on(ps[ps.len() - 1], t) == weight_on(qs[qs.len() - 1], t));
        lemma_carried_weight_pointwise(ps.drop_last(), qs.drop_last(), t);
    }
}

impl Package {
    /// A new package waits at its origin, or is complete at once when the origin is its destination.
    pub fn new(name: &str, weight: Kilogram, origin: NodeId, destination: NodeId) -> (r: Package)
        ensures
            r.id@ == name@,
            r.weight == weight,
            r.destination@ == destination@,
            initial_status(r.status, origin@, destination@),
    {
        let status = if origin.0 == destination.0 {
            Status::Completed
        } else {
            Status::DroppedAt(origin, TrainId(String::new()))
        };
        Package { id: PackageId(name.to_owned()), weight, destination, status }
    }

    pub fn is_package_loaded_in_train(&self, train_id: &TrainId) -> (r: bool)
        ensures
            r == carried_by(train_id@)(*self),
    {
        match &self.status {
            Status::LoadedTo(train) => train.0 == train_id.0,
            _ => false,
        }
    }

    /// The station where the package waits, if it waits.
    pub fn get_location(&self) -> (r: Option<&NodeId>)
        ensures
            r is Some <==> self.status is DroppedAt,
            r matches Some(n) ==> self.status matches Status::DroppedAt(at, _) && *n == at,
    {
        match &self.status {
            Status::DroppedAt(node_id, _) => Some(node_id),
            _ => None,
        }
    }

    /// Thaws a frozen package: it waits again where it was frozen.
    pub fn drop_to_origin(&mut self)
        ensures
            final(self).id == old(self).id,
            final(self).weight == old(self).weight,
            final(self).destination == old(self).destination,
            old(self).status matches Status::CantBeTransported(at) ==> waits_fresh(final(self).status, at@),
            !(old(self).status is CantBeTransported) ==> final(self).status == old(self).status,
    {
        let next = match &self.status {
            Status::CantBeTransported(node_id) => Some(NodeId(node_id.0.clone())),
            _ => None,
        };
        if let Some(node_id) = next {
            self.status = Status::DroppedAt(node_id, TrainId(String::new()));
        }
    }

    /// Freezes a waiting package where it waits.
    pub fn set_to_cant_be_transported(&mut self)
        ensures
            final(self).id == old(self).id,
            final(self).weight == old(self).weight,
            final(self).destination == old(self).destination,
            old(self).status matches Status::DroppedAt(at, _) ==> (final(self).status matches Status::CantBeTransported(
                n,
            ) && n@ == at@),
            !(old(self).status is DroppedAt) ==> final(self).status == old(self).status,
    {
        let next = match &self.status {
            Status::DroppedAt(node_id, _) => Some(NodeId(node_id.0.clone())),
            _ => None,
        };
        if let Some(node_id) = next {
            self.status = Status::CantBeTransported(node_id);
        }
    }
}

/// The registry of packages, in the order they were added.
#[derive(Debug, Default)]
pub struct PackageHandler {
    pub packages: Vec<Package>,
}

impl PackageHandler {
    /// Package names are unique.
    pub open spec fn wf(&self) -> bool {
        forall|i: int, j: int|
            0 <= i < self.packages@.len() && 0 <= j < self.packages@.len() && i != j
                ==> #[trigger] self.packages@[i].id@ != #[trigger] self.packages@[j].id@
    }

    pub fn find_package_index_by_name(&self, name: &str) -> (r: Option<usize>)
        ensures
            r is None <==> first_index(self.packages@, package_named(name@)) < 0,
            r matches Some(i) ==> i == first_index(self.packages@, package_named(name@)) && i < self.packages@.len()
                && self.packages@[i as int].id@ == name@,
    {
        let package_id = PackageId(name.to_owned());
        self.find_package_index_by_id(&package_id)
    }

    pub fn find_package_index_by_id(&self, package_id: &PackageId) -> (r: Option<usize>)
        ensures
            r is None <==> first_index(self.packages@, package_named(package_id@)) < 0,
            r matches Some(i) ==> i == first_index(self.packages@, package_named(package_id@)) && i < self.packages@.len()
                && self.packages@[i as int].id@ == package_id@,
    {
        let mut i: usize = 0;
        while i < self.packages.len()
            invariant
                i <= self.packages@.len(),
                forall|j: int| 0 <= j < i ==> !package_named(package_id@)(#[trigger] self.packages@[j]),
            decreases self.packages@.len() - i,
        {
            if self.packages[i].id.0 == package_id.0 {
                proof {
                    lemma_first_index_is(self.packages@, package_named(package_id@), i as int);
                }
                return Some(i);
            }
            i = i + 1;
        }
        proof {
            lemma_first_index_is(self.packages@, package_named(package_id@), -1);
        }
        None
    }

    /// Registers a package, unless one of that name exists.
    pub fn add_package(&mut self, name: &str, weight: Kilogram, origin: NodeId, destination: NodeId) -> (r: Result<
        (),
        Error,
    >)
        requires
            old(self).wf(),
        ensures
            final(self).wf(),
            r is Err <==> first_index(old(self).packages@, package_named(name@)) >= 0,
            r matches Err(e) ==> e.kind == ErrorKind::DuplicatePackage && final(self).packages@ == old(
                self,
            ).packages@,
            r is Ok ==> final(self).packages@.len() == old(self).packages@.len() + 1 && final(self).packages@.drop_last()
                == old(self).packages@ && final(self).packages@.last().id@ == name@ && final(self).packages@.last().weight
                == weight && final(self).packages@.last().destination@ == destination@ && initial_status(
                final(self).packages@.last().status,
                origin@,
                destination@,
            ),
    {
        if self.find_package_index_by_name(name).is_some() {
            return Err(Error::new(ErrorKind::DuplicatePackage, "package already exists"));
        }
        let ghost old_ps = self.packages@;
        proof {
            crate::util::search::lemma_first_index(old_ps, package_named(name@));
        }
        self.packages.push(Package::new(name, weight, origin, destination));
        assert(self.packages@.drop_last() =~= old_ps);
        Ok(())
    }

    /// Whether any package still waits or travels.
    pub fn have_undelivered_packages(&self) -> (r: bool)
        ensures
            r == exists|i: int| 0 <= i < self.packages@.len() && outstanding()(#[trigger] self.packages@[i]),
    {
        let mut i: usize = 0;
        while i < self.packages.len()
            invariant
                i <= self.packages@.len(),
                forall|j: int| 0 <= j < i ==> !outstanding()(#[trigger] self.packages@[j]),
            decreases self.packages@.len() - i,
        {
            match &self.packages[i].status {
                Status::DroppedAt(_, _) | Status::LoadedTo(_) => {
                    return true;
                },
                _ => {},
            }
            i = i + 1;
        }
        false
    }

    /// Names of the packages waiting at a station, in registration order.
    pub fn list_undelivered_packages_at_node(&self, node_id: &NodeId) -> (r: Vec<PackageId>)
        ensures
            r@.len() == positions(self.packages@, waiting_at(node_id@)).len(),
            forall|k: int| 0 <= k < r@.len() ==> #[trigger] r@[k]@ == self.packages@[positions(self.packages@, waiting_at(node_id@))[k]].id@,
    {
        let ghost ps = self.packages@;
        let ghost p = waiting_at(node_id@);
        let mut out: Vec<PackageId> = Vec::new();
        let mut i: usize = 0;
        while i < self.packages.len()
            invariant
                ps == self.packages@,
                p == waiting_at(node_id@),
                i <= ps.len(),
                out@.len() == positions(ps.take(i as int), p).len(),
                forall|k: int| 0 <= k < out@.len() ==> #[trigger] out@[k]@ == ps[positions(ps.take(i as int), p)[k]].id@,
            decreases ps.len() - i,
        {
            proof {
                lemma_positions_take(ps, p, i as int);
            }
            let hit = match &self.packages[i].status {
                Status::DroppedAt(at, _) => at.0 == node_id.0,
                _ => false,
            };
            if hit {
                out.push(PackageId(self.packages[i].id.0.clone()));
            }
            i = i + 1;
        }
        assert(ps.take(ps.len() as int) =~= ps);
        out
    }
    /// Positions of the packages waiting at a station, in registration order.
    pub fn positions_waiting_at(&self, node_id: &NodeId) -> (r: Vec<usize>)
        ensures
            r@.len() == positions(self.packages@, waiting_at(node_id@)).len(),
            forall|k: int| 0 <= k < r@.len() ==> #[trigger] r@[k] == positions(self.packages@, waiting_at(node_id@))[k],
    {
        let ghost ps = self.packages@;
        let ghost p = waiting_at(node_id@);
        let mut out: Vec<usize> = Vec::new();
        let mut i: usize = 0;
        while i < self.packages.len()
            invariant
                ps == self.packages@,
                p == waiting_at(node_id@),
                i <= ps.len(),
                out@.len() == positions(ps.take(i as int), p).len(),
                forall|k: int| 0 <= k < out@.len() ==> #[trigger] out@[k] == positions(ps.take(i as int), p)[k],
            decreases ps.len() - i,
        {
            proof {
                lemma_positions_take(ps, p, i as int);
            }
            let hit = match &self.packages[i].status {
                Status::DroppedAt(at, _) => at.0 == node_id.0,
                _ => false,
            };
            if hit {
                out.push(i);
            }
            i = i + 1;
        }
        assert(ps.take(ps.len() as int) =~= ps);
        out
    }

    pub fn get_package_mut(&mut self, package_id: &PackageId) -> (r: Option<&mut Package>)
        ensures
            r is None <==> first_index(old(self).packages@, package_named(package_id@)) < 0,
            r is None ==> *final(self) == *old(self),
            r matches Some(p) ==> *p == old(self).packages@[first_index(old(self).packages@, package_named(package_id@))]
                && final(self).packages@ == old(self).packages@.update(
                first_index(old(self).packages@, package_named(package_id@)),
                *final(p),
            ),
    {
        match self.find_package_index_by_id(package_id) {
            Some(pos) => Some(&mut self.packages[pos]),
            None => None,
        }
    }

    pub fn get_package(&self, package_id: &PackageId) -> (r: Option<&Package>)
        ensures
            r is None <==> first_index(self.packages@, package_named(package_id@)) < 0,
            r matches Some(p) ==> *p == self.packages@[first_index(self.packages@, package_named(package_id@))],
    {
        match self.find_package_index_by_id(package_id) {
            Some(pos) => Some(&self.packages[pos]),
            None => None,
        }
    }

    /// Names of the packages on board a train, in registration order.
    pub fn list_package_names_in_transit(&self, train_id: &TrainId) -> (r: Vec<String>)
        ensures
            r@.len() == positions(self.packages@, carried_by(train_id@)).len(),
            forall|k: int| 0 <= k < r@.len() ==> #[trigger] r@[k]@ == self.packages@[positions(self.packages@, carried_by(train_id@))[k]].id@,
    {
        let ghost ps = self.packages@;
        let ghost p = carried_by(train_id@);
        let mut out: Vec<String> = Vec::new();
        let mut i: usize = 0;
        while i < self.packages.len()
            invariant
                ps == self.packages@,
                p == carried_by(train_id@),
                i <= ps.len(),
                out@.len() == positions(ps.take(i as int), p).len(),
                forall|k: int| 0 <= k < out@.len() ==> #[trigger] out@[k]@ == ps[positions(ps.take(i as int), p)[k]].id@,
            decreases ps.len() - i,
        {
            proof {
                lemma_positions_take(ps, p, i as int);
            }
            let hit = match &self.packages[i].status {
                Status::LoadedTo(t) => t.0 == train_id.0,
                _ => false,
            };
            if hit {
                out.push(self.packages[i].id.0.clone());
            }
            i = i + 1;
        }
        assert(ps.take(ps.len() as int) =~= ps);
        out
    }

    /// Names of the packages a train delivered during the current tick, in registration order.
    pub fn list_package_names_delivered(&self, train_id: &TrainId) -> (r: Vec<String>)
        ensures
            r@.len() == positions(self.packages@, delivered_by(train_id@)).len(),
            forall|k: int| 0 <= k < r@.len() ==> #[trigger] r@[k]@ == self.packages@[positions(self.packages@, delivered_by(train_id@))[k]].id@,
    {
        let ghost ps = self.packages@;
        let ghost p = delivered_by(train_id@);
        let mut out: Vec<String> = Vec::new();
        let mut i: usize = 0;
        while i < self.packages.len()
            invariant
                ps == self.packages@,
                p == delivered_by(train_id@),
                i <= ps.len(),
                out@.len() == positions(ps.take(i as int), p).len(),
                forall|k: int| 0 <= k < out@.len() ==> #[trigger] out@[k]@ == ps[positions(ps.take(i as int), p)[k]].id@,
            decreases ps.len() - i,
        {
            proof {
                lemma_positions_take(ps, p, i as int);
            }
            let hit = match &self.packages[i].status {
                Status::Delivered(t) => t.0 == train_id.0,
                _ => false,
            };
            if hit {
                out.push(self.packages[i].id.0.clone());
            }
            i = i + 1;
        }
        assert(ps.take(ps.len() as int) =~= ps);
        out
    }

    /// Names of all packages waiting for pickup, in registration order.
    pub fn list_undelivered_packages(&self) -> (r: Vec<PackageId>)
        ensures
            r@.len() == positions(self.packages@, waiting()).len(),
            forall|k: int| 0 <= k < r@.len() ==> #[trigger] r@[k]@ == self.packages@[positions(self.packages@, waiting())[k]].id@,
    {
        let ghost ps = self.packages@;
        let ghost p = waiting();
        let mut out: Vec<PackageId> = Vec::new();
        let mut i: usize = 0;
        while i < self.packages.len()
            invariant
                ps == self.packages@,
                p == waiting(),
                i <= ps.len(),
                out@.len() == positions(ps.take(i as int), p).len(),
                forall|k: int| 0 <= k < out@.len() ==> #[trigger] out@[k]@ == ps[positions(ps.take(i as int), p)[k]].id@,
            decreases ps.len() - i,
        {
            proof {
                lemma_positions_take(ps, p, i as int);
            }
            if let Status::DroppedAt(_, _) = &self.packages[i].status {
                out.push(PackageId(self.packages[i].id.0.clone()));
            }
            i = i + 1;
        }
        assert(ps.take(ps.len() as int) =~= ps);
        out
    }

    /// Positions of all packages waiting for pickup, in registration order.
    pub fn list_undelivered_packages_mut(&self) -> (r: Vec<usize>)
        ensures
            r@.len() == positions(self.packages@, waiting()).len(),
            forall|k: int| 0 <= k < r@.len() ==> #[trigger] r@[k] == positions(self.packages@, waiting())[k],
    {
        let ghost ps = self.packages@;
        let ghost p = waiting();
        let mut out: Vec<usize> = Vec::new();
        let mut i: usize = 0;
        while i < self.packages.len()
            invariant
                ps == self.packages@,
                p == waiting(),
                i <= ps.len(),
                out@.len() == positions(ps.take(i as int), p).len(),
                forall|k: int| 0 <= k < out@.len() ==> #[trigger] out@[k] == positions(ps.take(i as int), p)[k],
            decreases ps.len() - i,
        {
            proof {
                lemma_positions_take(ps, p, i as int);
            }
            if let Status::DroppedAt(_, _) = &self.packages[i].status {
                out.push(i);
            }
            i = i + 1;
        }
        assert(ps.take(ps.len() as int) =~= ps);
        out
    }

    /// Positions of all frozen packages, in registration order.
    pub fn list_cant_be_transported_packages_mut(&self) -> (r: Vec<usize>)
        ensures
            r@.len() == positions(self.packages@, frozen()).len(),
            forall|k: int| 0 <= k < r@.len() ==> #[trigger] r@[k] == positions(self.packages@, frozen())[k],
    {
        let ghost ps = self.packages@;
        let ghost p = frozen();
        let mut out: Vec<usize> = Vec::new();
        let mut i: usize = 0;
        while i < self.packages.len()
            invariant
                ps == self.packages@,
                p == frozen(),
                i <= ps.len(),
                out@.len() == positions(ps.take(i as int), p).len(),
                forall|k: int| 0 <= k < out@.len() ==> #[trigger] out@[k] == positions(ps.take(i as int), p)[k],
            decreases ps.len() - i,
        {
            proof {
                lemma_positions_take(ps, p, i as int);
            }
            if let Status::CantBeTransported(_) = &self.packages[i].status {
                out.push(i);
            }
            i = i + 1;
        }
        assert(ps.take(ps.len() as int) =~= ps);
        out
    }

    /// Marks every package delivered during this tick as completed; nothing else changes.
    pub fn delist_delivered_packages(&mut self)
        ensures
            final(self).packages@.len() == old(self).packages@.len(),
            forall|i: int| 0 <= i < old(self).packages@.len() ==> swept(#[trigger] old(self).packages@[i], final(self).packages@[i]),
    {
        let mut i: usize = 0;
        while i < self.packages.len()
            invariant
                i <= self.packages@.len(),
                self.packages@.len() == old(self).packages@.len(),
                forall|j: int| i <= j < self.packages@.len() ==> #[trigger] self.packages@[j] == old(self).packages@[j],
                forall|j: int| 0 <= j < i ==> swept(#[trigger] old(self).packages@[j], self.packages@[j]),
            decreases self.packages@.len() - i,
        {
            if let Status::Delivered(_) = &self.packages[i].status {
                self.packages[i].status = Status::Completed;
            }
            i = i + 1;
        }
    }
}

} // verus!
