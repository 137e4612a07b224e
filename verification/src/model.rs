//! The ring as a mathematical object: which node owns which point, and which
//! point serves a given position of the circle.

use crate::hashing::placements;
use crate::hashing::replica_point;
use vstd::prelude::*;

verus! {

/// `p` is the point of `points` that serves `target`: the smallest point at or
/// after `target` or, when every point lies before `target`, the smallest
/// point of all (the walk wraps past the end of the circle).
pub open spec fn is_successor(points: Set<u64>, target: u64, p: u64) -> bool {
    &&& points.contains(p)
    &&& if p >= target {
        forall|q: u64| points.contains(q) && q >= target ==> p <= q
    } else {
        forall|q: u64| points.contains(q) ==> p <= q < target
    }
}

/// The point of `points` that serves `target`. It is meaningful when `points`
/// is finite and holds at least one point.
pub open spec fn successor(points: Set<u64>, target: u64) -> u64 {
    choose|p: u64| is_successor(points, target, p)
}

/// What a ring is, apart from how it is stored.
pub struct Ring {
    /// The node that owns each placed point.
    pub owners: Map<u64, Seq<char>>,
    /// The replica count as it was last set; 0 on a ring that was never
    /// configured.
    pub replicas: nat,
}

impl Ring {
    /// The ring that nothing was added to and that was never configured.
    pub open spec fn empty() -> Ring {
        Ring { owners: Map::empty(), replicas: 0 }
    }

    /// No point is placed.
    pub open spec fn is_empty(self) -> bool {
        forall|p: u64| !self.owners.contains_key(p)
    }

    /// The ring with the replica count set to `n`, and to 1 where `n` is 0.
    /// The placed points stay as they are.
    pub open spec fn configure(self, n: nat) -> Ring {
        Ring {
            owners: self.owners,
            replicas: if n < 1 {
                1
            } else {
                n
            },
        }
    }

    /// The ring in which `name` owns every point of `points`, whoever owned it
    /// before, and every other point is as it was.
    pub open spec fn assign(self, points: Set<u64>, name: Seq<char>) -> Ring {
        Ring {
            owners: Map::new(
                |p: u64| self.owners.contains_key(p) || points.contains(p),
                |p: u64|
                    if points.contains(p) {
                        name
                    } else {
                        self.owners[p]
                    },
            ),
            replicas: self.replicas,
        }
    }

    /// How many virtual nodes `add` places per unit of weight: the replica
    /// count, and 1 on a ring that was never configured.
    pub open spec fn replicas_in_effect(self) -> nat {
        if self.replicas < 1 {
            1
        } else {
            self.replicas
        }
    }

    /// The ring after a node is added: the node owns each of its virtual
    /// points, `replicas_in_effect` of them for each unit of weight.
    pub open spec fn add(self, name: Seq<char>, weight: nat) -> Ring {
        self.assign(placements(self.replicas_in_effect(), name, weight), name)
    }

    /// The node that serves the position `target`, if the ring has any point.
    pub open spec fn lookup(self, target: u64) -> Option<Seq<char>> {
        if self.is_empty() {
            None
        } else {
            Some(self.owners[successor(self.owners.dom(), target)])
        }
    }
}

/// One step in the life of a ring.
pub enum Step {
    /// The replica count is set.
    Configure { replicas: nat },
    /// A node is added.
    Add { name: Seq<char>, weight: nat },
}

/// The ring that a sequence of steps makes of the empty ring.
pub open spec fn ran(steps: Seq<Step>) -> Ring
    decreases steps.len(),
{
    if steps.len() == 0 {
        Ring::empty()
    } else {
        let earlier = ran(steps.drop_last());
        match steps.last() {
            Step::Configure { replicas } => earlier.configure(replicas),
            Step::Add { name, weight } => earlier.add(name, weight),
        }
    }
}

/// Assigning no point changes nothing.
pub proof fn lemma_assign_nothing(ring: Ring, name: Seq<char>)
    ensures
        ring.assign(Set::empty(), name) == ring,
{
    assert(ring.assign(Set::empty(), name).owners =~= ring.owners);
}

/// Assigning the points of a sequence comes to assigning them one after the
/// other.
pub proof fn lemma_assign_one_more(ring: Ring, done: Seq<u64>, point: u64, name: Seq<char>)
    ensures
        ring.assign(done.push(point).to_set(), name).owners == ring.assign(
            done.to_set(),
            name,
        ).owners.insert(point, name),
        ring.assign(done.push(point).to_set(), name).replicas == ring.replicas,
{
    let longer = done.push(point);
    assert forall|p: u64| longer.to_set().contains(p) <==> done.to_set().contains(p) || p
        == point by {
        if done.contains(p) {
            let k = choose|k: int| 0 <= k < done.len() && done[k] == p;
            assert(longer[k] == p);
        }
        if p == point {
            assert(longer[done.len() as int] == p);
        }
    }
    assert(ring.assign(longer.to_set(), name).owners =~= ring.assign(
        done.to_set(),
        name,
    ).owners.insert(point, name));
}

/// A position is served by at most one point.
pub proof fn lemma_successor_unique(points: Set<u64>, target: u64, p: u64, q: u64)
    requires
        is_successor(points, target, p),
        is_successor(points, target, q),
    ensures
        p == q,
{
}

/// A finite set with a point in it has a smallest point.
pub proof fn lemma_least_point(points: Set<u64>) -> (least: u64)
    requires
        points.finite(),
        exists|p: u64| points.contains(p),
    ensures
        points.contains(least),
        forall|q: u64| points.contains(q) ==> least <= q,
    decreases points.len(),
{
    let p = choose|p: u64| points.contains(p);
    let rest = points.remove(p);
    if exists|q: u64| rest.contains(q) {
        let m = lemma_least_point(rest);
        if m < p {
            m
        } else {
            p
        }
    } else {
        assert forall|q: u64| points.contains(q) implies p <= q by {
            if q != p {
                assert(rest.contains(q));
            }
        }
        p
    }
}

/// On a finite ring with a point in it, every position is served.
pub proof fn lemma_successor_exists(points: Set<u64>, target: u64)
    requires
        points.finite(),
        exists|p: u64| points.contains(p),
    ensures
        is_successor(points, target, successor(points, target)),
{
    let ahead = points.filter(|q: u64| q >= target);
    if exists|q: u64| ahead.contains(q) {
        points.lemma_len_filter(|q: u64| q >= target);
        let m = lemma_least_point(ahead);
        assert forall|q: u64| points.contains(q) && q >= target implies m <= q by {
            assert(ahead.contains(q));
        }
        assert(is_successor(points, target, m));
    } else {
        let m = lemma_least_point(points);
        assert forall|q: u64| points.contains(q) implies m <= q < target by {
            if q >= target {
                assert(ahead.contains(q));
            }
        }
        assert(is_successor(points, target, m));
    }
}

/// A position that lies beyond every point is served by the smallest point:
/// the circle closes.
pub proof fn lemma_wraps_to_least(points: Set<u64>, target: u64)
    requires
        points.finite(),
        exists|p: u64| points.contains(p),
        forall|p: u64| points.contains(p) ==> p < target,
    ensures
        points.contains(successor(points, target)),
        forall|q: u64| points.contains(q) ==> successor(points, target) <= q,
{
    lemma_successor_exists(points, target);
}

/// A position at which a point is placed is served by that point.
pub proof fn lemma_point_serves_itself(points: Set<u64>, target: u64)
    requires
        points.contains(target),
    ensures
        successor(points, target) == target,
{
    assert(is_successor(points, target, target));
}

/// Lookups depend on the owners of the points alone: two rings with the same
/// owners give every position the same answer, whatever their replica counts.
pub proof fn lemma_lookup_deterministic(a: Ring, b: Ring, target: u64)
    requires
        a.owners == b.owners,
    ensures
        a.lookup(target) == b.lookup(target),
{
}

/// Setting the replica count changes no lookup.
pub proof fn lemma_configure_keeps_lookups(ring: Ring, n: nat, target: u64)
    ensures
        ring.configure(n).lookup(target) == ring.lookup(target),
        ring.configure(n).replicas >= 1,
{
}

/// After a node is added, it owns the point of each of its virtual nodes, and
/// with a weight of 1 or more that is at least one point: the ring is then not
/// empty, configured or not.
pub proof fn lemma_added_node_owns_its_points(ring: Ring, name: Seq<char>, weight: nat)
    ensures
        ring.replicas_in_effect() >= 1,
        forall|replica: nat, unit: nat|
            replica < ring.replicas_in_effect() && unit < weight ==> {
                let point = #[trigger] replica_point(replica, unit, name);
                ring.add(name, weight).owners.contains_key(point) && ring.add(
                    name,
                    weight,
                ).owners[point] == name
            },
        weight >= 1 ==> !ring.add(name, weight).is_empty(),
{
    let placed = placements(ring.replicas_in_effect(), name, weight);
    assert forall|replica: nat, unit: nat|
        replica < ring.replicas_in_effect() && unit < weight implies placed.contains(
        #[trigger] replica_point(replica, unit, name),
    ) by {}
    if weight >= 1 {
        assert(placed.contains(replica_point(0, 0, name)));
        assert(ring.add(name, weight).owners.contains_key(replica_point(0, 0, name)));
    }
}

/// No step removes a point: what is placed stays placed, whatever is added or
/// configured afterwards, and keeps its owner unless the added node takes it.
pub proof fn lemma_points_stay_placed(ring: Ring, name: Seq<char>, weight: nat, n: nat, p: u64)
    requires
        ring.owners.contains_key(p),
    ensures
        ring.configure(n).owners.contains_key(p),
        ring.configure(n).owners[p] == ring.owners[p],
        ring.add(name, weight).owners.contains_key(p),
        ring.add(name, weight).owners[p] == ring.owners[p] || ring.add(name, weight).owners[p]
            == name,
{
}

/// Adding a node of weight 0 leaves the ring as it was.
pub proof fn lemma_add_without_weight(ring: Ring, name: Seq<char>)
    ensures
        ring.add(name, 0) == ring,
{
    assert(ring.add(name, 0).owners =~= ring.owners);
}

/// The placements of a node are finitely many.
pub proof fn lemma_placements_finite(replicas: nat, name: Seq<char>, weight: nat)
    ensures
        placements(replicas, name, weight).finite(),
    decreases replicas,
{
    if replicas == 0 {
        assert(placements(replicas, name, weight) =~= Set::empty());
    } else {
        let last = (replicas - 1) as nat;
        lemma_placements_finite(last, name, weight);
        lemma_row_finite(last, name, weight);
        let row = Set::new(
            |p: u64| exists|unit: nat| unit < weight && p == #[trigger] replica_point(last, unit, name),
        );
        assert(placements(replicas, name, weight) =~= placements(last, name, weight).union(row))
            by {
            assert forall|p: u64| placements(replicas, name, weight).contains(p) implies placements(
                last,
                name,
                weight,
            ).contains(p) || row.contains(p) by {
                let (replica, unit) = choose|replica: nat, unit: nat|
                    replica < replicas && unit < weight && p == #[trigger] replica_point(
                        replica,
                        unit,
                        name,
                    );
                if replica < last {
                    assert(placements(last, name, weight).contains(p));
                } else {
                    assert(p == replica_point(last, unit, name));
                }
            }
        }
    }
}

/// The points of one replica of a node are finitely many.
proof fn lemma_row_finite(replica: nat, name: Seq<char>, weight: nat)
    ensures
        Set::new(
            |p: u64|
                exists|unit: nat| unit < weight && p == #[trigger] replica_point(replica, unit, name),
        ).finite(),
    decreases weight,
{
    let row = Set::new(
        |p: u64| exists|unit: nat| unit < weight && p == #[trigger] replica_point(replica, unit, name),
    );
    if weight == 0 {
        assert(row =~= Set::empty());
    } else {
        let last = (weight - 1) as nat;
        lemma_row_finite(replica, name, last);
        let shorter = Set::new(
            |p: u64| exists|unit: nat| unit < last && p == #[trigger] replica_point(replica, unit, name),
        );
        assert(row =~= shorter.insert(replica_point(replica, last, name))) by {
            assert forall|p: u64| row.contains(p) implies shorter.contains(p) || p
                == replica_point(replica, last, name) by {
                let unit = choose|unit: nat|
                    unit < weight && p == #[trigger] replica_point(replica, unit, name);
                if unit < last {
                    assert(shorter.contains(p));
                }
            }
        }
    }
}

/// Whatever steps a ring has gone through, it holds finitely many points, and
/// each of them is owned by a node that one of the steps added.
pub proof fn lemma_owners_were_added(steps: Seq<Step>)
    ensures
        ran(steps).owners.dom().finite(),
        forall|p: u64| #[trigger]
            ran(steps).owners.contains_key(p) ==> exists|k: int|
                0 <= k < steps.len() && (#[trigger] steps[k] matches Step::Add { name, .. }
                    && name == ran(steps).owners[p]),
    decreases steps.len(),
{
    if steps.len() > 0 {
        let front = steps.drop_last();
        let earlier = ran(front);
        lemma_owners_were_added(front);
        match steps.last() {
            Step::Configure { replicas } => {
                assert forall|p: u64| #[trigger] ran(steps).owners.contains_key(p) implies exists|
                    k: int,
                |
                    0 <= k < steps.len() && (#[trigger] steps[k] matches Step::Add { name, .. }
                        && name == ran(steps).owners[p]) by {
                    let k = choose|k: int|
                        0 <= k < front.len() && (#[trigger] front[k] matches Step::Add { name, .. }
                            && name == earlier.owners[p]);
                    assert(steps[k] == front[k]);
                }
            },
            Step::Add { name, weight } => {
                let placed = placements(earlier.replicas_in_effect(), name, weight);
                lemma_placements_finite(earlier.replicas_in_effect(), name, weight);
                assert(ran(steps).owners.dom() =~= earlier.owners.dom().union(placed));
                assert forall|p: u64| #[trigger] ran(steps).owners.contains_key(p) implies exists|
                    k: int,
                |
                    0 <= k < steps.len() && (#[trigger] steps[k] matches Step::Add { name, .. }
                        && name == ran(steps).owners[p]) by {
                    if placed.contains(p) {
                        let k = steps.len() - 1;
                        assert(steps[k] == steps.last());
                    } else {
                        let k = choose|k: int|
                            0 <= k < front.len() && (#[trigger] front[k] matches Step::Add {
                                name,
                                ..
                            } && name == earlier.owners[p]);
                        assert(steps[k] == front[k]);
                    }
                }
            },
        }
    } else {
        assert(ran(steps).owners.dom() =~= Set::empty());
    }
}

/// A ring with a point in it serves every position, and by a node that was
/// added to it.
pub proof fn lemma_lookup_names_added_node(steps: Seq<Step>, target: u64)
    requires
        !ran(steps).is_empty(),
    ensures
        exists|k: int|
            0 <= k < steps.len() && (#[trigger] steps[k] matches Step::Add { name, .. }
                && ran(steps).lookup(target) == Some(name)),
{
    let ring = ran(steps);
    lemma_owners_were_added(steps);
    let p = choose|p: u64| ring.owners.contains_key(p);
    assert(ring.owners.dom().contains(p));
    lemma_successor_exists(ring.owners.dom(), target);
    let s = successor(ring.owners.dom(), target);
    assert(ring.owners.contains_key(s));
}

/// A ring that was configured, but to which no node was added, serves no
/// position.
pub proof fn lemma_ring_without_nodes_is_empty(steps: Seq<Step>, target: u64)
    requires
        forall|k: int| 0 <= k < steps.len() ==> #[trigger] steps[k] is Configure,
    ensures
        ran(steps).is_empty(),
        ran(steps).lookup(target).is_none(),
    decreases steps.len(),
{
    if steps.len() > 0 {
        assert(steps.last() is Configure) by {
            assert(steps[steps.len() - 1] is Configure);
        }
        lemma_ring_without_nodes_is_empty(steps.drop_last(), target);
    }
}

} // verus!
