//! The ring as it is stored: a hash map from points to node names, and the
//! points once more in ascending order for the successor search.

use crate::hashing::fnv_hash;
use crate::hashing::hash_key;
use crate::hashing::replica_points;
use crate::model::is_successor;
use crate::model::lemma_assign_nothing;
use crate::model::lemma_assign_one_more;
use crate::model::lemma_successor_unique;
use crate::model::successor;
use crate::model::Ring;
use crate::order::lower_bound;
use crate::order::sorted_distinct;
use crate::order::strictly_ascending;
use std::collections::HashMap;
use vstd::prelude::*;
use vstd::std_specs::hash::spec_keys_iter;
use vstd::std_specs::iter::IteratorSpec;

verus! {

/// Why a lookup found no node.
#[derive(Clone, Copy, Debug, PartialEq, Eq, Structural)]
pub enum RingError {
    /// No point is placed on the ring.
    EmptyRing,
}

impl RingError {
    /// The error in words.
    pub fn message(&self) -> (text: &'static str)
        ensures
            text@ == "empty circle"@,
    {
        match self {
            RingError::EmptyRing => "empty circle",
        }
    }
}

/// A consistent-hashing ring of weighted nodes.
pub struct Consistent {
    circle: HashMap<u64, String>,
    sorted_hash: Vec<u64>,
    replicas_num: u32,
}

impl View for Consistent {
    type V = Ring;

    closed spec fn view(&self) -> Ring {
        Ring { owners: owners_of(self.circle@), replicas: self.replicas_num as nat }
    }
}

/// The owner of each point by the characters of its name.
spec fn owners_of(circle: Map<u64, String>) -> Map<u64, Seq<char>> {
    circle.map_values(|name: String| name@)
}

impl Consistent {
    /// The sorted index: the placed points as the successor search walks them.
    pub closed spec fn index(&self) -> Seq<u64> {
        self.sorted_hash@
    }

    /// The sorted index is strictly ascending and holds exactly the placed
    /// points. Every ring is so at all times.
    #[verifier::type_invariant]
    pub open spec fn wf(&self) -> bool {
        &&& strictly_ascending(self.index())
        &&& forall|p: u64| self.index().contains(p) <==> self@.owners.contains_key(p)
    }

    /// A ring without points, not yet configured: its replica count is 0.
    pub fn new() -> (ring: Consistent)
        ensures
            ring.wf(),
            ring@ == Ring::empty(),
    {
        let ring = Consistent { circle: HashMap::new(), sorted_hash: Vec::new(), replicas_num: 0 };
        assert(ring@.owners =~= Map::empty());
        ring
    }

    /// Sets how many virtual nodes each unit of weight gets in the calls of
    /// `add` that follow; 0 counts as 1. The points already placed stay.
    pub fn set_replicas_num(&mut self, num: u32)
        ensures
            final(self).wf(),
            final(self)@ == old(self)@.configure(num as nat),
            final(self).index() == old(self).index(),
    {
        proof {
            use_type_invariant(&*self);
        }
        if num <= 1 {
            self.replicas_num = 1;
        } else {
            self.replicas_num = num;
        }
    }

    /// Adds a node: `name` becomes the owner of the point of each of its
    /// virtual nodes, as many per unit of `weight` as the ring is configured
    /// for, and one per unit on a ring that was never configured. The sorted
    /// index is rebuilt.
    pub fn add(&mut self, name: String, weight: u32)
        ensures
            final(self).wf(),
            final(self)@ == old(self)@.add(name@, weight as nat),
    {
        let replicas: u32 = if self.replicas_num < 1 {
            1
        } else {
            self.replicas_num
        };
        let points = replica_points(replicas, &name, weight);
        self.place(name, &points);
    }

    /// Makes `name` the owner of each point of `points`, whoever owned it
    /// before, and rebuilds the sorted index.
    pub fn place(&mut self, name: String, points: &Vec<u64>)
        ensures
            final(self).wf(),
            final(self)@ == old(self)@.assign(points@.to_set(), name@),
    {
        broadcast use vstd::std_specs::hash::group_hash_axioms;

        let mut ring = Consistent::new();
        std::mem::swap(self, &mut ring);
        let replicas_num = ring.replicas_num;
        let mut circle = ring.circle;
        let mut k: usize = 0;
        proof {
            assert(points@.take(0).to_set() =~= Set::empty());
            lemma_assign_nothing(old(self)@, name@);
        }
        while k < points.len()
            invariant
                k <= points.len(),
                owners_of(circle@) == old(self)@.assign(
                    points@.take(k as int).to_set(),
                    name@,
                ).owners,
            decreases points.len() - k,
        {
            let ghost before = owners_of(circle@);
            circle.insert(points[k], name.clone());
            proof {
                assert(owners_of(circle@) =~= before.insert(points@[k as int], name@));
                assert(points@.take(k + 1) == points@.take(k as int).push(points@[k as int]));
                lemma_assign_one_more(old(self)@, points@.take(k as int), points@[k as int], name@);
            }
            k = k + 1;
        }
        assert(points@.take(k as int) == points@);
        let sorted_hash = Self::sort_hash_key(&circle);
        *self = Consistent { circle, sorted_hash, replicas_num };
    }

    /// The sorted index of a map of placed points: its keys in ascending
    /// order.
    fn sort_hash_key(circle: &HashMap<u64, String>) -> (sorted: Vec<u64>)
        ensures
            strictly_ascending(sorted@),
            forall|p: u64| sorted@.contains(p) <==> circle@.contains_key(p),
    {
        broadcast use vstd::std_specs::hash::group_hash_axioms;

        let mut points: Vec<u64> = Vec::new();
        for point in keys: circle.keys()
            invariant
                points@.len() == keys.index(),
                forall|k: int| 0 <= k < points@.len() ==> points@[k] == *keys.seq()[k],
        {
            points.push(*point);
        }
        proof {
            let walked = spec_keys_iter(circle).remaining().unref();
            assert(points@ =~= walked);
            assert forall|p: u64| points@.contains(p) <==> circle@.contains_key(p) by {
                assert(walked.to_set().contains(p) <==> walked.contains(p));
            }
        }
        sorted_distinct(&points)
    }

    /// The node that serves the position `target` of the circle: the owner of
    /// the first point at or after `target`, and of the smallest point when
    /// `target` lies beyond every point.
    pub fn locate(&self, target: u64) -> (found: Result<String, RingError>)
        ensures
            match found {
                Ok(name) => self@.lookup(target) == Some(name@),
                Err(e) => e == RingError::EmptyRing && self@.lookup(target).is_none(),
            },
    {
        broadcast use vstd::std_specs::hash::group_hash_axioms;

        proof {
            use_type_invariant(self);
        }
        if self.is_empty() {
            return Err(RingError::EmptyRing);
        }
        let ghost points = self@.owners.dom();
        let ghost index = self.sorted_hash@;
        assert(index.len() > 0) by {
            let p = choose|p: u64| self@.owners.contains_key(p);
            assert(index.contains(p));
        }
        let idx = lower_bound(&self.sorted_hash, target);
        let at: usize = if idx < self.sorted_hash.len() {
            idx
        } else {
            0
        };
        let point = self.sorted_hash[at];
        proof {
            assert(index.contains(point));
            assert forall|q: u64| points.contains(q) implies (if point >= target {
                q >= target ==> point <= q
            } else {
                point <= q < target
            }) by {
                assert(index.contains(q));
                let k = choose|k: int| 0 <= k < index.len() && index[k] == q;
                assert(index[k] == q);
            }
            assert(is_successor(points, target, point));
            lemma_successor_unique(points, target, point, successor(points, target));
        }
        let name = self.circle.get(&point).unwrap();
        Ok(name.clone())
    }

    /// The node that serves `value`: the owner of the first point at or after
    /// the hash of `value`, going round the circle.
    pub fn get(&self, value: &String) -> (found: Result<String, RingError>)
        ensures
            match found {
                Ok(name) => self@.lookup(fnv_hash(value@)) == Some(name@),
                Err(e) => e == RingError::EmptyRing && self@.lookup(fnv_hash(value@)).is_none(),
            },
    {
        let key = hash_key(value);
        self.locate(key)
    }

    /// The replica count as it was last set; 0 on a ring that was never
    /// configured, where `add` places one virtual node per unit of weight.
    pub fn replicas_num(&self) -> (num: u32)
        ensures
            num == self@.replicas,
    {
        self.replicas_num
    }

    /// The placed points in ascending order, each once.
    pub fn sorted_points(&self) -> (points: &Vec<u64>)
        ensures
            points@ == self.index(),
            self.wf(),
    {
        proof {
            use_type_invariant(self);
        }
        &self.sorted_hash
    }

    /// The node that owns `point`, if `point` is placed.
    pub fn owner_at(&self, point: u64) -> (owner: Option<String>)
        ensures
            match owner {
                Some(name) => self@.owners.contains_key(point) && self@.owners[point] == name@,
                None => !self@.owners.contains_key(point),
            },
    {
        broadcast use vstd::std_specs::hash::group_hash_axioms;

        match self.circle.get(&point) {
            Some(name) => Some(name.clone()),
            None => None,
        }
    }

    /// The number of placed points.
    pub fn len(&self) -> (count: usize)
        ensures
            count == self@.owners.dom().len(),
    {
        broadcast use vstd::std_specs::hash::group_hash_axioms;

        assert(self@.owners.dom() =~= self.circle@.dom());
        self.circle.len()
    }

    /// Whether no point is placed.
    pub fn is_empty(&self) -> (empty: bool)
        ensures
            empty == self@.is_empty(),
    {
        broadcast use vstd::std_specs::hash::group_hash_axioms;

        let empty = self.circle.len() == 0;
        proof {
            if empty {
                self.circle@.dom().lemma_len0_is_empty();
            } else {
                assert(exists|p: u64| self.circle@.dom().contains(p)) by {
                    if self.circle@.dom() =~= Set::empty() {
                    }
                }
                let p = choose|p: u64| self.circle@.dom().contains(p);
                assert(self@.owners.contains_key(p));
            }
        }
        empty
    }
}

} // verus!
