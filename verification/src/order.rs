//! Ordered sequences of ring points: the successor search over them, and the
//! merge sort that puts a bag of points in order.

use vstd::prelude::*;

verus! {

/// Every element is at most each element after it.
pub open spec fn ascending(s: Seq<u64>) -> bool {
    forall|i: int, j: int| 0 <= i <= j < s.len() ==> s[i] <= s[j]
}

/// Every element is below each element after it.
pub open spec fn strictly_ascending(s: Seq<u64>) -> bool {
    forall|i: int, j: int| 0 <= i < j < s.len() ==> s[i] < s[j]
}

/// `idx` parts `s` into the elements below `target`, which come first, and
/// those at or above it.
pub open spec fn splits_at(s: Seq<u64>, target: u64, idx: int) -> bool {
    &&& 0 <= idx <= s.len()
    &&& forall|i: int| 0 <= i < idx ==> s[i] < target
    &&& forall|i: int| idx <= i < s.len() ==> s[i] >= target
}

/// A strictly ascending sequence is ascending and holds nothing twice.
pub proof fn lemma_strictly_ascending_is_distinct(s: Seq<u64>)
    requires
        strictly_ascending(s),
    ensures
        ascending(s),
        s.no_duplicates(),
{
}

/// A set of points has one strictly ascending sequence: two such sequences
/// that hold the same points are the same sequence.
pub proof fn lemma_ascending_order_is_unique(a: Seq<u64>, b: Seq<u64>)
    requires
        strictly_ascending(a),
        strictly_ascending(b),
        forall|p: u64| a.contains(p) <==> b.contains(p),
    ensures
        a == b,
    decreases a.len(),
{
    if a.len() == 0 {
        if b.len() > 0 {
            assert(b.contains(b[0]));
        }
        assert(a =~= b);
    } else {
        assert(a.contains(a.last()));
        let k = choose|k: int| 0 <= k < b.len() && b[k] == a.last();
        assert(b.contains(b.last()));
        let m = choose|m: int| 0 <= m < a.len() && a[m] == b.last();
        assert(a.last() == b.last());
        let front_a = a.drop_last();
        let front_b = b.drop_last();
        assert forall|p: u64| front_a.contains(p) <==> front_b.contains(p) by {
            if front_a.contains(p) {
                let x = choose|x: int| 0 <= x < front_a.len() && front_a[x] == p;
                assert(a[x] == p);
                assert(a.contains(p));
                let y = choose|y: int| 0 <= y < b.len() && b[y] == p;
                assert(front_b[y] == p);
            }
            if front_b.contains(p) {
                let y = choose|y: int| 0 <= y < front_b.len() && front_b[y] == p;
                assert(b[y] == p);
                assert(b.contains(p));
                let x = choose|x: int| 0 <= x < a.len() && a[x] == p;
                assert(front_a[x] == p);
            }
        }
        lemma_ascending_order_is_unique(front_a, front_b);
        assert(a =~= front_a.push(a.last()));
        assert(b =~= front_b.push(b.last()));
    }
}

/// Binary search: in an ascending vector, the index of the first element at
/// or above `target`, and the length of the vector when there is none.
pub fn lower_bound(points: &Vec<u64>, target: u64) -> (idx: usize)
    ensures
        idx <= points.len(),
        ascending(points@) ==> splits_at(points@, target, idx as int),
{
    let mut lo: usize = 0;
    let mut hi: usize = points.len();
    while lo < hi
        invariant
            lo <= hi <= points.len(),
            ascending(points@) ==> forall|i: int| 0 <= i < lo ==> points[i] < target,
            ascending(points@) ==> forall|i: int| hi <= i < points.len() ==> points[i] >= target,
        decreases hi - lo,
    {
        let mid: usize = lo + (hi - lo) / 2;
        if points[mid] < target {
            lo = mid + 1;
        } else {
            hi = mid;
        }
    }
    lo
}

/// Merges two strictly ascending vectors into the strictly ascending vector
/// of the points that occur in either; a point that both hold comes out once.
fn merge_distinct(a: &Vec<u64>, b: &Vec<u64>) -> (merged: Vec<u64>)
    requires
        strictly_ascending(a@),
        strictly_ascending(b@),
    ensures
        strictly_ascending(merged@),
        forall|p: u64| merged@.contains(p) <==> a@.contains(p) || b@.contains(p),
{
    let mut merged: Vec<u64> = Vec::new();
    let mut i: usize = 0;
    let mut j: usize = 0;
    while i < a.len() || j < b.len()
        invariant
            i <= a.len(),
            j <= b.len(),
            strictly_ascending(a@),
            strictly_ascending(b@),
            strictly_ascending(merged@),
            forall|k: int| 0 <= k < merged.len() && i < a.len() ==> merged[k] < a[i as int],
            forall|k: int| 0 <= k < merged.len() && j < b.len() ==> merged[k] < b[j as int],
            forall|p: u64|
                merged@.contains(p) <==> a@.take(i as int).contains(p) || b@.take(
                    j as int,
                ).contains(p),
        decreases a.len() - i + b.len() - j,
    {
        let ghost before = merged@;
        let ghost i0 = i as int;
        let ghost j0 = j as int;
        let next: u64;
        if j >= b.len() || (i < a.len() && a[i] < b[j]) {
            next = a[i];
            i = i + 1;
        } else if i >= a.len() || b[j] < a[i] {
            next = b[j];
            j = j + 1;
        } else {
            next = a[i];
            i = i + 1;
            j = j + 1;
        }
        merged.push(next);
        proof {
            assert(merged@ == before.push(next));
            assert(a@.take(i as int) == if i > i0 {
                a@.take(i0).push(next)
            } else {
                a@.take(i0)
            });
            assert(b@.take(j as int) == if j > j0 {
                b@.take(j0).push(next)
            } else {
                b@.take(j0)
            });
            assert forall|p: u64|
                merged@.contains(p) <==> a@.take(i as int).contains(p) || b@.take(
                    j as int,
                ).contains(p) by {
                lemma_push_contains(before, next, p);
                lemma_push_contains(a@.take(i0), next, p);
                lemma_push_contains(b@.take(j0), next, p);
            }
        }
    }
    assert(a@.take(i as int) == a@ && b@.take(j as int) == b@);
    merged
}

/// A sequence with one more element holds that element and what it held.
proof fn lemma_push_contains(s: Seq<u64>, last: u64, p: u64)
    ensures
        s.push(last).contains(p) <==> s.contains(p) || p == last,
{
    let longer = s.push(last);
    if s.contains(p) {
        let k = choose|k: int| 0 <= k < s.len() && s[k] == p;
        assert(longer[k] == p);
    }
    if p == last {
        assert(longer[s.len() as int] == p);
    }
}

/// The points of `points[lo..hi]` in strictly ascending order, each once.
fn sorted_distinct_range(points: &Vec<u64>, lo: usize, hi: usize) -> (sorted: Vec<u64>)
    requires
        lo <= hi <= points.len(),
    ensures
        strictly_ascending(sorted@),
        forall|p: u64| sorted@.contains(p) <==> points@.subrange(lo as int, hi as int).contains(p),
    decreases hi - lo,
{
    if hi - lo == 0 {
        Vec::new()
    } else if hi - lo == 1 {
        let mut single: Vec<u64> = Vec::new();
        single.push(points[lo]);
        assert(single@ == points@.subrange(lo as int, hi as int));
        single
    } else {
        let mid: usize = lo + (hi - lo) / 2;
        let left = sorted_distinct_range(points, lo, mid);
        let right = sorted_distinct_range(points, mid, hi);
        proof {
            let whole = points@.subrange(lo as int, hi as int);
            let low = points@.subrange(lo as int, mid as int);
            let high = points@.subrange(mid as int, hi as int);
            assert(whole == low + high);
            assert forall|p: u64| whole.contains(p) <==> low.contains(p) || high.contains(p) by {
                if whole.contains(p) {
                    let k = choose|k: int| 0 <= k < whole.len() && whole[k] == p;
                    if k < low.len() {
                        assert(low[k] == p);
                    } else {
                        assert(high[k - low.len()] == p);
                    }
                }
                if low.contains(p) {
                    let k = choose|k: int| 0 <= k < low.len() && low[k] == p;
                    assert(whole[k] == p);
                }
                if high.contains(p) {
                    let k = choose|k: int| 0 <= k < high.len() && high[k] == p;
                    assert(whole[low.len() + k] == p);
                }
            }
        }
        merge_distinct(&left, &right)
    }
}

/// The points of `points` in strictly ascending order, each once: a merge
/// sort that keeps one of equal points.
pub fn sorted_distinct(points: &Vec<u64>) -> (sorted: Vec<u64>)
    ensures
        strictly_ascending(sorted@),
        forall|p: u64| sorted@.contains(p) <==> points@.contains(p),
{
    assert(points@.subrange(0, points@.len() as int) == points@);
    sorted_distinct_range(points, 0, points.len())
}

} // verus!
