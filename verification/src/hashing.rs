//! Where a node's virtual points lie: the text of a replica's key and the
//! 64-bit FNV hash that turns a key into a point of the ring.

use fnv::FnvHasher;
use std::hash::Hash;
use std::hash::Hasher;
use vstd::prelude::*;
use vstd::string::*;

verus! {

/// The point that `fnv`'s default hasher gives a string: what `finish` reads
/// from `FnvHasher::default()` after std's `Hash` for `String` has fed the
/// string to it. The hasher starts from a fixed offset basis, takes no seed
/// and mixes in the bytes it is given one by one, so the point depends on the
/// characters of the string alone. Nothing is assumed of its value.
pub uninterp spec fn fnv_hash(key: Seq<char>) -> u64;

/// Hashes `key` with `fnv::FnvHasher`: `FnvHasher::default()`, then
/// `Hash::hash` of the string into it, then `Hasher::finish`. This is the one
/// function of the library that is believed and not proved: its contract
/// gives the result a name and claims nothing of its value.
#[verifier::external_body]
pub(crate) fn hash_key(key: &String) -> (point: u64)
    ensures
        point == fnv_hash(key@),
{
    let mut hasher = FnvHasher::default();
    key.hash(&mut hasher);
    hasher.finish()
}

/// The character of a decimal digit.
pub open spec fn digit(d: nat) -> char {
    if d == 0 {
        '0'
    } else if d == 1 {
        '1'
    } else if d == 2 {
        '2'
    } else if d == 3 {
        '3'
    } else if d == 4 {
        '4'
    } else if d == 5 {
        '5'
    } else if d == 6 {
        '6'
    } else if d == 7 {
        '7'
    } else if d == 8 {
        '8'
    } else {
        '9'
    }
}

/// A number in decimal, most significant digit first, without leading zeros.
pub open spec fn decimal(n: nat) -> Seq<char>
    decreases n,
{
    if n < 10 {
        seq![digit(n)]
    } else {
        decimal(n / 10).push(digit(n % 10))
    }
}

/// The key of one virtual node: the replica index and the weight unit in
/// decimal, followed by the node's name, with nothing in between.
pub open spec fn replica_key(replica: nat, unit: nat, name: Seq<char>) -> Seq<char> {
    decimal(replica) + decimal(unit) + name
}

/// The point of the ring at which one virtual node is placed.
pub open spec fn replica_point(replica: nat, unit: nat, name: Seq<char>) -> u64 {
    fnv_hash(replica_key(replica, unit, name))
}

fn digit_text(d: u32) -> (text: &'static str)
    requires
        d < 10,
    ensures
        text@ == seq![digit(d as nat)],
{
    proof {
        reveal_strlit("0");
        reveal_strlit("1");
        reveal_strlit("2");
        reveal_strlit("3");
        reveal_strlit("4");
        reveal_strlit("5");
        reveal_strlit("6");
        reveal_strlit("7");
        reveal_strlit("8");
        reveal_strlit("9");
    }
    let text = match d {
        0 => "0",
        1 => "1",
        2 => "2",
        3 => "3",
        4 => "4",
        5 => "5",
        6 => "6",
        7 => "7",
        8 => "8",
        _ => "9",
    };
    assert(text@ =~= seq![digit(d as nat)]);
    text
}

fn push_decimal(text: &mut String, n: u32)
    ensures
        final(text)@ == old(text)@ + decimal(n as nat),
    decreases n,
{
    if n >= 10 {
        push_decimal(text, n / 10);
    }
    text.append(digit_text(n % 10));
    assert(text@ =~= old(text)@ + decimal(n as nat));
}

/// Writes out the key of the virtual node `(replica, unit)` of `name`.
pub fn render_replica_key(replica: u32, unit: u32, name: &String) -> (key: String)
    ensures
        key@ == replica_key(replica as nat, unit as nat, name@),
{
    let mut key = String::new();
    push_decimal(&mut key, replica);
    push_decimal(&mut key, unit);
    key.append(name.as_str());
    assert(key@ =~= replica_key(replica as nat, unit as nat, name@));
    key
}

/// The points at which a node of the given name and weight is placed when
/// each unit of weight gets `replicas` virtual nodes.
pub open spec fn placements(replicas: nat, name: Seq<char>, weight: nat) -> Set<u64> {
    Set::new(
        |p: u64|
            exists|replica: nat, unit: nat|
                replica < replicas && unit < weight && p == #[trigger] replica_point(
                    replica,
                    unit,
                    name,
                ),
    )
}

/// The points of all virtual nodes of `name`, replica by replica and, within
/// a replica, unit by unit.
pub fn replica_points(replicas: u32, name: &String, weight: u32) -> (points: Vec<u64>)
    ensures
        points@.len() == replicas * weight,
        forall|replica: nat, unit: nat|
            replica < replicas && unit < weight ==> points@[replica * weight + unit]
                == #[trigger] replica_point(replica, unit, name@),
        points@.to_set() == placements(replicas as nat, name@, weight as nat),
{
    let mut points: Vec<u64> = Vec::new();
    let mut i: u32 = 0;
    while i < replicas
        invariant
            i <= replicas,
            points@.len() == i * weight,
            forall|replica: nat, unit: nat|
                replica < i && unit < weight ==> points@[replica * weight + unit]
                    == #[trigger] replica_point(replica, unit, name@),
        decreases replicas - i,
    {
        let mut j: u32 = 0;
        while j < weight
            invariant
                i < replicas,
                j <= weight,
                points@.len() == i * weight + j,
                forall|replica: nat, unit: nat|
                    (replica < i && unit < weight) || (replica == i && unit < j)
                        ==> points@[replica * weight + unit] == #[trigger] replica_point(
                        replica,
                        unit,
                        name@,
                    ),
            decreases weight - j,
        {
            let ghost before = points@;
            let key = render_replica_key(i, j, name);
            points.push(hash_key(&key));
            proof {
                assert forall|replica: nat, unit: nat|
                    (replica < i && unit < weight) || (replica == i && unit < j + 1)
                        implies points@[replica * weight + unit] == #[trigger] replica_point(
                    replica,
                    unit,
                    name@,
                ) by {
                    if replica < i {
                        lemma_cell_in_earlier_row(replica, unit, i as nat, weight as nat);
                        assert(points@[replica * weight + unit] == before[replica * weight + unit]);
                    } else if unit < j {
                        assert(points@[replica * weight + unit] == before[replica * weight + unit]);
                    }
                }
            }
            j = j + 1;
        }
        proof {
            assert(i * weight + weight == (i + 1) * weight) by (nonlinear_arith);
        }
        i = i + 1;
    }
    proof {
        lemma_cells_are_placements(points@, replicas as nat, name@, weight as nat);
    }
    points
}

/// A cell of an earlier row of a table lies before the start of a later row.
proof fn lemma_cell_in_earlier_row(row: nat, column: nat, later: nat, width: nat)
    requires
        row < later,
        column < width,
    ensures
        row * width + column < later * width,
{
    assert(row * width + width == (row + 1) * width) by (nonlinear_arith);
    assert((row + 1) * width <= later * width) by (nonlinear_arith)
        requires
            row + 1 <= later,
    ;
}

/// A table that holds the point of each virtual node, row by row, holds
/// exactly the placements of the node.
proof fn lemma_cells_are_placements(cells: Seq<u64>, replicas: nat, name: Seq<char>, weight: nat)
    requires
        cells.len() == replicas * weight,
        forall|replica: nat, unit: nat|
            replica < replicas && unit < weight ==> cells[(replica * weight + unit) as int]
                == #[trigger] replica_point(replica, unit, name),
    ensures
        cells.to_set() == placements(replicas, name, weight),
{
    assert forall|p: u64| cells.to_set().contains(p) <==> placements(
        replicas,
        name,
        weight,
    ).contains(p) by {
        if cells.contains(p) {
            let k = choose|k: int| 0 <= k < cells.len() && cells[k] == p;
            assert(weight > 0) by (nonlinear_arith)
                requires
                    0 <= k < replicas * weight,
            ;
            let replica = (k / weight as int) as nat;
            let unit = (k % weight as int) as nat;
            vstd::arithmetic::div_mod::lemma_fundamental_div_mod(k, weight as int);
            vstd::arithmetic::div_mod::lemma_mod_bound(k, weight as int);
            assert(replica < replicas) by (nonlinear_arith)
                requires
                    k == weight * replica + unit,
                    0 <= k < replicas * weight,
                    unit < weight,
            ;
            assert(replica * weight + unit == k) by (nonlinear_arith)
                requires
                    k == weight * replica + unit,
            ;
            assert(p == replica_point(replica, unit, name));
        }
        if placements(replicas, name, weight).contains(p) {
            let (replica, unit) = choose|replica: nat, unit: nat|
                replica < replicas && unit < weight && p == #[trigger] replica_point(
                    replica,
                    unit,
                    name,
                );
            lemma_cell_in_earlier_row(replica, unit, replicas, weight);
            assert(cells[(replica * weight + unit) as int] == p);
        }
    }
    assert(cells.to_set() =~= placements(replicas, name, weight));
}

} // verus!
