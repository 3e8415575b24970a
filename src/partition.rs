//! Assignment of every pixel of a grid to the zone of its nearest generator.
use vstd::prelude::*;
use crate::position::{Position, is_closest, get_closest_point};

verus! {

/// `p` lies inside a grid of `width` columns and `height` rows.
pub open spec fn in_grid(p: Position, width: u32, height: u32) -> bool {
    p.x < width && p.y < height
}

/// `zones` is the nearest-point partition of the grid under `generators`:
/// one zone per generator, each without repeated pixels, and a pixel lies in
/// zone `i` exactly when it is in the grid and `i` is its nearest generator.
pub open spec fn is_partition(
    zones: Seq<Vec<Position>>,
    generators: Seq<Position>,
    width: u32,
    height: u32,
) -> bool {
    &&& zones.len() == generators.len()
    &&& forall|i: int| 0 <= i < zones.len() ==> (#[trigger] zones[i])@.no_duplicates()
    &&& forall|i: int, p: Position|
        0 <= i < zones.len() ==> ((#[trigger] zones[i]@.contains(p)) <==> (in_grid(p, width, height)
            && is_closest(p, generators, i)))
}

/// Every pixel of the grid lies in exactly one zone of a partition, and every
/// pixel of a zone lies in the grid.
pub proof fn lemma_partition_covers(
    zones: Seq<Vec<Position>>,
    generators: Seq<Position>,
    width: u32,
    height: u32,
)
    requires
        generators.len() > 0,
        is_partition(zones, generators, width, height),
    ensures
        forall|p: Position|
            #![trigger in_grid(p, width, height)]
            in_grid(p, width, height) ==> exists|i: int|
                0 <= i < zones.len() && (#[trigger] zones[i]@.contains(p)),
        forall|p: Position, i: int, j: int|
            0 <= i < zones.len() && 0 <= j < zones.len() && (#[trigger] zones[i]@.contains(p))
                && (#[trigger] zones[j]@.contains(p)) ==> i == j,
        forall|p: Position, i: int|
            0 <= i < zones.len() && (#[trigger] zones[i]@.contains(p)) ==> in_grid(p, width, height),
{
    assert forall|p: Position| #![trigger in_grid(p, width, height)] in_grid(p, width, height) implies exists|i: int|
        0 <= i < zones.len() && (#[trigger] zones[i]@.contains(p)) by {
        crate::position::lemma_closest_exists(p, generators);
        let i = choose|i: int| is_closest(p, generators, i);
        assert(zones[i]@.contains(p));
    }
    assert forall|p: Position, i: int, j: int|
        0 <= i < zones.len() && 0 <= j < zones.len() && (#[trigger] zones[i]@.contains(p))
            && (#[trigger] zones[j]@.contains(p)) implies i == j by {
        crate::position::lemma_closest_unique(p, generators, i, j);
    }
}

/// Two partitions of the same grid under the same generators hold the same
/// pixels in every zone, so their zones have the same sizes.
pub proof fn lemma_partition_deterministic(
    zones1: Seq<Vec<Position>>,
    zones2: Seq<Vec<Position>>,
    generators: Seq<Position>,
    width: u32,
    height: u32,
)
    requires
        is_partition(zones1, generators, width, height),
        is_partition(zones2, generators, width, height),
    ensures
        zones1.len() == zones2.len(),
        forall|i: int|
            0 <= i < zones1.len() ==> (#[trigger] zones1[i])@.to_set() == zones2[i]@.to_set()
                && zones1[i]@.len() == zones2[i]@.len(),
{
    assert forall|i: int| 0 <= i < zones1.len() implies (#[trigger] zones1[i])@.to_set()
        == zones2[i]@.to_set() && zones1[i]@.len() == zones2[i]@.len() by {
        assert(zones1[i]@.to_set() =~= zones2[i]@.to_set()) by {
            assert forall|p: Position| zones1[i]@.to_set().contains(p) <==> zones2[i]@.to_set().contains(p) by {
                assert(zones1[i]@.contains(p) <==> zones2[i]@.contains(p));
            }
        }
        zones1[i]@.unique_seq_to_set();
        zones2[i]@.unique_seq_to_set();
    }
}

/// Pixels visited before `(x, y)` in column-major order.
spec fn visited_before(p: Position, x: u32, y: u32) -> bool {
    p.x < x || (p.x == x && p.y < y)
}

/// Splits the `width` by `height` grid into the zones of `generators`.
pub fn partition(generators: &Vec<Position>, width: u32, height: u32) -> (zones: Vec<
    Vec<Position>,
>)
    requires
        generators.len() > 0,
    ensures
        is_partition(zones@, generators@, width, height),
{
    let mut zones: Vec<Vec<Position>> = Vec::new();
    let mut k: usize = 0;
    while k < generators.len()
        invariant
            k <= generators.len(),
            zones.len() == k,
            forall|i: int| 0 <= i < k ==> (#[trigger] zones@[i])@.len() == 0,
        decreases generators.len() - k,
    {
        zones.push(Vec::new());
        k = k + 1;
    }
    let mut x: u32 = 0;
    while x < width
        invariant
            x <= width,
            generators.len() > 0,
            zones.len() == generators.len(),
            forall|i: int| 0 <= i < zones.len() ==> (#[trigger] zones@[i])@.no_duplicates(),
            forall|i: int, p: Position|
                0 <= i < zones.len() ==> ((#[trigger] zones@[i]@.contains(p)) <==> (in_grid(
                    p,
                    width,
                    height,
                ) && visited_before(p, x, 0) && is_closest(p, generators@, i))),
        decreases width - x,
    {
        let mut y: u32 = 0;
        while y < height
            invariant
                x < width,
                generators.len() > 0,
                y <= height,
                zones.len() == generators.len(),
                forall|i: int| 0 <= i < zones.len() ==> (#[trigger] zones@[i])@.no_duplicates(),
                forall|i: int, p: Position|
                    0 <= i < zones.len() ==> ((#[trigger] zones@[i]@.contains(p)) <==> (in_grid(
                        p,
                        width,
                        height,
                    ) && visited_before(p, x, y) && is_closest(p, generators@, i))),
            decreases height - y,
        {
            let pos = Position { x, y };
            let c = get_closest_point(&pos, generators);
            let ghost before = zones@;
            zones[c].push(pos);
            assert forall|i: int, p: Position|
                0 <= i < zones.len() implies ((#[trigger] zones@[i]@.contains(p)) <==> (in_grid(
                    p,
                    width,
                    height,
                ) && visited_before(p, x, (y + 1) as u32) && is_closest(p, generators@, i))) by {
                if i == c {
                    assert(zones@[i]@ == before[i]@.push(pos));
                    if p == pos {
                        assert(zones@[i]@.last() == pos);
                    } else {
                        if zones@[i]@.contains(p) {
                            let k = choose|k: int| 0 <= k < zones@[i]@.len() && zones@[i]@[k] == p;
                            assert(before[i]@[k] == p);
                        }
                        if before[i]@.contains(p) {
                            let k = choose|k: int| 0 <= k < before[i]@.len() && before[i]@[k] == p;
                            assert(zones@[i]@[k] == p);
                        }
                    }
                } else {
                    assert(zones@[i] == before[i]);
                    if p == pos && is_closest(p, generators@, i) {
                        crate::position::lemma_closest_unique(p, generators@, i, c as int);
                    }
                }
            }
            assert forall|i: int| 0 <= i < zones.len() implies (#[trigger] zones@[i])@.no_duplicates() by {
                if i == c {
                    assert(!before[i]@.contains(pos));
                    assert(zones@[i]@ == before[i]@.push(pos));
                } else {
                    assert(zones@[i] == before[i]);
                }
            }
            y = y + 1;
        }
        assert forall|i: int, p: Position|
            0 <= i < zones.len() implies ((#[trigger] zones@[i]@.contains(p)) <==> (in_grid(
                p,
                width,
                height,
            ) && visited_before(p, (x + 1) as u32, 0) && is_closest(p, generators@, i))) by {
            assert(in_grid(p, width, height) ==> (visited_before(p, (x + 1) as u32, 0)
                <==> visited_before(p, x, height)));
        }
        x = x + 1;
    }
    zones
}

} // verus!
