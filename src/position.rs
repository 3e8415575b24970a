//! Pixel coordinates, squared distances and the nearest-generator rule.
use vstd::prelude::*;

verus! {

/// An integer pixel coordinate.
#[derive(Debug, Clone, Copy, PartialEq, Eq, Structural)]
pub struct Position {
    pub x: u32,
    pub y: u32,
}

/// Absolute difference of two coordinates.
pub open spec fn abs_diff(a: u32, b: u32) -> nat {
    if a >= b { (a - b) as nat } else { (b - a) as nat }
}

/// Squared Euclidean distance between two positions.
pub open spec fn dist2(p: Position, q: Position) -> nat {
    abs_diff(p.x, q.x) * abs_diff(p.x, q.x) + abs_diff(p.y, q.y) * abs_diff(p.y, q.y)
}

/// `i` is the index of the nearest point to `pos` in `points`, the lowest
/// such index when several are equally near.
pub open spec fn is_closest(pos: Position, points: Seq<Position>, i: int) -> bool {
    &&& 0 <= i < points.len()
    &&& forall|j: int| 0 <= j < points.len() ==> dist2(pos, points[i]) <= #[trigger] dist2(pos, points[j])
    &&& forall|j: int| 0 <= j < i ==> dist2(pos, points[i]) < #[trigger] dist2(pos, points[j])
}

/// The nearest point's index is unique.
pub proof fn lemma_closest_unique(pos: Position, points: Seq<Position>, i: int, k: int)
    requires
        is_closest(pos, points, i),
        is_closest(pos, points, k),
    ensures
        i == k,
{
    if i < k {
        assert(dist2(pos, points[k]) < dist2(pos, points[i]));
    } else if k < i {
        assert(dist2(pos, points[i]) < dist2(pos, points[k]));
    }
}

proof fn lemma_square_fits(a: u32)
    ensures
        (a as int) * (a as int) <= 0xffff_ffff_ffff_ffff,
{
    assert((a as int) * (a as int) <= 0xffff_ffff_ffff_ffff) by (nonlinear_arith)
        requires
            a <= 0xffff_ffff,
    ;
}

/// A non-empty list of points has a nearest point to any position.
pub proof fn lemma_closest_exists(pos: Position, points: Seq<Position>)
    requires
        points.len() > 0,
    ensures
        exists|i: int| is_closest(pos, points, i),
    decreases points.len(),
{
    let n = points.len() - 1;
    if n == 0 {
        assert(is_closest(pos, points, 0));
    } else {
        let init = points.drop_last();
        lemma_closest_exists(pos, init);
        let i0 = choose|i: int| is_closest(pos, init, i);
        assert(forall|j: int| 0 <= j < n ==> points[j] == init[j]);
        if dist2(pos, points[n]) < dist2(pos, points[i0]) {
            assert forall|j: int| 0 <= j < n implies dist2(pos, points[n]) < #[trigger] dist2(pos, points[j]) by {
                assert(dist2(pos, init[i0]) <= dist2(pos, init[j]));
            }
            assert(is_closest(pos, points, n));
        } else {
            assert forall|j: int| 0 <= j < points.len() implies dist2(pos, points[i0]) <= #[trigger] dist2(pos, points[j]) by {
                if j < n {
                    assert(dist2(pos, init[i0]) <= dist2(pos, init[j]));
                }
            }
            assert forall|j: int| 0 <= j < i0 implies dist2(pos, points[i0]) < #[trigger] dist2(pos, points[j]) by {
                assert(dist2(pos, init[i0]) < dist2(pos, init[j]));
            }
            assert(is_closest(pos, points, i0));
        }
    }
}

fn get_distance(p1: &Position, p2: &Position) -> (r: u128)
    ensures
        r == dist2(*p1, *p2),
{
    let dx: u32 = if p1.x >= p2.x { p1.x - p2.x } else { p2.x - p1.x };
    let dy: u32 = if p1.y >= p2.y { p1.y - p2.y } else { p2.y - p1.y };
    proof {
        lemma_square_fits(dx);
        lemma_square_fits(dy);
    }
    let dx2: u128 = (dx as u128) * (dx as u128);
    let dy2: u128 = (dy as u128) * (dy as u128);
    dx2 + dy2
}

/// Index of the point of `points` nearest to `position`; ties go to the
/// lowest index. An empty list gives 0.
pub fn get_closest_point(position: &Position, points: &Vec<Position>) -> (r: usize)
    ensures
        points.len() > 0 ==> is_closest(*position, points@, r as int),
        points.len() == 0 ==> r == 0,
{
    if points.len() == 0 {
        return 0;
    }
    let mut closest_index: usize = 0;
    let mut closest_distance: u128 = get_distance(position, &points[0]);
    let mut i: usize = 1;
    while i < points.len()
        invariant
            1 <= i <= points.len(),
            closest_index < i,
            closest_distance == dist2(*position, points@[closest_index as int]),
            forall|j: int| 0 <= j < i ==> closest_distance <= #[trigger] dist2(*position, points@[j]),
            forall|j: int| 0 <= j < closest_index ==> closest_distance < #[trigger] dist2(*position, points@[j]),
        decreases points.len() - i,
    {
        let distance = get_distance(position, &points[i]);
        if distance < closest_distance {
            closest_distance = distance;
            closest_index = i;
        }
        i = i + 1;
    }
    closest_index
}

} // verus!
