//! Scores of a zone against the source image: its mean colour and the mean
//! squared error of its pixels about that colour.
use vstd::prelude::*;
use vstd::arithmetic::div_mod::{
    lemma_div_is_ordered,
    lemma_div_by_multiple,
    lemma_fundamental_div_mod,
};
use crate::position::Position;
use crate::partition::in_grid;
use crate::raster::{Raster, Rgb};

verus! {

/// Every position of `zone` lies inside `img`.
pub open spec fn zone_in_image(img: Raster, zone: Seq<Position>) -> bool {
    forall|i: int| 0 <= i < zone.len() ==> in_grid(#[trigger] zone[i], img.width, img.height)
}

/// Value of channel `c` of `img` at `p`.
pub open spec fn channel(img: Raster, p: Position, c: int) -> int {
    img.pixel(p)@[c] as int
}

/// Sum of channel `c` over the pixels of `zone`.
pub open spec fn channel_sum(img: Raster, zone: Seq<Position>, c: int) -> int
    decreases zone.len(),
{
    if zone.len() == 0 {
        0
    } else {
        channel_sum(img, zone.drop_last(), c) + channel(img, zone.last(), c)
    }
}

/// Mean of channel `c` over `zone`, rounded down; 0 for an empty zone.
pub open spec fn mean_channel(img: Raster, zone: Seq<Position>, c: int) -> int {
    if zone.len() == 0 {
        0
    } else {
        channel_sum(img, zone, c) / (zone.len() as int)
    }
}

/// Squared distance, in channel space, from the colour of `p` to the colour
/// `(m0, m1, m2)`.
pub open spec fn sq_dev(img: Raster, p: Position, m0: int, m1: int, m2: int) -> int {
    (channel(img, p, 0) - m0) * (channel(img, p, 0) - m0) + (channel(img, p, 1) - m1) * (
    channel(img, p, 1) - m1) + (channel(img, p, 2) - m2) * (channel(img, p, 2) - m2)
}

/// Sum of `sq_dev` over `pts`.
pub open spec fn sq_dev_sum(img: Raster, pts: Seq<Position>, m0: int, m1: int, m2: int) -> int
    decreases pts.len(),
{
    if pts.len() == 0 {
        0
    } else {
        sq_dev_sum(img, pts.drop_last(), m0, m1, m2) + sq_dev(img, pts.last(), m0, m1, m2)
    }
}

/// Total squared error of `zone` about its own mean colour.
pub open spec fn zone_sq_error(img: Raster, zone: Seq<Position>) -> int {
    sq_dev_sum(img, zone, mean_channel(img, zone, 0), mean_channel(img, zone, 1), mean_channel(img, zone, 2))
}

/// A mean squared error held exactly, as `total / count`; an empty zone has
/// `count == 0` and error 0.
#[derive(Debug, Clone, Copy, PartialEq, Eq, Structural)]
pub struct Mse {
    pub total: u128,
    pub count: usize,
}

impl Mse {
    /// `self` is a strictly greater error than `other`, compared as the
    /// fractions `total / count` by cross-multiplication (meaningful for
    /// positive counts).
    pub open spec fn exceeds(self, other: Mse) -> bool {
        self.total * other.count > other.total * self.count
    }

    /// Executable form of `exceeds`.
    pub fn greater_than(&self, other: &Mse) -> (r: bool)
        ensures
            r == self.exceeds(*other),
    {
        let a = self.total;
        let n = self.count as u128;
        let b = other.total;
        let m = other.count as u128;
        if n == 0 || m == 0 {
            proof {
                assert(self.exceeds(*other) <==> (n == 0 && m > 0 && a > 0)) by (nonlinear_arith)
                    requires
                        n == 0 || m == 0,
                        a >= 0,
                        b >= 0,
                        n >= 0,
                        m >= 0,
                        self.exceeds(*other) == (a * m > b * n),
                ;
            }
            return n == 0 && m > 0 && a > 0;
        }
        let q1 = a / n;
        let r1 = a % n;
        let q2 = b / m;
        let r2 = b % m;
        proof {
            lemma_cross_compare(a as int, n as int, b as int, m as int);
            assert(r1 * m <= 0xffff_ffff_ffff_ffff * 0xffff_ffff_ffff_ffff) by (nonlinear_arith)
                requires
                    r1 < n,
                    n <= 0xffff_ffff_ffff_ffff,
                    m <= 0xffff_ffff_ffff_ffff,
            ;
            assert(r2 * n <= 0xffff_ffff_ffff_ffff * 0xffff_ffff_ffff_ffff) by (nonlinear_arith)
                requires
                    r2 < m,
                    n <= 0xffff_ffff_ffff_ffff,
                    m <= 0xffff_ffff_ffff_ffff,
            ;
        }
        q1 > q2 || (q1 == q2 && r1 * m > r2 * n)
    }

    /// The error is zero.
    pub fn is_zero(&self) -> (r: bool)
        ensures
            r == (self.total == 0),
    {
        self.total == 0
    }
}

/// Two fractions compare as their quotients, and on equal quotients as their
/// remainders.
proof fn lemma_cross_compare(a: int, n: int, b: int, m: int)
    requires
        a >= 0,
        b >= 0,
        n > 0,
        m > 0,
    ensures
        (a * m > b * n) <==> (a / n > b / m || (a / n == b / m && (a % n) * m > (b % m) * n)),
{
    lemma_fundamental_div_mod(a, n);
    lemma_fundamental_div_mod(b, m);
    let q1 = a / n;
    let r1 = a % n;
    let q2 = b / m;
    let r2 = b % m;
    assert(0 <= r1 < n && 0 <= r2 < m);
    assert(a * m - b * n == (q1 - q2) * (n * m) + r1 * m - r2 * n) by (nonlinear_arith)
        requires
            a == n * q1 + r1,
            b == m * q2 + r2,
    ;
    assert(r1 * m < n * m && r2 * n < n * m && r1 * m >= 0 && r2 * n >= 0) by (nonlinear_arith)
        requires
            0 <= r1 < n,
            0 <= r2 < m,
    ;
    if q1 > q2 {
        assert((q1 - q2) * (n * m) >= n * m) by (nonlinear_arith)
            requires
                q1 - q2 >= 1,
                n * m > 0,
        ;
    } else if q1 < q2 {
        assert((q1 - q2) * (n * m) <= -(n * m)) by (nonlinear_arith)
            requires
                q1 - q2 <= -1,
                n * m > 0,
        ;
    } else {
        assert((q1 - q2) * (n * m) == 0) by (nonlinear_arith)
            requires
                q1 == q2,
        ;
    }
}

/// A channel sum is at most 255 per pixel.
proof fn lemma_channel_sum_bound(img: Raster, zone: Seq<Position>, c: int)
    requires
        0 <= c < 3,
    ensures
        0 <= channel_sum(img, zone, c) <= 255 * zone.len(),
    decreases zone.len(),
{
    if zone.len() > 0 {
        lemma_channel_sum_bound(img, zone.drop_last(), c);
    }
}

/// A mean channel is a byte value.
proof fn lemma_mean_channel_bound(img: Raster, zone: Seq<Position>, c: int)
    requires
        0 <= c < 3,
    ensures
        0 <= mean_channel(img, zone, c) <= 255,
{
    if zone.len() > 0 {
        lemma_channel_sum_bound(img, zone, c);
        let n = zone.len() as int;
        lemma_div_is_ordered(0, channel_sum(img, zone, c), n);
        lemma_div_is_ordered(channel_sum(img, zone, c), 255 * n, n);
        lemma_div_by_multiple(255, n);
    }
}

/// Sum of channel `c` over the first `i` pixels of `zone`, extended by one.
proof fn lemma_prefix_step(zone: Seq<Position>, i: int)
    requires
        0 <= i < zone.len(),
    ensures
        zone.subrange(0, i + 1).drop_last() == zone.subrange(0, i),
        zone.subrange(0, i + 1).last() == zone[i],
{
    assert(zone.subrange(0, i + 1).drop_last() =~= zone.subrange(0, i));
}

/// Per-channel mean colour of `zone`, rounded down; `(0, 0, 0)` when the zone
/// is empty.
pub fn get_zone_average(zone: &Vec<Position>, src: &Raster) -> (r: Rgb)
    requires
        src.wf(),
        zone_in_image(*src, zone@),
    ensures
        forall|c: int| 0 <= c < 3 ==> r@[c] == mean_channel(*src, zone@, c),
{
    if zone.len() == 0 {
        return [0u8, 0u8, 0u8];
    }
    let mut sum: [u128; 3] = [0u128, 0u128, 0u128];
    let mut i: usize = 0;
    while i < zone.len()
        invariant
            src.wf(),
            zone_in_image(*src, zone@),
            i <= zone.len(),
            forall|c: int| 0 <= c < 3 ==> sum@[c] == channel_sum(*src, zone@.subrange(0, i as int), c),
        decreases zone.len() - i,
    {
        let p = zone[i];
        let px = src.get_pixel(p.x, p.y);
        proof {
            lemma_prefix_step(zone@, i as int);
            lemma_channel_sum_bound(*src, zone@.subrange(0, i as int), 0);
            lemma_channel_sum_bound(*src, zone@.subrange(0, i as int), 1);
            lemma_channel_sum_bound(*src, zone@.subrange(0, i as int), 2);
            assert(255 * i <= 255 * 0xffff_ffff_ffff_ffff) by (nonlinear_arith)
                requires i <= 0xffff_ffff_ffff_ffff;
        }
        sum = [sum[0] + px[0] as u128, sum[1] + px[1] as u128, sum[2] + px[2] as u128];
        i = i + 1;
    }
    assert(zone@.subrange(0, zone.len() as int) =~= zone@);
    let n = zone.len() as u128;
    proof {
        lemma_mean_channel_bound(*src, zone@, 0);
        lemma_mean_channel_bound(*src, zone@, 1);
        lemma_mean_channel_bound(*src, zone@, 2);
    }
    [(sum[0] / n) as u8, (sum[1] / n) as u8, (sum[2] / n) as u8]
}

/// Squared distance between two colours in channel space: the sum of the
/// three squared channel differences.
pub open spec fn color_sq_dist(a: Rgb, b: Rgb) -> int {
    (a@[0] - b@[0]) * (a@[0] - b@[0]) + (a@[1] - b@[1]) * (a@[1] - b@[1]) + (a@[2] - b@[2]) * (
    a@[2] - b@[2])
}

proof fn lemma_byte_diff_square(a: int, b: int)
    requires
        0 <= a <= 255,
        0 <= b <= 255,
    ensures
        0 <= (a - b) * (a - b) <= 65025,
{
    assert(0 <= (a - b) * (a - b) <= 65025) by (nonlinear_arith)
        requires
            0 <= a <= 255,
            0 <= b <= 255,
    ;
}

fn get_pixel_mse(p1: &Rgb, p2: &Rgb) -> (r: u32)
    ensures
        r == color_sq_dist(*p1, *p2),
{
    let d0: i32 = p1[0] as i32 - p2[0] as i32;
    let d1: i32 = p1[1] as i32 - p2[1] as i32;
    let d2: i32 = p1[2] as i32 - p2[2] as i32;
    proof {
        lemma_byte_diff_square(p1@[0] as int, p2@[0] as int);
        lemma_byte_diff_square(p1@[1] as int, p2@[1] as int);
        lemma_byte_diff_square(p1@[2] as int, p2@[2] as int);
    }
    ((d0 * d0) + (d1 * d1) + (d2 * d2)) as u32
}

/// A sum of squared deviations from a byte colour is non-negative and at most
/// `3 * 255 * 255` per pixel.
proof fn lemma_sq_dev_sum_bound(img: Raster, pts: Seq<Position>, m0: int, m1: int, m2: int)
    requires
        0 <= m0 <= 255,
        0 <= m1 <= 255,
        0 <= m2 <= 255,
    ensures
        0 <= sq_dev_sum(img, pts, m0, m1, m2) <= 195075 * pts.len(),
    decreases pts.len(),
{
    if pts.len() > 0 {
        lemma_sq_dev_sum_bound(img, pts.drop_last(), m0, m1, m2);
        let p = pts.last();
        lemma_byte_diff_square(channel(img, p, 0), m0);
        lemma_byte_diff_square(channel(img, p, 1), m1);
        lemma_byte_diff_square(channel(img, p, 2), m2);
    }
}

/// Mean squared error of `zone` about its mean colour, held exactly as the
/// total squared error over the number of pixels; an empty zone gives a zero
/// total.
pub fn get_zone_mse(zone: &Vec<Position>, src: &Raster) -> (r: Mse)
    requires
        src.wf(),
        zone_in_image(*src, zone@),
    ensures
        r.count == zone.len(),
        r.total == zone_sq_error(*src, zone@),
{
    if zone.len() == 0 {
        return Mse { total: 0, count: 0 };
    }
    let mean = get_zone_average(zone, src);
    let ghost m0 = mean_channel(*src, zone@, 0);
    let ghost m1 = mean_channel(*src, zone@, 1);
    let ghost m2 = mean_channel(*src, zone@, 2);
    let mut total: u128 = 0;
    let mut i: usize = 0;
    while i < zone.len()
        invariant
            src.wf(),
            zone_in_image(*src, zone@),
            i <= zone.len(),
            m0 == mean@[0] && m1 == mean@[1] && m2 == mean@[2],
            total == sq_dev_sum(*src, zone@.subrange(0, i as int), m0, m1, m2),
        decreases zone.len() - i,
    {
        let p = zone[i];
        let px = src.get_pixel(p.x, p.y);
        let e = get_pixel_mse(&px, &mean);
        proof {
            lemma_prefix_step(zone@, i as int);
            lemma_sq_dev_sum_bound(*src, zone@.subrange(0, i as int), m0, m1, m2);
            assert(195075 * i <= 195075 * 0xffff_ffff_ffff_ffff) by (nonlinear_arith)
                requires i <= 0xffff_ffff_ffff_ffff;
            assert(e == sq_dev(*src, p, m0, m1, m2));
        }
        total = total + e as u128;
        i = i + 1;
    }
    assert(zone@.subrange(0, zone.len() as int) =~= zone@);
    Mse { total, count: zone.len() }
}

/// Channel `c` summed over pixels that all have colour `col`.
proof fn lemma_uniform_channel_sum(img: Raster, pts: Seq<Position>, col: Rgb, c: int)
    requires
        forall|k: int| 0 <= k < pts.len() ==> img.pixel(#[trigger] pts[k]) == col,
    ensures
        channel_sum(img, pts, c) == pts.len() * (col@[c] as int),
    decreases pts.len(),
{
    if pts.len() > 0 {
        let init = pts.drop_last();
        assert forall|k: int| 0 <= k < init.len() implies img.pixel(#[trigger] init[k]) == col by {
            assert(init[k] == pts[k]);
        }
        lemma_uniform_channel_sum(img, init, col, c);
        assert(img.pixel(pts.last()) == col);
        assert(init.len() * (col@[c] as int) + (col@[c] as int) == pts.len() * (col@[c] as int)) by (nonlinear_arith)
            requires
                init.len() + 1 == pts.len(),
        ;
    }
}

/// Squared deviations from `col` of pixels that all have colour `col`.
proof fn lemma_uniform_sq_dev_sum(img: Raster, pts: Seq<Position>, col: Rgb)
    requires
        forall|k: int| 0 <= k < pts.len() ==> img.pixel(#[trigger] pts[k]) == col,
    ensures
        sq_dev_sum(img, pts, col@[0] as int, col@[1] as int, col@[2] as int) == 0,
    decreases pts.len(),
{
    if pts.len() > 0 {
        let init = pts.drop_last();
        assert forall|k: int| 0 <= k < init.len() implies img.pixel(#[trigger] init[k]) == col by {
            assert(init[k] == pts[k]);
        }
        lemma_uniform_sq_dev_sum(img, init, col);
        assert(img.pixel(pts.last()) == col);
        let p = pts.last();
        assert(channel(img, p, 0) == col@[0] && channel(img, p, 1) == col@[1] && channel(img, p, 2) == col@[2]);
        assert(sq_dev(img, p, col@[0] as int, col@[1] as int, col@[2] as int) == 0);
    }
}

/// A zone whose pixels all have one colour has zero squared error.
pub proof fn lemma_uniform_zone_error(img: Raster, zone: Seq<Position>, col: Rgb)
    requires
        forall|k: int| 0 <= k < zone.len() ==> img.pixel(#[trigger] zone[k]) == col,
    ensures
        zone_sq_error(img, zone) == 0,
        zone.len() > 0 ==> forall|c: int| 0 <= c < 3 ==> mean_channel(img, zone, c) == col@[c],
{
    if zone.len() > 0 {
        assert forall|c: int| 0 <= c < 3 implies mean_channel(img, zone, c) == col@[c] by {
            lemma_uniform_channel_sum(img, zone, col, c);
            lemma_div_by_multiple(col@[c] as int, zone.len() as int);
            assert((col@[c] as int) * zone.len() == zone.len() * (col@[c] as int)) by (nonlinear_arith);
        }
        lemma_uniform_sq_dev_sum(img, zone, col);
    }
}

/// Absolute value.
pub open spec fn abs(x: int) -> int {
    if x >= 0 { x } else { -x }
}

proof fn lemma_square_monotone(x: int, y: int)
    requires
        abs(x) <= abs(y),
    ensures
        0 <= x * x <= y * y,
{
    assert(0 <= abs(x) * abs(x) <= abs(y) * abs(y)) by (nonlinear_arith)
        requires
            0 <= abs(x) <= abs(y),
    ;
    assert(x * x == abs(x) * abs(x)) by (nonlinear_arith);
    assert(y * y == abs(y) * abs(y)) by (nonlinear_arith);
}

/// Every pixel of `b` deviates from `(m0, m1, m2)` in every channel at least
/// as much as the pixel of `a` at the same position.
pub open spec fn spreads_wider(
    img_a: Raster,
    a: Seq<Position>,
    img_b: Raster,
    b: Seq<Position>,
    m0: int,
    m1: int,
    m2: int,
) -> bool {
    &&& a.len() == b.len()
    &&& forall|k: int|
        0 <= k < a.len() ==> abs(channel(img_a, #[trigger] a[k], 0) - m0) <= abs(channel(img_b, b[k], 0) - m0)
            && abs(channel(img_a, a[k], 1) - m1) <= abs(channel(img_b, b[k], 1) - m1) && abs(
            channel(img_a, a[k], 2) - m2,
        ) <= abs(channel(img_b, b[k], 2) - m2)
}

proof fn lemma_sq_dev_sum_monotone(
    img_a: Raster,
    a: Seq<Position>,
    img_b: Raster,
    b: Seq<Position>,
    m0: int,
    m1: int,
    m2: int,
)
    requires
        spreads_wider(img_a, a, img_b, b, m0, m1, m2),
    ensures
        0 <= sq_dev_sum(img_a, a, m0, m1, m2) <= sq_dev_sum(img_b, b, m0, m1, m2),
    decreases a.len(),
{
    if a.len() > 0 {
        let n = a.len() - 1;
        assert forall|k: int| 0 <= k < n implies a.drop_last()[k] == a[k] && b.drop_last()[k] == b[k] by {}
        assert(spreads_wider(img_a, a.drop_last(), img_b, b.drop_last(), m0, m1, m2)) by {
            assert forall|k: int| 0 <= k < n implies abs(channel(img_a, #[trigger] a.drop_last()[k], 0) - m0) <= abs(channel(img_b, b.drop_last()[k], 0) - m0)
                && abs(channel(img_a, a.drop_last()[k], 1) - m1) <= abs(channel(img_b, b.drop_last()[k], 1) - m1) && abs(
                channel(img_a, a.drop_last()[k], 2) - m2,
            ) <= abs(channel(img_b, b.drop_last()[k], 2) - m2) by {
                assert(a.drop_last()[k] == a[k]);
            }
        }
        lemma_sq_dev_sum_monotone(img_a, a.drop_last(), img_b, b.drop_last(), m0, m1, m2);
        let p = a[n];
        let q = b[n];
        assert(abs(channel(img_a, a[n], 0) - m0) <= abs(channel(img_b, b[n], 0) - m0));
        lemma_square_monotone(channel(img_a, p, 0) - m0, channel(img_b, q, 0) - m0);
        lemma_square_monotone(channel(img_a, p, 1) - m1, channel(img_b, q, 1) - m1);
        lemma_square_monotone(channel(img_a, p, 2) - m2, channel(img_b, q, 2) - m2);
    }
}

/// Squared error is never negative, and widening the spread of a zone's
/// colours about an unchanged mean never lowers it.
pub proof fn lemma_error_grows_with_spread(
    img_a: Raster,
    zone_a: Seq<Position>,
    img_b: Raster,
    zone_b: Seq<Position>,
)
    requires
        forall|c: int| 0 <= c < 3 ==> mean_channel(img_a, zone_a, c) == mean_channel(img_b, zone_b, c),
        spreads_wider(
            img_a,
            zone_a,
            img_b,
            zone_b,
            mean_channel(img_a, zone_a, 0),
            mean_channel(img_a, zone_a, 1),
            mean_channel(img_a, zone_a, 2),
        ),
    ensures
        0 <= zone_sq_error(img_a, zone_a) <= zone_sq_error(img_b, zone_b),
{
    assert(mean_channel(img_a, zone_a, 0) == mean_channel(img_b, zone_b, 0));
    assert(mean_channel(img_a, zone_a, 1) == mean_channel(img_b, zone_b, 1));
    assert(mean_channel(img_a, zone_a, 2) == mean_channel(img_b, zone_b, 2));
    lemma_sq_dev_sum_monotone(
        img_a,
        zone_a,
        img_b,
        zone_b,
        mean_channel(img_a, zone_a, 0),
        mean_channel(img_a, zone_a, 1),
        mean_channel(img_a, zone_a, 2),
    );
}

} // verus!
