//! Rendering of the zones as a mosaic: every pixel of a zone takes the zone's
//! mean colour.
use vstd::prelude::*;
use crate::position::Position;
use crate::partition::in_grid;
use crate::raster::{Raster, lemma_index_in_bounds, lemma_index_injective};
use crate::zone::{mean_channel, get_zone_average};
use crate::refiner::{Voronoi, zones_in_image, zones_disjoint};

verus! {

/// The pixel of `out` at `p` has the mean colour of `zone` in `src`.
pub open spec fn shows_mean(out: Raster, src: Raster, zone: Seq<Position>, p: Position) -> bool {
    forall|c: int| 0 <= c < 3 ==> (#[trigger] out.pixel(p)@[c]) == mean_channel(src, zone, c)
}

/// A raster of the size of `src` in which every pixel of every zone has
/// that zone's mean colour and every other pixel is black.
pub fn render_mosaic(voronoi: &Voronoi, src: &Raster) -> (out: Raster)
    requires
        src.wf(),
        zones_in_image(*src, voronoi.zones@),
        zones_disjoint(voronoi.zones@),
    ensures
        out.wf(),
        out.width == src.width,
        out.height == src.height,
        forall|i: int, p: Position|
            0 <= i < voronoi.zones@.len() && (#[trigger] voronoi.zones@[i]@.contains(p))
                ==> shows_mean(out, *src, voronoi.zones@[i]@, p),
        forall|p: Position|
            in_grid(p, src.width, src.height) && (forall|i: int|
                0 <= i < voronoi.zones@.len() ==> !(#[trigger] voronoi.zones@[i]@.contains(p)))
                ==> out.pixel(p) == [0u8, 0u8, 0u8],
{
    let zones = &voronoi.zones;
    let _ = src.pixels.len();
    let mut out = Raster::new_black(src.width, src.height);
    assert forall|p: Position| in_grid(p, src.width, src.height) implies out.pixel(p) == [0u8, 0u8, 0u8] by {
        lemma_index_in_bounds(p, src.width, src.height);
    }
    let mut i: usize = 0;
    while i < zones.len()
        invariant
            src.wf(),
            zones_in_image(*src, zones@),
            zones_disjoint(zones@),
            i <= zones.len(),
            out.wf(),
            out.width == src.width,
            out.height == src.height,
            forall|j: int, p: Position|
                0 <= j < i && (#[trigger] zones@[j]@.contains(p)) ==> shows_mean(out, *src, zones@[j]@, p),
            forall|p: Position|
                in_grid(p, src.width, src.height) && (forall|j: int|
                    0 <= j < i ==> !(#[trigger] zones@[j]@.contains(p))) ==> out.pixel(p) == [0u8, 0u8, 0u8],
        decreases zones.len() - i,
    {
        let zone = &zones[i];
        let colour = get_zone_average(zone, src);
        let mut k: usize = 0;
        while k < zone.len()
            invariant
                src.wf(),
                zones_in_image(*src, zones@),
                zones_disjoint(zones@),
                i < zones.len(),
                zone == zones@[i as int],
                k <= zone.len(),
                out.wf(),
                out.width == src.width,
                out.height == src.height,
                forall|c: int| 0 <= c < 3 ==> colour@[c] == mean_channel(*src, zone@, c),
                forall|j: int, p: Position|
                    0 <= j < i && (#[trigger] zones@[j]@.contains(p)) ==> shows_mean(out, *src, zones@[j]@, p),
                forall|m: int| 0 <= m < k ==> shows_mean(out, *src, zone@, #[trigger] zone@[m]),
                forall|p: Position|
                    in_grid(p, src.width, src.height) && (forall|j: int|
                        0 <= j < i ==> !(#[trigger] zones@[j]@.contains(p))) && (forall|m: int|
                        0 <= m < k ==> #[trigger] zone@[m] != p) ==> out.pixel(p) == [0u8, 0u8, 0u8],
            decreases zone.len() - k,
        {
            let q = zone[k];
            assert(in_grid(zone@[k as int], src.width, src.height));
            let ghost before = out;
            out.put_pixel(q.x, q.y, colour);
            proof {
                assert(q == Position { x: q.x, y: q.y });
                lemma_index_in_bounds(q, src.width, src.height);
                assert(out.pixel(q) == colour);
                assert forall|j: int, p: Position|
                    0 <= j < i && (#[trigger] zones@[j]@.contains(p)) implies shows_mean(out, *src, zones@[j]@, p) by {
                    assert(shows_mean(before, *src, zones@[j]@, p));
                    assert(zones@[i as int]@.contains(q));
                    assert(p != q);
                    let t = choose|t: int| 0 <= t < zones@[j]@.len() && zones@[j]@[t] == p;
                    assert(in_grid(zones@[j]@[t], src.width, src.height));
                    lemma_index_injective(p, q, src.width, src.height);
                    lemma_index_in_bounds(p, src.width, src.height);
                    assert(out.pixel(p) == before.pixel(p));
                }
                assert forall|p: Position|
                    in_grid(p, src.width, src.height) && (forall|j: int|
                        0 <= j < i ==> !(#[trigger] zones@[j]@.contains(p))) && (forall|m: int|
                        0 <= m < k + 1 ==> #[trigger] zone@[m] != p) implies out.pixel(p) == [0u8, 0u8, 0u8] by {
                    assert(zone@[k as int] != p);
                    lemma_index_injective(p, q, src.width, src.height);
                    lemma_index_in_bounds(p, src.width, src.height);
                    assert(out.pixel(p) == before.pixel(p));
                }
                assert forall|m: int| 0 <= m < k + 1 implies shows_mean(out, *src, zone@, #[trigger] zone@[m]) by {
                    let p = zone@[m];
                    if p != q {
                        assert(in_grid(zone@[m], src.width, src.height));
                        lemma_index_injective(p, q, src.width, src.height);
                        lemma_index_in_bounds(p, src.width, src.height);
                        assert(out.pixel(p) == before.pixel(p));
                    }
                }
            }
            k = k + 1;
        }
        assert forall|j: int, p: Position|
            0 <= j < i + 1 && (#[trigger] zones@[j]@.contains(p)) implies shows_mean(out, *src, zones@[j]@, p) by {
            if j == i {
                let t = choose|t: int| 0 <= t < zones@[j]@.len() && zones@[j]@[t] == p;
                assert(shows_mean(out, *src, zone@, zone@[t]));
            }
        }
        assert forall|p: Position|
            in_grid(p, src.width, src.height) && (forall|j: int|
                0 <= j < i + 1 ==> !(#[trigger] zones@[j]@.contains(p))) implies out.pixel(p) == [0u8, 0u8, 0u8] by {
            assert(!zones@[i as int]@.contains(p));
            assert forall|m: int| 0 <= m < zone.len() implies #[trigger] zone@[m] != p by {
                if zone@[m] == p {
                    assert(zone@.contains(p));
                }
            }
        }
        i = i + 1;
    }
    out
}

/// A snapshot is due after iteration `iteration` when `interval` is positive
/// and divides it; an interval of 0 never asks for one.
pub fn snapshot_due(iteration: u32, interval: u32) -> (r: bool)
    ensures
        r == (interval > 0 && iteration % interval == 0),
{
    interval > 0 && iteration % interval == 0
}

} // verus!
