//! The adaptive refinement loop: choose the zone that a flat colour fits
//! worst and split its generator in two.
use vstd::prelude::*;
use crate::position::Position;
use crate::partition::{in_grid, is_partition, partition};
use crate::raster::Raster;
use crate::zone::{zone_in_image, zone_sq_error, get_zone_mse, Mse};
use crate::sampling::draw_below;
use rand::rngs::StdRng;

verus! {

/// Conditions under which refinement stops.
#[derive(Debug, Clone, Copy, PartialEq, Eq, Structural)]
pub enum RefineError {
    /// No generator was asked for, or the image has no pixels.
    InvalidConfiguration,
    /// No zone may be split: every zone is empty or filtered out.
    DegenerateSelection,
    /// A split was asked of a zone without pixels.
    EmptyZoneSampling,
}

/// Choices of the splitting policy.
#[derive(Debug, Clone, Copy, PartialEq, Eq, Structural)]
pub struct RefineOptions {
    /// Move the split zone's generator to the first sampled pixel (otherwise
    /// it stays where it is).
    pub replace_origin: bool,
    /// Consider only zones at least as large as the median zone.
    pub filter_by_median_size: bool,
}

/// Number of zones of `zones` with at most `v` pixels.
pub open spec fn count_at_most(zones: Seq<Vec<Position>>, v: int) -> int
    decreases zones.len(),
{
    if zones.len() == 0 {
        0
    } else {
        count_at_most(zones.drop_last(), v) + if zones.last()@.len() <= v {
            1int
        } else {
            0int
        }
    }
}

/// Zone `i` may be split: it has pixels and, when filtering, its size is at
/// least the median zone size. A size reaches the median (the middle element,
/// rounded up, of the sorted sizes) exactly when more than half of the zones
/// are no larger.
pub open spec fn eligible(zones: Seq<Vec<Position>>, i: int, filter: bool) -> bool {
    &&& zones[i]@.len() > 0
    &&& filter ==> 2 * count_at_most(zones, zones[i]@.len() as int) > zones.len()
}

/// Some zone may be split.
pub open spec fn has_eligible(zones: Seq<Vec<Position>>, filter: bool) -> bool {
    exists|i: int| 0 <= i < zones.len() && eligible(zones, i, filter)
}

/// Zone `a` has a strictly greater mean squared error than zone `b`.
pub open spec fn worse(img: Raster, a: Seq<Position>, b: Seq<Position>) -> bool {
    zone_sq_error(img, a) * b.len() > zone_sq_error(img, b) * a.len()
}

/// `i` is the eligible zone of greatest mean squared error, the lowest such
/// index on ties.
pub open spec fn is_worst(img: Raster, zones: Seq<Vec<Position>>, filter: bool, i: int) -> bool {
    &&& 0 <= i < zones.len()
    &&& eligible(zones, i, filter)
    &&& forall|j: int|
        0 <= j < zones.len() && eligible(zones, j, filter) ==> !worse(
            img,
            (#[trigger] zones[j])@,
            zones[i]@,
        )
    &&& forall|j: int|
        0 <= j < i && eligible(zones, j, filter) ==> worse(img, zones[i]@, (#[trigger] zones[j])@)
}

/// Every zone lies inside `img`.
pub open spec fn zones_in_image(img: Raster, zones: Seq<Vec<Position>>) -> bool {
    forall|i: int| 0 <= i < zones.len() ==> zone_in_image(img, (#[trigger] zones[i])@)
}

/// Fractions with positive denominators: `a <= b < c` gives `a < c`.
proof fn lemma_fraction_order(ea: int, na: int, eb: int, nb: int, ec: int, nc: int)
    requires
        na > 0,
        nb > 0,
        nc > 0,
        ea * nb <= eb * na,
        eb * nc < ec * nb,
    ensures
        ea * nc < ec * na,
{
    assert(ea * nb * nc <= eb * na * nc) by (nonlinear_arith)
        requires
            ea * nb <= eb * na,
            nc > 0,
    ;
    assert(eb * nc * na < ec * nb * na) by (nonlinear_arith)
        requires
            eb * nc < ec * nb,
            na > 0,
    ;
    assert((ea * nc) * nb < (ec * na) * nb) by (nonlinear_arith)
        requires
            ea * nb * nc <= eb * na * nc,
            eb * nc * na < ec * nb * na,
    ;
    assert(ea * nc < ec * na) by (nonlinear_arith)
        requires
            (ea * nc) * nb < (ec * na) * nb,
            nb > 0,
    ;
}

/// Number of zones with at most `v` pixels.
fn count_zones_at_most(zones: &Vec<Vec<Position>>, v: usize) -> (r: usize)
    ensures
        r == count_at_most(zones@, v as int),
{
    let mut n: usize = 0;
    let mut k: usize = 0;
    while k < zones.len()
        invariant
            k <= zones.len(),
            n <= k,
            n == count_at_most(zones@.subrange(0, k as int), v as int),
        decreases zones.len() - k,
    {
        assert(zones@.subrange(0, k + 1).drop_last() =~= zones@.subrange(0, k as int));
        if zones[k].len() <= v {
            n = n + 1;
        }
        k = k + 1;
    }
    assert(zones@.subrange(0, zones.len() as int) =~= zones@);
    n
}

fn is_eligible(zones: &Vec<Vec<Position>>, i: usize, filter: bool) -> (r: bool)
    requires
        i < zones.len(),
    ensures
        r == eligible(zones@, i as int, filter),
{
    let size = zones[i].len();
    if size == 0 {
        return false;
    }
    if !filter {
        return true;
    }
    let c = count_zones_at_most(zones, size);
    2 * (c as u128) > zones.len() as u128
}

/// Index of the zone to split: the eligible zone of greatest mean squared
/// error, the lowest index on ties; `DegenerateSelection` when no zone is
/// eligible.
pub fn select_worst_zone(zones: &Vec<Vec<Position>>, src: &Raster, filter: bool) -> (r: Result<
    usize,
    RefineError,
>)
    requires
        src.wf(),
        zones_in_image(*src, zones@),
    ensures
        r.is_err() <==> !has_eligible(zones@, filter),
        r is Err ==> r == Err::<usize, RefineError>(RefineError::DegenerateSelection),
        r matches Ok(i) ==> is_worst(*src, zones@, filter, i as int),
{
    let mut best: Option<(usize, Mse)> = None;
    let mut i: usize = 0;
    while i < zones.len()
        invariant
            src.wf(),
            zones_in_image(*src, zones@),
            i <= zones.len(),
            best is None ==> forall|j: int| 0 <= j < i ==> !eligible(zones@, j, filter),
            best matches Some((b, m)) ==> {
                &&& b < i
                &&& eligible(zones@, b as int, filter)
                &&& m.total == zone_sq_error(*src, zones@[b as int]@)
                &&& m.count == zones@[b as int]@.len()
                &&& forall|j: int|
                    0 <= j < i && eligible(zones@, j, filter) ==> !worse(
                        *src,
                        (#[trigger] zones@[j])@,
                        zones@[b as int]@,
                    )
                &&& forall|j: int|
                    0 <= j < b && eligible(zones@, j, filter) ==> worse(
                        *src,
                        zones@[b as int]@,
                        (#[trigger] zones@[j])@,
                    )
            },
        decreases zones.len() - i,
    {
        if is_eligible(zones, i, filter) {
            let m = get_zone_mse(&zones[i], src);
            match best {
                None => {
                    best = Some((i, m));
                },
                Some((b, mb)) => {
                    if m.greater_than(&mb) {
                        proof {
                            let zi = zones@[i as int]@;
                            let zb = zones@[b as int]@;
                            assert forall|j: int|
                                0 <= j < i && eligible(zones@, j, filter) implies worse(
                                *src,
                                zi,
                                (#[trigger] zones@[j])@,
                            ) && !worse(*src, zones@[j]@, zi) by {
                                let zj = zones@[j]@;
                                lemma_fraction_order(
                                    zone_sq_error(*src, zj),
                                    zj.len() as int,
                                    zone_sq_error(*src, zb),
                                    zb.len() as int,
                                    zone_sq_error(*src, zi),
                                    zi.len() as int,
                                );
                            }
                        }
                        best = Some((i, m));
                    }
                },
            }
        }
        i = i + 1;
    }
    match best {
        None => Err(RefineError::DegenerateSelection),
        Some((b, _)) => Ok(b),
    }
}

/// The generators and, index for index, their zones.
pub struct Voronoi {
    /// The generator of each zone.
    pub points: Vec<Position>,
    /// `zones[i]` holds the pixels of the zone of `points[i]`.
    pub zones: Vec<Vec<Position>>,
}

impl Voronoi {
    /// One zone per generator, and at least one generator.
    pub open spec fn wf(&self) -> bool {
        &&& self.points.len() == self.zones.len()
        &&& self.points.len() > 0
    }

    /// Generators and zones over `src` as a partition computes them.
    pub open spec fn partitioned(&self, src: Raster) -> bool {
        &&& self.wf()
        &&& is_partition(self.zones@, self.points@, src.width, src.height)
    }

    /// The zones of `generators` over `src`; `InvalidConfiguration` when
    /// there is no generator.
    pub fn with_generators(src: &Raster, generators: Vec<Position>) -> (r: Result<
        Voronoi,
        RefineError,
    >)
        ensures
            r.is_err() <==> generators.len() == 0,
            r is Err ==> r == Err::<Voronoi, RefineError>(RefineError::InvalidConfiguration),
            r matches Ok(v) ==> v.partitioned(*src) && v.points@ == generators@,
    {
        if generators.len() == 0 {
            return Err(RefineError::InvalidConfiguration);
        }
        let zones = partition(&generators, src.width, src.height);
        Ok(Voronoi { points: generators, zones })
    }
}

/// Generators after a split of zone `worst`: the first sampled pixel `zone[a]`
/// takes the zone's generator's place when `replace_origin` holds, and the
/// second, `zone[b]`, is appended.
pub open spec fn split_points(
    points: Seq<Position>,
    zone: Seq<Position>,
    worst: int,
    a: int,
    b: int,
    replace_origin: bool,
) -> Seq<Position> {
    (if replace_origin {
        points.update(worst, zone[a])
    } else {
        points
    }).push(zone[b])
}

/// A split adds exactly one generator and one zone; every other generator
/// keeps its coordinates, and the split zone's generator moves to the first
/// sampled pixel exactly when `replace_origin` holds.
pub proof fn lemma_split_growth(
    points: Seq<Position>,
    old_zones: Seq<Vec<Position>>,
    new_zones: Seq<Vec<Position>>,
    worst: int,
    a: int,
    b: int,
    replace_origin: bool,
)
    requires
        0 <= worst < points.len(),
        0 <= a < old_zones[worst]@.len(),
        0 <= b < old_zones[worst]@.len(),
        split_zones(old_zones, new_zones),
    ensures
        split_points(points, old_zones[worst]@, worst, a, b, replace_origin).len() == points.len() + 1,
        new_zones.len() == old_zones.len() + 1,
        forall|j: int|
            0 <= j < points.len() && j != worst ==> #[trigger] split_points(
                points,
                old_zones[worst]@,
                worst,
                a,
                b,
                replace_origin,
            )[j] == points[j],
        split_points(points, old_zones[worst]@, worst, a, b, replace_origin)[worst] == if replace_origin {
            old_zones[worst]@[a]
        } else {
            points[worst]
        },
        split_points(points, old_zones[worst]@, worst, a, b, replace_origin).last() == old_zones[worst]@[b],
{
}

/// When every zone is empty no zone may be split, whatever the filter.
pub proof fn lemma_empty_zones_degenerate(zones: Seq<Vec<Position>>, filter: bool)
    requires
        forall|i: int| 0 <= i < zones.len() ==> (#[trigger] zones[i])@.len() == 0,
    ensures
        !has_eligible(zones, filter),
{
}

/// Zones after a split: the old ones, then an empty one for the new
/// generator.
pub open spec fn split_zones(old_zones: Seq<Vec<Position>>, new_zones: Seq<Vec<Position>>) -> bool {
    &&& new_zones.len() == old_zones.len() + 1
    &&& new_zones.drop_last() == old_zones
    &&& new_zones.last()@.len() == 0
}

/// No pixel lies in two zones.
pub open spec fn zones_disjoint(zones: Seq<Vec<Position>>) -> bool {
    forall|i: int, j: int, p: Position|
        0 <= i < zones.len() && 0 <= j < zones.len() && i != j && (#[trigger] zones[i]@.contains(p))
            ==> !(#[trigger] zones[j]@.contains(p))
}

/// Splits zone `worst` with the pixels at positions `first` and `second` of
/// it; `EmptyZoneSampling` when the zone has no pixels.
pub fn split_zone(
    voronoi: &mut Voronoi,
    worst: usize,
    first: usize,
    second: usize,
    replace_origin: bool,
) -> (r: Result<(), RefineError>)
    requires
        old(voronoi).wf(),
        worst < old(voronoi).zones.len(),
        old(voronoi).zones@[worst as int]@.len() == 0 || (first < old(
            voronoi,
        ).zones@[worst as int]@.len() && second < old(voronoi).zones@[worst as int]@.len()),
    ensures
        r.is_err() <==> old(voronoi).zones@[worst as int]@.len() == 0,
        r is Err ==> r == Err::<(), RefineError>(RefineError::EmptyZoneSampling) && *final(voronoi)
            == *old(voronoi),
        r is Ok ==> final(voronoi).wf() && final(voronoi).points@ == split_points(
            old(voronoi).points@,
            old(voronoi).zones@[worst as int]@,
            worst as int,
            first as int,
            second as int,
            replace_origin,
        ) && split_zones(old(voronoi).zones@, final(voronoi).zones@),
{
    if voronoi.zones[worst].len() == 0 {
        return Err(RefineError::EmptyZoneSampling);
    }
    let p1 = voronoi.zones[worst][first];
    let p2 = voronoi.zones[worst][second];
    if replace_origin {
        voronoi.points.set(worst, p1);
    }
    voronoi.points.push(p2);
    let ghost before = voronoi.zones@;
    voronoi.zones.push(Vec::new());
    assert(voronoi.zones@.drop_last() =~= before);
    Ok(())
}

/// Chooses the zone to split and splits it with two pixels drawn from it,
/// uniformly and with replacement; returns the index of the split zone.
pub fn add_point_to_voronoi(
    voronoi: &mut Voronoi,
    src: &Raster,
    options: RefineOptions,
    rng: &mut StdRng,
) -> (r: Result<usize, RefineError>)
    requires
        old(voronoi).wf(),
        src.wf(),
        zones_in_image(*src, old(voronoi).zones@),
    ensures
        r.is_err() <==> !has_eligible(old(voronoi).zones@, options.filter_by_median_size),
        r is Err ==> r == Err::<usize, RefineError>(RefineError::DegenerateSelection)
            && *final(voronoi) == *old(voronoi),
        r matches Ok(w) ==> {
            &&& is_worst(*src, old(voronoi).zones@, options.filter_by_median_size, w as int)
            &&& final(voronoi).wf()
            &&& split_zones(old(voronoi).zones@, final(voronoi).zones@)
            &&& exists|a: int, b: int|
                0 <= a < old(voronoi).zones@[w as int]@.len() && 0 <= b < old(
                    voronoi,
                ).zones@[w as int]@.len() && final(voronoi).points@ == split_points(
                    old(voronoi).points@,
                    old(voronoi).zones@[w as int]@,
                    w as int,
                    a,
                    b,
                    options.replace_origin,
                )
        },
{
    let worst = match select_worst_zone(&voronoi.zones, src, options.filter_by_median_size) {
        Ok(w) => w,
        Err(e) => {
            return Err(e);
        },
    };
    let n = voronoi.zones[worst].len();
    let first = draw_below(rng, n);
    let second = draw_below(rng, n);
    let _ = split_zone(voronoi, worst, first, second, options.replace_origin);
    Ok(worst)
}

/// Rebuilds every zone from the current generators.
pub fn recalculate_voronoi_zones(voronoi: &mut Voronoi, src: &Raster)
    requires
        old(voronoi).wf(),
    ensures
        final(voronoi).points == old(voronoi).points,
        final(voronoi).partitioned(*src),
{
    voronoi.zones = partition(&voronoi.points, src.width, src.height);
}

/// The zones of a partition lie inside the image.
pub proof fn lemma_partition_in_image(zones: Seq<Vec<Position>>, generators: Seq<Position>, src: Raster)
    requires
        is_partition(zones, generators, src.width, src.height),
    ensures
        zones_in_image(src, zones),
{
    assert forall|i: int| 0 <= i < zones.len() implies zone_in_image(src, (#[trigger] zones[i])@) by {
        assert forall|k: int| 0 <= k < zones[i]@.len() implies in_grid(
            #[trigger] zones[i]@[k],
            src.width,
            src.height,
        ) by {
            assert(zones[i]@.contains(zones[i]@[k]));
        }
    }
}

/// The zones of a partition are pairwise disjoint.
pub proof fn lemma_partition_disjoint(
    zones: Seq<Vec<Position>>,
    generators: Seq<Position>,
    width: u32,
    height: u32,
)
    requires
        is_partition(zones, generators, width, height),
    ensures
        zones_disjoint(zones),
{
    assert forall|i: int, j: int, p: Position|
        0 <= i < zones.len() && 0 <= j < zones.len() && i != j && (#[trigger] zones[i]@.contains(
            p,
        )) implies !(#[trigger] zones[j]@.contains(p)) by {
        if zones[j]@.contains(p) {
            crate::position::lemma_closest_unique(p, generators, i, j);
        }
    }
}

/// One iteration of the refinement loop: rebuild every zone from the
/// generators, then split the zone that a flat colour fits worst; returns
/// the index of the split zone.
pub fn refine_step(
    voronoi: &mut Voronoi,
    src: &Raster,
    options: RefineOptions,
    rng: &mut StdRng,
) -> (r: Result<usize, RefineError>)
    requires
        old(voronoi).wf(),
        src.wf(),
    ensures
        final(voronoi).wf(),
        r is Err ==> {
            &&& r == Err::<usize, RefineError>(RefineError::DegenerateSelection)
            &&& final(voronoi).partitioned(*src)
            &&& final(voronoi).points == old(voronoi).points
            &&& !has_eligible(final(voronoi).zones@, options.filter_by_median_size)
        },
        r matches Ok(w) ==> exists|zones: Seq<Vec<Position>>, a: int, b: int|
            {
                &&& is_partition(zones, old(voronoi).points@, src.width, src.height)
                &&& is_worst(*src, zones, options.filter_by_median_size, w as int)
                &&& 0 <= a < zones[w as int]@.len()
                &&& 0 <= b < zones[w as int]@.len()
                &&& final(voronoi).points@ == split_points(
                    old(voronoi).points@,
                    zones[w as int]@,
                    w as int,
                    a,
                    b,
                    options.replace_origin,
                )
                &&& split_zones(zones, final(voronoi).zones@)
            },
{
    recalculate_voronoi_zones(voronoi, src);
    proof {
        lemma_partition_in_image(voronoi.zones@, voronoi.points@, *src);
    }
    add_point_to_voronoi(voronoi, src, options, rng)
}

/// Draws `count` generators uniformly over the image and builds their zones;
/// `InvalidConfiguration` when `count` is zero or the image has no pixels.
pub fn initiate_voronoi(src: &Raster, count: u32, rng: &mut StdRng) -> (r: Result<
    Voronoi,
    RefineError,
>)
    ensures
        r.is_err() <==> (count == 0 || src.width == 0 || src.height == 0),
        r is Err ==> r == Err::<Voronoi, RefineError>(RefineError::InvalidConfiguration),
        r matches Ok(v) ==> {
            &&& v.partitioned(*src)
            &&& v.points.len() == count
            &&& forall|i: int|
                0 <= i < v.points.len() ==> in_grid(#[trigger] v.points@[i], src.width, src.height)
        },
{
    if count == 0 || src.width == 0 || src.height == 0 {
        return Err(RefineError::InvalidConfiguration);
    }
    let mut points: Vec<Position> = Vec::new();
    let mut k: u32 = 0;
    while k < count
        invariant
            k <= count,
            src.width > 0,
            src.height > 0,
            points.len() == k,
            forall|i: int| 0 <= i < points.len() ==> in_grid(#[trigger] points@[i], src.width, src.height),
        decreases count - k,
    {
        let x = draw_below(rng, src.width as usize) as u32;
        let y = draw_below(rng, src.height as usize) as u32;
        points.push(Position { x, y });
        k = k + 1;
    }
    let zones = partition(&points, src.width, src.height);
    Ok(Voronoi { points, zones })
}

} // verus!
