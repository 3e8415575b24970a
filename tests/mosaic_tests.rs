use rand::rngs::StdRng;
use rand::SeedableRng;
use voronoi_mosaic::mosaic::{render_mosaic, snapshot_due};
use voronoi_mosaic::partition::partition;
use voronoi_mosaic::position::{get_closest_point, Position};
use voronoi_mosaic::raster::{Raster, Rgb};
use voronoi_mosaic::refiner::{
    add_point_to_voronoi, initiate_voronoi, recalculate_voronoi_zones, refine_step,
    select_worst_zone, split_zone, RefineError, RefineOptions, Voronoi,
};
use voronoi_mosaic::zone::{get_zone_average, get_zone_mse, Mse};

fn pos(x: u32, y: u32) -> Position {
    Position { x, y }
}

fn raster(width: u32, height: u32, pixels: Vec<Rgb>) -> Raster {
    Raster::from_pixels(width, height, pixels).unwrap()
}

fn flat(width: u32, height: u32, c: Rgb) -> Raster {
    raster(width, height, vec![c; (width * height) as usize])
}

/// 4x4, left half red, right half blue.
fn halves() -> Raster {
    let mut pixels = Vec::new();
    for _y in 0..4 {
        for x in 0..4 {
            pixels.push(if x < 2 { [255, 0, 0] } else { [0, 0, 255] });
        }
    }
    raster(4, 4, pixels)
}

fn mse_value(m: &Mse) -> f64 {
    if m.count == 0 {
        0.0
    } else {
        m.total as f64 / m.count as f64
    }
}

fn contains(zone: &[Position], p: Position) -> bool {
    zone.iter().any(|q| *q == p)
}

#[test]
fn closest_point_tie_goes_to_lower_index() {
    let gens = vec![pos(0, 0), pos(2, 0)];
    assert_eq!(get_closest_point(&pos(1, 0), &gens), 0);
    let gens = vec![pos(2, 0), pos(0, 0)];
    assert_eq!(get_closest_point(&pos(1, 0), &gens), 0);
}

#[test]
fn closest_point_picks_nearest() {
    let gens = vec![pos(0, 0), pos(10, 10), pos(4, 5)];
    assert_eq!(get_closest_point(&pos(9, 8), &gens), 1);
    assert_eq!(get_closest_point(&pos(3, 3), &gens), 2);
    assert_eq!(get_closest_point(&pos(1, 0), &gens), 0);
}

#[test]
fn closest_point_of_empty_list_is_zero() {
    assert_eq!(get_closest_point(&pos(3, 3), &Vec::new()), 0);
}

#[test]
fn closest_point_far_coordinates() {
    let gens = vec![pos(0, 0), pos(u32::MAX, u32::MAX)];
    assert_eq!(get_closest_point(&pos(u32::MAX, u32::MAX - 1), &gens), 1);
    assert_eq!(get_closest_point(&pos(0, u32::MAX), &gens), 0);
}

#[test]
fn partition_tie_break_in_zones() {
    let zones = partition(&vec![pos(0, 0), pos(2, 0)], 3, 1);
    assert_eq!(zones.len(), 2);
    assert!(contains(&zones[0], pos(1, 0)));
    assert!(!contains(&zones[1], pos(1, 0)));
    assert_eq!(zones[0].len(), 2);
    assert_eq!(zones[1].len(), 1);
}

#[test]
fn partition_covers_every_pixel_once() {
    let gens = vec![pos(0, 0), pos(4, 2), pos(2, 1), pos(2, 1)];
    let zones = partition(&gens, 5, 3);
    assert_eq!(zones.len(), 4);
    for x in 0..5 {
        for y in 0..3 {
            let n: usize = zones.iter().map(|z| z.iter().filter(|q| **q == pos(x, y)).count()).sum();
            assert_eq!(n, 1);
        }
    }
    let total: usize = zones.iter().map(|z| z.len()).sum();
    assert_eq!(total, 15);
    assert!(zones[3].is_empty());
}

#[test]
fn partition_is_deterministic() {
    let gens = vec![pos(1, 1), pos(5, 3), pos(3, 6)];
    let a = partition(&gens, 7, 7);
    let b = partition(&gens, 7, 7);
    assert_eq!(a, b);
}

#[test]
fn partition_of_zero_area_is_empty_zones() {
    let zones = partition(&vec![pos(0, 0)], 0, 0);
    assert_eq!(zones.len(), 1);
    assert!(zones[0].is_empty());
}

#[test]
fn mean_color_floors_each_channel() {
    let img = raster(2, 2, vec![[10, 0, 0], [11, 0, 0], [10, 0, 0], [9, 0, 0]]);
    let zone = vec![pos(0, 0), pos(1, 0), pos(0, 1), pos(1, 1)];
    assert_eq!(get_zone_average(&zone, &img), [10, 0, 0]);
    let img = raster(2, 1, vec![[1, 2, 3], [2, 2, 2]]);
    assert_eq!(get_zone_average(&vec![pos(0, 0), pos(1, 0)], &img), [1, 2, 2]);
}

#[test]
fn mean_color_of_empty_zone_is_black() {
    let img = flat(2, 2, [7, 8, 9]);
    assert_eq!(get_zone_average(&Vec::new(), &img), [0, 0, 0]);
}

#[test]
fn mse_of_empty_zone_is_zero() {
    let img = flat(2, 2, [7, 8, 9]);
    let m = get_zone_mse(&Vec::new(), &img);
    assert!(m.is_zero());
    assert_eq!(mse_value(&m), 0.0);
}

#[test]
fn mse_of_uniform_zone_is_zero() {
    let img = flat(3, 2, [40, 50, 60]);
    let zone = vec![pos(0, 0), pos(2, 1), pos(1, 0)];
    let m = get_zone_mse(&zone, &img);
    assert_eq!(m, Mse { total: 0, count: 3 });
    assert_eq!(mse_value(&m), 0.0);
}

#[test]
fn mse_sums_channels_without_dividing_by_three() {
    let img = raster(2, 1, vec![[0, 0, 0], [10, 4, 2]]);
    let zone = vec![pos(0, 0), pos(1, 0)];
    // mean (5, 2, 1): each pixel deviates by 25 + 4 + 1
    let m = get_zone_mse(&zone, &img);
    assert_eq!(m, Mse { total: 60, count: 2 });
    assert_eq!(mse_value(&m), 30.0);
}

#[test]
fn mse_grows_with_spread() {
    let narrow = raster(2, 1, vec![[4, 0, 0], [6, 0, 0]]);
    let wide = raster(2, 1, vec![[0, 0, 0], [10, 0, 0]]);
    let zone = vec![pos(0, 0), pos(1, 0)];
    assert_eq!(get_zone_average(&zone, &narrow), get_zone_average(&zone, &wide));
    let a = get_zone_mse(&zone, &narrow);
    let b = get_zone_mse(&zone, &wide);
    assert!(mse_value(&a) >= 0.0);
    assert!(mse_value(&b) >= mse_value(&a));
    assert!(b.greater_than(&a));
}

#[test]
fn mse_comparison_is_by_fraction() {
    let a = Mse { total: 50, count: 2 };
    let b = Mse { total: 30, count: 2 };
    assert!(a.greater_than(&b));
    assert!(!b.greater_than(&a));
    assert!(!a.greater_than(&a));
    assert!(Mse { total: 7, count: 3 }.greater_than(&Mse { total: 9, count: 4 }));
    assert!(!Mse { total: 6, count: 3 }.greater_than(&Mse { total: 8, count: 4 }));
    assert!(Mse { total: 1, count: 3 }.greater_than(&Mse { total: 0, count: 5 }));
    assert!(!Mse { total: 0, count: 5 }.greater_than(&Mse { total: 1, count: 3 }));
}

#[test]
fn worst_zone_is_highest_error() {
    let img = raster(4, 1, vec![[0, 0, 0], [0, 0, 0], [0, 0, 0], [100, 0, 0]]);
    let zones = vec![vec![pos(0, 0), pos(1, 0)], vec![pos(2, 0), pos(3, 0)]];
    assert_eq!(select_worst_zone(&zones, &img, false), Ok(1));
}

#[test]
fn worst_zone_ties_go_to_lower_index() {
    let img = flat(4, 1, [3, 3, 3]);
    let zones = vec![vec![], vec![pos(0, 0), pos(1, 0)], vec![pos(2, 0), pos(3, 0)]];
    assert_eq!(select_worst_zone(&zones, &img, false), Ok(1));
}

#[test]
fn worst_zone_filter_skips_small_zones() {
    let mut pixels = vec![[0, 0, 0]; 8];
    pixels[0] = [255, 255, 255];
    pixels[7] = [50, 0, 0];
    let img = raster(8, 1, pixels);
    // zone 0 has the highest error but fewer pixels than the median size 3
    let zones = vec![
        vec![pos(0, 0), pos(1, 0)],
        vec![pos(2, 0), pos(3, 0), pos(4, 0)],
        vec![pos(5, 0), pos(6, 0), pos(7, 0)],
    ];
    assert_eq!(select_worst_zone(&zones, &img, false), Ok(0));
    assert_eq!(select_worst_zone(&zones, &img, true), Ok(2));
}

#[test]
fn worst_zone_of_empty_zones_is_degenerate() {
    let img = flat(2, 2, [1, 2, 3]);
    let zones: Vec<Vec<Position>> = vec![vec![], vec![]];
    assert_eq!(select_worst_zone(&zones, &img, false), Err(RefineError::DegenerateSelection));
    assert_eq!(select_worst_zone(&zones, &img, true), Err(RefineError::DegenerateSelection));
}

#[test]
fn zero_area_image_gives_degenerate_selection() {
    let img = raster(0, 0, vec![]);
    let mut v = Voronoi::with_generators(&img, vec![pos(0, 0)]).unwrap();
    let mut rng = StdRng::seed_from_u64(1);
    for &filter in &[false, true] {
        let opts = RefineOptions { replace_origin: true, filter_by_median_size: filter };
        assert_eq!(refine_step(&mut v, &img, opts, &mut rng), Err(RefineError::DegenerateSelection));
        assert_eq!(v.points, vec![pos(0, 0)]);
    }
}

#[test]
fn with_generators_needs_a_generator() {
    let img = flat(2, 2, [0, 0, 0]);
    assert!(matches!(Voronoi::with_generators(&img, vec![]), Err(RefineError::InvalidConfiguration)));
}

#[test]
fn initiate_rejects_bad_configuration() {
    let mut rng = StdRng::seed_from_u64(3);
    let img = flat(3, 3, [0, 0, 0]);
    assert!(matches!(initiate_voronoi(&img, 0, &mut rng), Err(RefineError::InvalidConfiguration)));
    let empty = raster(0, 5, vec![]);
    assert!(matches!(initiate_voronoi(&empty, 4, &mut rng), Err(RefineError::InvalidConfiguration)));
}

#[test]
fn initiate_places_points_inside_image() {
    let mut rng = StdRng::seed_from_u64(7);
    let img = flat(1, 3, [0, 0, 0]);
    let v = initiate_voronoi(&img, 20, &mut rng).unwrap();
    assert_eq!(v.points.len(), 20);
    assert_eq!(v.zones.len(), 20);
    assert!(v.points.iter().all(|p| p.x < 1 && p.y < 3));
    let total: usize = v.zones.iter().map(|z| z.len()).sum();
    assert_eq!(total, 3);
    let ys: Vec<u32> = v.points.iter().map(|p| p.y).collect();
    assert!(ys.iter().any(|y| *y != ys[0]));
}

#[test]
fn split_zone_replacing_origin() {
    let img = halves();
    let mut v = Voronoi::with_generators(&img, vec![pos(1, 1), pos(2, 1)]).unwrap();
    let a = v.zones[1][0];
    let b = v.zones[1][3];
    assert_eq!(split_zone(&mut v, 1, 0, 3, true), Ok(()));
    assert_eq!(v.points, vec![pos(1, 1), a, b]);
    assert_eq!(v.zones.len(), 3);
    assert!(v.zones[2].is_empty());
}

#[test]
fn split_zone_keeping_origin() {
    let img = halves();
    let mut v = Voronoi::with_generators(&img, vec![pos(1, 1), pos(2, 1)]).unwrap();
    let b = v.zones[0][5];
    assert_eq!(split_zone(&mut v, 0, 2, 5, false), Ok(()));
    assert_eq!(v.points, vec![pos(1, 1), pos(2, 1), b]);
}

#[test]
fn split_of_empty_zone_fails() {
    let img = flat(2, 1, [0, 0, 0]);
    let mut v = Voronoi::with_generators(&img, vec![pos(0, 0), pos(0, 0)]).unwrap();
    assert!(v.zones[1].is_empty());
    assert_eq!(split_zone(&mut v, 1, 0, 0, true), Err(RefineError::EmptyZoneSampling));
    assert_eq!(v.points.len(), 2);
}

#[test]
fn refine_step_grows_by_one() {
    let mut pixels = Vec::new();
    for i in 0..36u32 {
        pixels.push([(i * 7 % 256) as u8, (i * 13 % 256) as u8, (i * 29 % 256) as u8]);
    }
    let img = raster(6, 6, pixels);
    let mut rng = StdRng::seed_from_u64(11);
    for &replace in &[false, true] {
        let mut v = Voronoi::with_generators(&img, vec![pos(0, 0), pos(5, 5), pos(0, 5)]).unwrap();
        for _ in 0..5 {
            let before = v.points.clone();
            let w = refine_step(&mut v, &img, RefineOptions { replace_origin: replace, filter_by_median_size: false }, &mut rng).unwrap();
            assert_eq!(v.points.len(), before.len() + 1);
            assert_eq!(v.zones.len(), before.len() + 1);
            for j in 0..before.len() {
                if j != w || !replace {
                    assert_eq!(v.points[j], before[j]);
                }
            }
            assert!(v.zones[v.zones.len() - 1].is_empty());
        }
    }
}

#[test]
fn add_point_splits_the_worst_zone() {
    let img = raster(4, 1, vec![[0, 0, 0], [0, 0, 0], [0, 0, 0], [100, 0, 0]]);
    let mut v = Voronoi::with_generators(&img, vec![pos(0, 0), pos(3, 0)]).unwrap();
    recalculate_voronoi_zones(&mut v, &img);
    assert_eq!(v.zones[0].len(), 2);
    let mut rng = StdRng::seed_from_u64(5);
    let opts = RefineOptions { replace_origin: true, filter_by_median_size: false };
    assert_eq!(add_point_to_voronoi(&mut v, &img, opts, &mut rng), Ok(1));
    assert_eq!(v.points.len(), 3);
    assert_eq!(v.points[0], pos(0, 0));
    assert!(v.points[1] == pos(2, 0) || v.points[1] == pos(3, 0));
    assert!(v.points[2] == pos(2, 0) || v.points[2] == pos(3, 0));
}

#[test]
fn two_halves_end_to_end() {
    let img = halves();
    let v = Voronoi::with_generators(&img, vec![pos(1, 1), pos(2, 1)]).unwrap();
    assert_eq!(v.zones[0].len(), 8);
    assert_eq!(v.zones[1].len(), 8);
    for z in &v.zones {
        assert_eq!(mse_value(&get_zone_mse(z, &img)), 0.0);
    }
    assert_eq!(get_zone_average(&v.zones[0], &img), [255, 0, 0]);
    assert_eq!(get_zone_average(&v.zones[1], &img), [0, 0, 255]);
    let out = render_mosaic(&v, &img);
    assert_eq!(out.dimensions(), (4, 4));
    assert_eq!(out.pixels, img.pixels);
}

#[test]
fn mosaic_uses_zone_means() {
    let img = raster(3, 1, vec![[10, 20, 30], [20, 40, 61], [200, 200, 200]]);
    let v = Voronoi::with_generators(&img, vec![pos(0, 0), pos(2, 0)]).unwrap();
    let out = render_mosaic(&v, &img);
    assert_eq!(out.pixels, vec![[15, 30, 45], [15, 30, 45], [200, 200, 200]]);
}

#[test]
fn raster_rejects_wrong_pixel_count() {
    assert!(Raster::from_pixels(2, 2, vec![[0, 0, 0]; 3]).is_none());
    assert!(Raster::from_pixels(2, 2, vec![[0, 0, 0]; 4]).is_some());
}

#[test]
fn raster_pixels_are_row_major() {
    let mut img = raster(3, 2, vec![[0, 0, 0]; 6]);
    img.put_pixel(2, 1, [1, 2, 3]);
    img.put_pixel(1, 0, [4, 5, 6]);
    assert_eq!(img.get_pixel(2, 1), [1, 2, 3]);
    assert_eq!(img.pixels[5], [1, 2, 3]);
    assert_eq!(img.pixels[1], [4, 5, 6]);
    let black = Raster::new_black(2, 3);
    assert_eq!(black.pixels, vec![[0, 0, 0]; 6]);
}

#[test]
fn snapshot_cadence() {
    assert!(snapshot_due(0, 10));
    assert!(snapshot_due(20, 10));
    assert!(!snapshot_due(15, 10));
    assert!(!snapshot_due(0, 0));
    assert!(!snapshot_due(10, 0));
}
