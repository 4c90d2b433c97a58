use contour::area::{area, contains, ring_contains};
use contour::cases::{case_segments, corner_code};
use contour::{contour_rings, ContourBuilder, ErrorKind, IsoRingBuilder, Point, Polygon, Ring};

fn mask(values: &[f64], threshold: f64) -> Vec<bool> {
    values.iter().map(|v| *v >= threshold).collect()
}

fn grid(rows: &[&str]) -> Vec<f64> {
    rows.iter()
        .flat_map(|r| r.chars().map(|c| c.to_digit(10).unwrap() as f64))
        .collect()
}

fn p(x: u32, y: u32) -> Point {
    Point { x, y }
}

fn square() -> Ring {
    vec![p(0, 0), p(0, 2), p(2, 2), p(2, 0)]
}

fn hollow_frame() -> Vec<f64> {
    grid(&[
        "0000000000",
        "0000000000",
        "0000000000",
        "0001110000",
        "0001010000",
        "0001010000",
        "0001010000",
        "0001110000",
        "0000000000",
        "0000000000",
    ])
}

fn elevation(dx: usize, dy: usize) -> Vec<f64> {
    let mut v = Vec::new();
    for y in 0..dy {
        for x in 0..dx {
            let fx = x as f64 - dx as f64 / 2.0;
            let fy = y as f64 - dy as f64 / 2.0;
            v.push(200.0 - (fx * fx + fy * fy) * 0.9 + ((x * 7 + y * 3) % 5) as f64);
        }
    }
    v
}

fn check_winding(polys: &[Polygon]) {
    for poly in polys {
        assert!(area(&poly.exterior) > 0);
        for hole in &poly.interiors {
            assert!(area(hole) <= 0);
            assert_ne!(contains(&poly.exterior, hole), -1);
        }
    }
}

#[test]
fn bad_dimension_is_reported_by_every_entry_point() {
    let c = ContourBuilder::new(10, 10);
    let short = vec![vec![false; 99]];
    assert_eq!(*c.lines(&short).unwrap_err().kind(), ErrorKind::BadDimension);
    assert_eq!(*c.contours(&short).unwrap_err().kind(), ErrorKind::BadDimension);
    let two = vec![vec![false; 100], vec![false; 101]];
    assert_eq!(c.isobands(&two).unwrap_err().into_kind(), ErrorKind::BadDimension);
    assert_eq!(
        contour_rings(&vec![true; 3], 2, 2).unwrap_err().into_kind(),
        ErrorKind::BadDimension
    );
}

#[test]
fn isobands_need_two_thresholds() {
    let c = ContourBuilder::new(10, 10);
    let one = vec![vec![false; 100]];
    assert_eq!(c.isobands(&one).unwrap_err().into_kind(), ErrorKind::InsufficientThresholds);
    assert_eq!(c.isobands(&Vec::new()).unwrap_err().into_kind(), ErrorKind::InsufficientThresholds);
}

#[test]
fn error_messages_name_the_problem() {
    let c = ContourBuilder::new(2, 2);
    let e = c.lines(&vec![vec![true]]).unwrap_err();
    assert!(e.message().contains("dimensions"));
}

#[test]
fn shoelace_area_of_a_square() {
    assert_eq!(area(&square()), 8);
    let mut r = square();
    r.reverse();
    assert_eq!(area(&r), -8);
    assert_eq!(area(&vec![p(0, 0), p(4, 0), p(4, 2)]), -8);
}

#[test]
fn ray_casting_inside_outside_and_boundary() {
    let sq = square();
    assert_eq!(ring_contains(&sq, &p(1, 1)), 1);
    assert_eq!(ring_contains(&sq, &p(3, 1)), -1);
    assert_eq!(ring_contains(&sq, &p(0, 1)), 0);
    assert_eq!(ring_contains(&sq, &p(2, 2)), 0);
    let inner = vec![p(1, 1), p(1, 1)];
    assert_eq!(contains(&sq, &inner), 1);
    let edge_then_out = vec![p(0, 1), p(5, 5)];
    assert_eq!(contains(&sq, &edge_then_out), -1);
    assert_eq!(contains(&sq, &vec![p(0, 0), p(2, 0)]), 0);
}

#[test]
fn case_table_entries() {
    assert!(case_segments(0).is_empty());
    assert!(case_segments(15).is_empty());
    assert_eq!(case_segments(1), vec![(p(2, 3), p(1, 2))]);
    assert_eq!(case_segments(5).len(), 2);
    assert_eq!(case_segments(10), vec![(p(1, 2), p(2, 1)), (p(3, 2), p(2, 3))]);
}

#[test]
fn corner_codes_treat_outside_samples_as_low() {
    let m = vec![true, false, true, true];
    assert_eq!(corner_code(&m, 2, 2, 0, 0), 2);
    assert_eq!(corner_code(&m, 2, 2, 1, 1), 1 + 2 + 8);
    assert_eq!(corner_code(&m, 2, 2, 2, 2), 8);
    assert_eq!(corner_code(&m, 2, 2, 1, 2), 4 + 8);
}

#[test]
fn every_ring_is_closed() {
    let values = elevation(20, 15);
    for t in [120.0, 150.0, 180.0, 195.0] {
        let rings = contour_rings(&mask(&values, t), 20, 15).unwrap();
        assert!(!rings.is_empty());
        for r in &rings {
            assert!(r.len() >= 3);
            assert_eq!(r[0], r[r.len() - 1]);
            assert!(r.iter().all(|q| q.x <= 40 && q.y <= 30));
        }
    }
}

#[test]
fn single_sample_grid_gives_a_diamond() {
    let rings = contour_rings(&vec![true], 1, 1).unwrap();
    assert_eq!(rings, vec![vec![p(2, 1), p(1, 0), p(0, 1), p(1, 2), p(2, 1)]]);
    assert!(contour_rings(&Vec::new(), 0, 0).unwrap().is_empty());
}

#[test]
fn reused_engine_matches_a_fresh_one() {
    let values = elevation(18, 12);
    let mut engine = IsoRingBuilder::new(18, 12);
    for t in [130.0, 160.0, 190.0] {
        let m = mask(&values, t);
        let reused = engine.compute(&m).unwrap();
        let fresh = contour_rings(&m, 18, 12).unwrap();
        let again = contour_rings(&m, 18, 12).unwrap();
        assert_eq!(reused, fresh);
        assert_eq!(fresh, again);
    }
    engine.clear();
    assert_eq!(engine.compute(&mask(&values, 160.0)).unwrap(), contour_rings(&mask(&values, 160.0), 18, 12).unwrap());
}

#[test]
fn contours_keep_winding_consistent() {
    let values = elevation(20, 20);
    let c = ContourBuilder::new(20, 20);
    let ts: Vec<f64> = (0..12).map(|i| 110.0 + 8.0 * i as f64).collect();
    let ms: Vec<Vec<bool>> = ts.iter().map(|t| mask(&values, *t)).collect();
    for polys in c.contours(&ms).unwrap() {
        check_winding(&polys);
    }
    let small = ContourBuilder::new(10, 10);
    check_winding(&small.contours(&vec![mask(&hollow_frame(), 0.5)]).unwrap()[0]);
}

#[test]
fn scenario_solid_block_gives_one_ring_of_sixteen_points() {
    let values = grid(&[
        "0000000000",
        "0000000000",
        "0000000000",
        "0001110000",
        "0001110000",
        "0001110000",
        "0001110000",
        "0001110000",
        "0000000000",
        "0000000000",
    ]);
    let res = ContourBuilder::new(10, 10).contours(&vec![mask(&values, 0.5)]).unwrap();
    assert_eq!(res[0].len(), 1);
    assert_eq!(res[0][0].exterior.len(), 17);
    assert!(res[0][0].interiors.is_empty());
}

#[test]
fn scenario_hollow_frame_has_one_hole_inside_its_shell() {
    let res = ContourBuilder::new(10, 10).contours(&vec![mask(&hollow_frame(), 0.5)]).unwrap();
    assert_eq!(res[0].len(), 1);
    assert_eq!(res[0][0].interiors.len(), 1);
    assert_eq!(contains(&res[0][0].exterior, &res[0][0].interiors[0]), 1);
}

#[test]
fn scenario_two_blocks_stay_apart() {
    let values = grid(&[
        "0000000000",
        "0000000000",
        "0000000000",
        "0001101000",
        "0001101000",
        "0001101000",
        "0000000000",
        "0000000000",
        "0000000000",
        "0000000000",
    ]);
    let res = ContourBuilder::new(10, 10).contours(&vec![mask(&values, 0.5)]).unwrap();
    assert_eq!(res[0].len(), 2);
    assert!(res[0].iter().all(|q| q.interiors.is_empty()));
}

#[test]
fn scenario_uniform_grid_has_no_crossings() {
    let values = vec![0.0; 100];
    let c = ContourBuilder::new(10, 10);
    assert!(c.contours(&vec![mask(&values, 0.5)]).unwrap()[0].is_empty());
    assert!(c.lines(&vec![mask(&values, 0.5)]).unwrap()[0].is_empty());
    let bands = c.isobands(&vec![mask(&values, 0.5), mask(&values, 1.5)]).unwrap();
    assert_eq!(bands.len(), 1);
    assert!(bands[0].is_empty());
}

#[test]
fn scenario_elevation_bands_one_per_threshold_pair() {
    let values = elevation(30, 25);
    let ts: Vec<f64> = (0..23).map(|i| 90.0 + 5.0 * i as f64).collect();
    assert_eq!(ts.len(), 23);
    let ms: Vec<Vec<bool>> = ts.iter().map(|t| mask(&values, *t)).collect();
    let bands = ContourBuilder::new(30, 25).isobands(&ms).unwrap();
    assert_eq!(bands.len(), 22);
    assert!(bands.iter().any(|b| !b.is_empty()));
}

fn inside(poly: &Polygon, q: &Point) -> bool {
    ring_contains(&poly.exterior, q) == 1 && poly.interiors.iter().all(|h| ring_contains(h, q) == -1)
}

#[test]
fn isoband_samples_lie_between_thresholds() {
    let (dx, dy) = (16, 14);
    let values = elevation(dx, dy);
    let ts = [150.0, 170.0, 185.0, 195.0];
    let ms: Vec<Vec<bool>> = ts.iter().map(|t| mask(&values, *t)).collect();
    let bands = ContourBuilder::new(dx, dy).isobands(&ms).unwrap();
    let mut seen = 0;
    for (b, polys) in bands.iter().enumerate() {
        for y in 0..dy {
            for x in 0..dx {
                let q = p(2 * x as u32 + 1, 2 * y as u32 + 1);
                if polys.iter().any(|poly| inside(poly, &q)) {
                    let v = values[y * dx + x];
                    assert!(ts[b] <= v && v < ts[b + 1]);
                    seen += 1;
                }
            }
        }
    }
    assert!(seen > 0);
}

#[test]
fn isoband_of_a_ring_of_values_has_a_hole() {
    let values = grid(&[
        "0000000",
        "0111110",
        "0122210",
        "0121210",
        "0122210",
        "0111110",
        "0000000",
    ]);
    let c = ContourBuilder::new(7, 7);
    let bands = c.isobands(&vec![mask(&values, 0.5), mask(&values, 1.5)]).unwrap();
    assert_eq!(bands[0].len(), 2);
    let with_hole = bands[0].iter().filter(|q| q.interiors.len() == 1).count();
    assert_eq!(with_hole, 1);
}
