use contour::{ContourBuilder, Polygon, Ring};

type Coords = Vec<(f64, f64)>;

fn mask(values: &[f64], threshold: f64) -> Vec<bool> {
    values.iter().map(|v| *v >= threshold).collect()
}

fn masks(values: &[f64], thresholds: &[f64]) -> Vec<Vec<bool>> {
    thresholds.iter().map(|t| mask(values, *t)).collect()
}

fn coords(ring: &Ring) -> Coords {
    ring.iter().map(|p| (p.x as f64 / 2.0, p.y as f64 / 2.0)).collect()
}

fn polygon_coords(p: &Polygon) -> (Coords, Vec<Coords>) {
    (coords(&p.exterior), p.interiors.iter().map(coords).collect())
}

fn scaled(ring: &Ring, x_step: f64, y_step: f64, x_origin: f64, y_origin: f64) -> Coords {
    coords(ring)
        .into_iter()
        .map(|(x, y)| (x * x_step + x_origin, y * y_step + y_origin))
        .collect()
}


#[test]
fn test_empty_polygons() {
    let c = ContourBuilder::new(10, 10);
    let values: Vec<f64> = vec![
        0., 0., 0., 0., 0., 0., 0., 0., 0., 0.,
        0., 0., 0., 0., 0., 0., 0., 0., 0., 0.,
        0., 0., 0., 0., 0., 0., 0., 0., 0., 0.,
        0., 0., 0., 0., 0., 0., 0., 0., 0., 0.,
        0., 0., 0., 0., 0., 0., 0., 0., 0., 0.,
        0., 0., 0., 0., 0., 0., 0., 0., 0., 0.,
        0., 0., 0., 0., 0., 0., 0., 0., 0., 0.,
        0., 0., 0., 0., 0., 0., 0., 0., 0., 0.,
        0., 0., 0., 0., 0., 0., 0., 0., 0., 0.,
        0., 0., 0., 0., 0., 0., 0., 0., 0., 0.,
    ];
    let res = c.contours(&masks(&values, &[0.5])).unwrap();
    assert!(res[0].is_empty());
}

#[test]
fn test_empty_isoline() {
    let c = ContourBuilder::new(10, 10);
    let values: Vec<f64> = vec![
        0., 0., 0., 0., 0., 0., 0., 0., 0., 0.,
        0., 0., 0., 0., 0., 0., 0., 0., 0., 0.,
        0., 0., 0., 0., 0., 0., 0., 0., 0., 0.,
        0., 0., 0., 0., 0., 0., 0., 0., 0., 0.,
        0., 0., 0., 0., 0., 0., 0., 0., 0., 0.,
        0., 0., 0., 0., 0., 0., 0., 0., 0., 0.,
        0., 0., 0., 0., 0., 0., 0., 0., 0., 0.,
        0., 0., 0., 0., 0., 0., 0., 0., 0., 0.,
        0., 0., 0., 0., 0., 0., 0., 0., 0., 0.,
        0., 0., 0., 0., 0., 0., 0., 0., 0., 0.,
    ];
    let res = c.lines(&masks(&values, &[0.5])).unwrap();
    assert!(res[0].is_empty());
}

#[test]
fn test_simple_polygon() {
    let c = ContourBuilder::new(10, 10);
    let values: Vec<f64> = vec![
        0., 0., 0., 0., 0., 0., 0., 0., 0., 0.,
        0., 0., 0., 0., 0., 0., 0., 0., 0., 0.,
        0., 0., 0., 0., 0., 0., 0., 0., 0., 0.,
        0., 0., 0., 1., 1., 1., 0., 0., 0., 0.,
        0., 0., 0., 1., 1., 1., 0., 0., 0., 0.,
        0., 0., 0., 1., 1., 1., 0., 0., 0., 0.,
        0., 0., 0., 1., 1., 1., 0., 0., 0., 0.,
        0., 0., 0., 1., 1., 1., 0., 0., 0., 0.,
        0., 0., 0., 0., 0., 0., 0., 0., 0., 0.,
        0., 0., 0., 0., 0., 0., 0., 0., 0., 0.
    ];
    let res = c.contours(&masks(&values, &[0.5])).unwrap();
    let expected: Vec<(Coords, Vec<Coords>)> = vec![(vec![(6.0, 7.5), (6.0, 6.5), (6.0, 5.5), (6.0, 4.5), (6.0, 3.5), (5.5, 3.0), (4.5, 3.0), (3.5, 3.0), (3.0, 3.5), (3.0, 4.5), (3.0, 5.5), (3.0, 6.5), (3.0, 7.5), (3.5, 8.0), (4.5, 8.0), (5.5, 8.0), (6.0, 7.5)], vec![])];
    let got: Vec<(Coords, Vec<Coords>)> = res[0].iter().map(polygon_coords).collect();
    assert_eq!(got, expected);
}

#[test]
fn test_simple_isoline() {
    let c = ContourBuilder::new(10, 10);
    let values: Vec<f64> = vec![
        0., 0., 0., 0., 0., 0., 0., 0., 0., 0.,
        0., 0., 0., 0., 0., 0., 0., 0., 0., 0.,
        0., 0., 0., 0., 0., 0., 0., 0., 0., 0.,
        0., 0., 0., 1., 1., 1., 0., 0., 0., 0.,
        0., 0., 0., 1., 1., 1., 0., 0., 0., 0.,
        0., 0., 0., 1., 1., 1., 0., 0., 0., 0.,
        0., 0., 0., 1., 1., 1., 0., 0., 0., 0.,
        0., 0., 0., 1., 1., 1., 0., 0., 0., 0.,
        0., 0., 0., 0., 0., 0., 0., 0., 0., 0.,
        0., 0., 0., 0., 0., 0., 0., 0., 0., 0.
    ];
    let res = c.lines(&masks(&values, &[0.5])).unwrap();
    let expected: Vec<Coords> = vec![vec![(6.0, 7.5), (6.0, 6.5), (6.0, 5.5), (6.0, 4.5), (6.0, 3.5), (5.5, 3.0), (4.5, 3.0), (3.5, 3.0), (3.0, 3.5), (3.0, 4.5), (3.0, 5.5), (3.0, 6.5), (3.0, 7.5), (3.5, 8.0), (4.5, 8.0), (5.5, 8.0), (6.0, 7.5)]];
    let got: Vec<Coords> = res[0].iter().map(coords).collect();
    assert_eq!(got, expected);
}

#[test]
fn test_polygon_with_hole() {
    let c = ContourBuilder::new(10, 10);
    let values: Vec<f64> = vec![
        0., 0., 0., 0., 0., 0., 0., 0., 0., 0.,
        0., 0., 0., 0., 0., 0., 0., 0., 0., 0.,
        0., 0., 0., 0., 0., 0., 0., 0., 0., 0.,
        0., 0., 0., 1., 1., 1., 0., 0., 0., 0.,
        0., 0., 0., 1., 0., 1., 0., 0., 0., 0.,
        0., 0., 0., 1., 0., 1., 0., 0., 0., 0.,
        0., 0., 0., 1., 0., 1., 0., 0., 0., 0.,
        0., 0., 0., 1., 1., 1., 0., 0., 0., 0.,
        0., 0., 0., 0., 0., 0., 0., 0., 0., 0.,
        0., 0., 0., 0., 0., 0., 0., 0., 0., 0.
    ];
    let res = c.contours(&masks(&values, &[0.5])).unwrap();
    let expected: Vec<(Coords, Vec<Coords>)> = vec![(vec![(6.0, 7.5), (6.0, 6.5), (6.0, 5.5), (6.0, 4.5), (6.0, 3.5), (5.5, 3.0), (4.5, 3.0), (3.5, 3.0), (3.0, 3.5), (3.0, 4.5), (3.0, 5.5), (3.0, 6.5), (3.0, 7.5), (3.5, 8.0), (4.5, 8.0), (5.5, 8.0), (6.0, 7.5)], vec![vec![(4.5, 7.0), (4.0, 6.5), (4.0, 5.5), (4.0, 4.5), (4.5, 4.0), (5.0, 4.5), (5.0, 5.5), (5.0, 6.5), (4.5, 7.0)]])];
    let got: Vec<(Coords, Vec<Coords>)> = res[0].iter().map(polygon_coords).collect();
    assert_eq!(got, expected);
}

#[test]
fn test_multipolygon() {
    let c = ContourBuilder::new(10, 10);
    let values: Vec<f64> = vec![
        0., 0., 0., 0., 0., 0., 0., 0., 0., 0.,
        0., 0., 0., 0., 0., 0., 0., 0., 0., 0.,
        0., 0., 0., 0., 0., 0., 0., 0., 0., 0.,
        0., 0., 0., 1., 1., 0., 1., 0., 0., 0.,
        0., 0., 0., 1., 1., 0., 1., 0., 0., 0.,
        0., 0., 0., 1., 1., 0., 1., 0., 0., 0.,
        0., 0., 0., 1., 1., 0., 1., 0., 0., 0.,
        0., 0., 0., 1., 1., 0., 1., 0., 0., 0.,
        0., 0., 0., 0., 0., 0., 0., 0., 0., 0.,
        0., 0., 0., 0., 0., 0., 0., 0., 0., 0.
    ];
    let res = c.contours(&masks(&values, &[0.5])).unwrap();
    let expected: Vec<(Coords, Vec<Coords>)> = vec![(vec![(5.0, 7.5), (5.0, 6.5), (5.0, 5.5), (5.0, 4.5), (5.0, 3.5), (4.5, 3.0), (3.5, 3.0), (3.0, 3.5), (3.0, 4.5), (3.0, 5.5), (3.0, 6.5), (3.0, 7.5), (3.5, 8.0), (4.5, 8.0), (5.0, 7.5)], vec![]), (vec![(7.0, 7.5), (7.0, 6.5), (7.0, 5.5), (7.0, 4.5), (7.0, 3.5), (6.5, 3.0), (6.0, 3.5), (6.0, 4.5), (6.0, 5.5), (6.0, 6.5), (6.0, 7.5), (6.5, 8.0), (7.0, 7.5)], vec![])];
    let got: Vec<(Coords, Vec<Coords>)> = res[0].iter().map(polygon_coords).collect();
    assert_eq!(got, expected);
}

#[test]
fn test_multipolygon_with_hole() {
    let c = ContourBuilder::new(10, 10);
    let values: Vec<f64> = vec![
        0., 0., 0., 0., 0., 0., 0., 0., 0., 0.,
        0., 0., 0., 0., 0., 0., 0., 0., 0., 0.,
        0., 0., 0., 0., 0., 0., 0., 0., 0., 0.,
        0., 1., 1., 1., 0., 1., 1., 1., 0., 0.,
        0., 1., 0., 1., 0., 1., 0., 1., 0., 0.,
        0., 1., 1., 1., 0., 1., 1., 1., 0., 0.,
        0., 0., 0., 0., 0., 0., 0., 0., 0., 0.,
        0., 0., 0., 0., 0., 0., 0., 0., 0., 0.,
        0., 0., 0., 0., 0., 0., 0., 0., 0., 0.,
        0., 0., 0., 0., 0., 0., 0., 0., 0., 0.
    ];
    let res = c.contours(&masks(&values, &[0.5])).unwrap();
    let expected: Vec<(Coords, Vec<Coords>)> = vec![(vec![(4.0, 5.5), (4.0, 4.5), (4.0, 3.5), (3.5, 3.0), (2.5, 3.0), (1.5, 3.0), (1.0, 3.5), (1.0, 4.5), (1.0, 5.5), (1.5, 6.0), (2.5, 6.0), (3.5, 6.0), (4.0, 5.5)], vec![vec![(2.5, 5.0), (2.0, 4.5), (2.5, 4.0), (3.0, 4.5), (2.5, 5.0)]]), (vec![(8.0, 5.5), (8.0, 4.5), (8.0, 3.5), (7.5, 3.0), (6.5, 3.0), (5.5, 3.0), (5.0, 3.5), (5.0, 4.5), (5.0, 5.5), (5.5, 6.0), (6.5, 6.0), (7.5, 6.0), (8.0, 5.5)], vec![vec![(6.5, 5.0), (6.0, 4.5), (6.5, 4.0), (7.0, 4.5), (6.5, 5.0)]])];
    let got: Vec<(Coords, Vec<Coords>)> = res[0].iter().map(polygon_coords).collect();
    assert_eq!(got, expected);
}

#[test]
fn test_simple_polygon_no_smoothing() {
    let c = ContourBuilder::new(10, 10);
    let values: Vec<f64> = vec![
        0., 0., 0., 0., 0., 0., 0., 0., 0., 0.,
        0., 0., 0., 0., 0., 0., 0., 0., 0., 0.,
        0., 0., 0., 0., 0., 0., 0., 0., 0., 0.,
        0., 0., 0., 2., 1., 2., 0., 0., 0., 0.,
        0., 0., 0., 2., 2., 2., 0., 0., 0., 0.,
        0., 0., 0., 1., 2., 1., 0., 0., 0., 0.,
        0., 0., 0., 2., 2., 2., 0., 0., 0., 0.,
        0., 0., 0., 2., 1., 2., 0., 0., 0., 0.,
        0., 0., 0., 0., 0., 0., 0., 0., 0., 0.,
        0., 0., 0., 0., 0., 0., 0., 0., 0., 0.
    ];
    let res = c.contours(&masks(&values, &[0.5])).unwrap();
    let expected: Vec<(Coords, Vec<Coords>)> = vec![(vec![(6.0, 7.5), (6.0, 6.5), (6.0, 5.5), (6.0, 4.5), (6.0, 3.5), (5.5, 3.0), (4.5, 3.0), (3.5, 3.0), (3.0, 3.5), (3.0, 4.5), (3.0, 5.5), (3.0, 6.5), (3.0, 7.5), (3.5, 8.0), (4.5, 8.0), (5.5, 8.0), (6.0, 7.5)], vec![])];
    let got: Vec<(Coords, Vec<Coords>)> = res[0].iter().map(polygon_coords).collect();
    assert_eq!(got, expected);
}

#[test]
fn test_multiple_thresholds() {
    let c = ContourBuilder::new(10, 10);
    let values: Vec<f64> = vec![
        0., 0., 0., 0., 0., 0., 0., 0., 0., 0.,
        0., 0., 0., 0., 0., 0., 0., 0., 0., 0.,
        0., 0., 0., 0., 0., 0., 0., 0., 0., 0.,
        0., 0., 0., 1., 1., 1., 1., 0., 0., 0.,
        0., 0., 0., 1., 1., 1., 1., 0., 0., 0.,
        0., 0., 0., 1., 2., 2., 1., 0., 0., 0.,
        0., 0., 0., 1., 1., 2., 1., 0., 0., 0.,
        0., 0., 0., 1., 1., 1., 1., 0., 0., 0.,
        0., 0., 0., 1., 1., 1., 1., 0., 0., 0.,
        0., 0., 0., 0., 0., 0., 0., 0., 0., 0.
    ];
    let res = c.contours(&masks(&values, &[0.5, 1.5])).unwrap();
    let expected: Vec<(Coords, Vec<Coords>)> = vec![(vec![(7.0, 8.5), (7.0, 7.5), (7.0, 6.5), (7.0, 5.5), (7.0, 4.5), (7.0, 3.5), (6.5, 3.0), (5.5, 3.0), (4.5, 3.0), (3.5, 3.0), (3.0, 3.5), (3.0, 4.5), (3.0, 5.5), (3.0, 6.5), (3.0, 7.5), (3.0, 8.5), (3.5, 9.0), (4.5, 9.0), (5.5, 9.0), (6.5, 9.0), (7.0, 8.5)], vec![])];
    let got: Vec<(Coords, Vec<Coords>)> = res[0].iter().map(polygon_coords).collect();
    assert_eq!(got, expected);
    let expected: Vec<(Coords, Vec<Coords>)> = vec![(vec![(6.0, 6.5), (6.0, 5.5), (5.5, 5.0), (4.5, 5.0), (4.0, 5.5), (4.5, 6.0), (5.0, 6.5), (5.5, 7.0), (6.0, 6.5)], vec![])];
    let got: Vec<(Coords, Vec<Coords>)> = res[1].iter().map(polygon_coords).collect();
    assert_eq!(got, expected);
}

#[test]
fn test_multipolygon_with_x_y_steps() {
    let c = ContourBuilder::new(10, 10);
    let values: Vec<f64> = vec![
        0., 0., 0., 0., 0., 0., 0., 0., 0., 0.,
        0., 0., 0., 0., 0., 0., 0., 0., 0., 0.,
        0., 0., 0., 0., 0., 0., 0., 0., 0., 0.,
        0., 0., 0., 1., 1., 0., 1., 0., 0., 0.,
        0., 0., 0., 1., 1., 0., 1., 0., 0., 0.,
        0., 0., 0., 1., 1., 0., 1., 0., 0., 0.,
        0., 0., 0., 1., 1., 0., 1., 0., 0., 0.,
        0., 0., 0., 1., 1., 0., 1., 0., 0., 0.,
        0., 0., 0., 0., 0., 0., 0., 0., 0., 0.,
        0., 0., 0., 0., 0., 0., 0., 0., 0., 0.
    ];
    let res = c.contours(&masks(&values, &[0.5])).unwrap();
    let expected: Vec<(Coords, Vec<Coords>)> = vec![(vec![(110.0, 215.0), (110.0, 213.0), (110.0, 211.0), (110.0, 209.0), (110.0, 207.0), (109.0, 206.0), (107.0, 206.0), (106.0, 207.0), (106.0, 209.0), (106.0, 211.0), (106.0, 213.0), (106.0, 215.0), (107.0, 216.0), (109.0, 216.0), (110.0, 215.0)], vec![]), (vec![(114.0, 215.0), (114.0, 213.0), (114.0, 211.0), (114.0, 209.0), (114.0, 207.0), (113.0, 206.0), (112.0, 207.0), (112.0, 209.0), (112.0, 211.0), (112.0, 213.0), (112.0, 215.0), (113.0, 216.0), (114.0, 215.0)], vec![])];
    let got: Vec<(Coords, Vec<Coords>)> = res[0]
        .iter()
        .map(|p| (scaled(&p.exterior, 2.0, 2.0, 100.0, 200.0), p.interiors.iter().map(|r| scaled(r, 2.0, 2.0, 100.0, 200.0)).collect()))
        .collect();
    assert_eq!(got, expected);
}
