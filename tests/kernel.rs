use series_render::decimate::{decimate_columns, order_key, Column, Representative};
use series_render::quads::{plan_quads, write_quad_indices, Anchor, AnchorX, Level, QuadPoint};
use series_render::walk::get_point_number;

fn key(v: f64) -> u64 {
    order_key(v.to_bits())
}

fn keys(vs: &[f64]) -> Vec<u64> {
    vs.iter().map(|v| key(*v)).collect()
}

fn stub(c: usize) -> Anchor {
    Anchor { x: AnchorX::Before(c), column: c, level: Level::Value }
}

fn after(c: usize) -> Anchor {
    Anchor { x: AnchorX::At(c), column: c, level: Level::Value }
}

fn value(c: usize, prev: Anchor) -> QuadPoint {
    QuadPoint { column: c, level: Level::Value, prev }
}

/// The series (0,1), (1,2), (2,4), (3,null), (4,8) on five columns over x in [0, 4].
fn five_point_columns() -> Vec<Column> {
    let xs = keys(&[0.0, 1.0, 2.0, 3.0, 4.0]);
    let ys = keys(&[1.0, 2.0, 4.0, 0.0, 8.0]);
    let null = [0u8, 0, 0, 1, 0];
    let pixel_xs: Vec<u64> = (0..5).map(|p| key((p as f64) / 4.0 * 4.0)).collect();
    decimate_columns(5, &xs, &ys, &null, &pixel_xs)
}

#[test]
fn five_point_series_decimates_with_one_gap() {
    let cols = five_point_columns();
    let reps: Vec<Representative> = cols.iter().map(|c| c.representative).collect();
    assert_eq!(
        reps,
        vec![
            Representative::Sample(0),
            Representative::Interpolated(0),
            Representative::Sample(1),
            Representative::Sample(2),
            Representative::Absent,
        ]
    );
    assert!(cols.iter().all(|c| c.min.is_none() && c.max.is_none()));
    let masks: Vec<u8> = cols.iter().map(|c| c.null_mask()).collect();
    assert_eq!(masks, vec![6, 6, 6, 6, 7]);
}

#[test]
fn five_point_series_gives_four_quads() {
    let cols = five_point_columns();
    let masks: Vec<u8> = cols.iter().map(|c| c.null_mask()).collect();
    let ranged = vec![false; 5];
    assert_eq!(get_point_number(&masks, &ranged, false, 0, 0), 4);
    let quads = plan_quads(&masks, &ranged, false, 0, 0);
    assert_eq!(quads.len(), 4);
    assert_eq!(quads.iter().map(|q| q.column).collect::<Vec<_>>(), vec![0, 1, 2, 3]);
    let mut indices = vec![0u32; 6 * quads.len()];
    write_quad_indices(quads.len(), &mut indices);
    assert_eq!(4 * quads.len(), 16);
    assert_eq!(indices.len(), 24);
    assert_eq!(indices[18..], [12, 13, 15, 12, 14, 15]);
}

#[test]
fn columns_sweep_min_and_max() {
    // Columns at x = 1.5 and x = 6. The first advance of a column folds
    // nothing, so the second column sweeps the points at 2, 3 and 4.
    let xs = keys(&[0.0, 1.0, 2.0, 3.0, 4.0, 5.0, 6.0, 7.0]);
    let ys = keys(&[5.0, 3.0, 7.0, -2.0, 6.0, 1.0, 9.0, 0.0]);
    let null = [0u8; 8];
    let pixel_xs = keys(&[1.5, 6.0]);
    let cols = decimate_columns(8, &xs, &ys, &null, &pixel_xs);
    assert_eq!(cols[0], Column { representative: Representative::Sample(1), min: None, max: None });
    assert_eq!(cols[1], Column { representative: Representative::Sample(5), min: Some(3), max: Some(2) });
    assert_eq!(cols[0].null_mask(), 6);
    assert_eq!(cols[1].null_mask(), 0);
}

#[test]
fn repeated_bracket_interpolates() {
    // Two columns inside the bracket from point 0 to point 1: the first takes
    // the left point, the second interpolates.
    let xs = keys(&[0.0, 10.0, 20.0]);
    let ys = keys(&[1.0, 3.0, 5.0]);
    let cols = decimate_columns(3, &xs, &ys, &[0u8; 3], &keys(&[2.0, 4.0]));
    assert_eq!(cols[0].representative, Representative::Sample(0));
    assert_eq!(cols[1].representative, Representative::Interpolated(0));
}

#[test]
fn null_points_are_not_swept() {
    let xs = keys(&[0.0, 1.0, 2.0, 3.0, 4.0, 5.0]);
    let ys = keys(&[5.0, 100.0, 7.0, -2.0, 6.0, 1.0]);
    let null = [0u8, 1, 0, 1, 0, 0];
    let pixel_xs = keys(&[5.0]);
    let cols = decimate_columns(6, &xs, &ys, &null, &pixel_xs);
    assert_eq!(cols[0].min, Some(2));
    assert_eq!(cols[0].max, Some(2));
    assert_eq!(cols[0].representative, Representative::Sample(4));
}

#[test]
fn empty_series_gives_absent_columns() {
    let cols = decimate_columns(0, &[], &[], &[], &keys(&[0.0, 1.0]));
    assert!(cols.iter().all(|c| c.representative == Representative::Absent));
    assert_eq!(cols[1].null_mask(), 7);
}

#[test]
fn order_keys_follow_numbers() {
    assert!(key(-1.5) < key(-0.25));
    assert!(key(-0.25) < key(0.0));
    assert_eq!(key(-0.0), key(0.0));
    assert!(key(0.0) < key(1e-300));
    assert!(key(2.0) < key(3.0));
    assert!(key(f64::NEG_INFINITY) < key(f64::MIN));
    assert!(key(f64::MAX) < key(f64::INFINITY));
}

#[test]
fn dashes_follow_path_points() {
    let mask = [0u8; 6];
    let ranged = [false; 6];
    assert_eq!(get_point_number(&mask, &ranged, true, 2, 1), 4);
    let quads = plan_quads(&mask, &ranged, true, 2, 1);
    // Column 2 is dashed away: column 3 continues from column 1, the last
    // point drawn.
    assert_eq!(
        quads,
        vec![value(0, stub(0)), value(1, after(0)), value(3, after(1)), value(4, after(3))]
    );
}

#[test]
fn zero_off_length_is_undashed() {
    let mask = [0u8; 5];
    let ranged = [false; 5];
    assert_eq!(get_point_number(&mask, &ranged, true, 0, 0), 5);
    assert_eq!(plan_quads(&mask, &ranged, true, 0, 0), plan_quads(&mask, &ranged, false, 0, 0));
}

#[test]
fn zero_on_length_draws_nothing() {
    let mask = [0u8; 4];
    let ranged = [false; 4];
    assert_eq!(get_point_number(&mask, &ranged, true, 0, 2), 0);
    assert!(plan_quads(&mask, &ranged, true, 0, 2).is_empty());
}

#[test]
fn empty_gap_counts_every_column() {
    let mask = [0u8, 1, 6, 0, 1, 0];
    let ranged = [false, false, false, true, false, true];
    let solid = get_point_number(&mask, &ranged, false, 0, 0);
    assert_eq!(solid, 1 + 1 + 4 + 4);
    assert_eq!(get_point_number(&mask, &ranged, true, 3, 0), solid);
    assert_eq!(plan_quads(&mask, &ranged, true, 3, 0).len(), solid);
}

#[test]
fn gap_restarts_with_stub() {
    let mask = [0u8, 1, 0, 0];
    let ranged = [false; 4];
    let quads = plan_quads(&mask, &ranged, false, 0, 0);
    assert_eq!(quads, vec![value(0, stub(0)), value(2, stub(2)), value(3, after(2))]);
}

fn at(c: usize, level: Level) -> Anchor {
    Anchor { x: AnchorX::At(c), column: c, level }
}

#[test]
fn ranged_column_draws_an_excursion() {
    let quads = plan_quads(&[0u8], &[true], false, 0, 0);
    assert_eq!(
        quads,
        vec![
            value(0, stub(0)),
            QuadPoint { column: 0, level: Level::Min, prev: at(0, Level::Value) },
            QuadPoint { column: 0, level: Level::Max, prev: at(0, Level::Min) },
            value(0, at(0, Level::Max)),
        ]
    );
    assert_eq!(get_point_number(&[0u8], &[true], false, 0, 0), 4);
}

#[test]
fn ranged_column_continues_from_previous_value() {
    let quads = plan_quads(&[0u8, 4], &[false, true], false, 0, 0);
    assert_eq!(
        quads,
        vec![
            value(0, stub(0)),
            value(1, after(0)),
            QuadPoint { column: 1, level: Level::Min, prev: at(1, Level::Value) },
            value(1, at(1, Level::Min)),
        ]
    );
    assert_eq!(get_point_number(&[0u8, 4], &[false, true], false, 0, 0), 4);
}

#[test]
fn column_after_a_range_continues_from_its_closing_point() {
    let quads = plan_quads(&[0u8, 0], &[true, false], false, 0, 0);
    assert_eq!(quads.len(), 5);
    assert_eq!(quads[4], value(1, after(0)));
}

#[test]
fn counter_tests_both_range_bits_for_the_maximum() {
    // A maximum without a minimum: the emitter draws it, the counter does not.
    assert_eq!(get_point_number(&[2u8], &[true], false, 0, 0), 2);
    assert_eq!(plan_quads(&[2u8], &[true], false, 0, 0).len(), 3);
}

#[test]
fn null_column_breaks_the_line_whatever_the_dash() {
    let quads = plan_quads(&[0u8, 1, 0], &[false; 3], true, 1, 1);
    assert_eq!(quads, vec![value(0, stub(0)), value(2, stub(2))]);
}

#[test]
fn null_column_restarts_the_dash_phase() {
    let whole = get_point_number(&[0u8, 0, 1, 0, 0], &[false; 5], true, 2, 2);
    let half = get_point_number(&[0u8, 0], &[false; 2], true, 2, 2);
    assert_eq!(whole, 4);
    assert_eq!(whole, 2 * half);
}

#[test]
fn indices_form_two_triangles_per_quad() {
    let mut indices = vec![99u32; 14];
    write_quad_indices(2, &mut indices);
    assert_eq!(indices, vec![0, 1, 3, 0, 2, 3, 4, 5, 7, 4, 6, 7, 99, 99]);
}
