use vtui::layout::{
    compute_split, split_fit, split_measures, split_overflow, Axis, Flow, Layout, Measure,
    Placement, Variable, WHOLE,
};
use vtui::rect::LogicalRect;

fn widths(rects: &[LogicalRect]) -> Vec<i32> {
    rects.iter().map(|r| r.width).collect()
}

fn sizes(vars: &[Variable]) -> Vec<i32> {
    vars.iter().map(|v| v.size).collect()
}

fn starts(vars: &[Variable]) -> Vec<i32> {
    vars.iter().map(|v| v.start).collect()
}

#[test]
fn overflow_exact_children_are_not_clamped() {
    let area = LogicalRect::new(0, 0, 5, 3);
    let measures = vec![Measure::Exact(10), Measure::Exact(10), Measure::Exact(10)];
    let rects = compute_split(Flow::Horizontal, Placement::Overflow, area, &measures);
    assert_eq!(
        rects,
        vec![
            LogicalRect::new(0, 0, 10, 3),
            LogicalRect::new(10, 0, 10, 3),
            LogicalRect::new(20, 0, 10, 3),
        ]
    );
}

#[test]
fn overflow_vertical_exact_then_whole_viewport() {
    let area = LogicalRect::new(0, 0, 10, 20);
    let measures = vec![Measure::Exact(10), Measure::Percent(WHOLE)];
    let rects = compute_split(Flow::Vertical, Placement::Overflow, area, &measures);
    assert_eq!(rects[0], LogicalRect::new(0, 0, 10, 10));
    assert_eq!(rects[1], LogicalRect::new(0, 10, 10, 20));
}

#[test]
fn overflow_percent_rounds_half_away_from_zero() {
    // Half of 5 is 2.5, which rounds to 3; a quarter of 10 is 2.5, which rounds to 3.
    let vars = split_overflow(0, 5, &vec![Measure::Percent(WHOLE / 2)]);
    assert_eq!(sizes(&vars), vec![3]);
    let vars = split_overflow(0, 10, &vec![Measure::Percent(WHOLE / 4)]);
    assert_eq!(sizes(&vars), vec![3]);
    // A third of 10, written as 3333 parts, is 3.333, which rounds to 3.
    let vars = split_overflow(0, 10, &vec![Measure::Percent(3333)]);
    assert_eq!(sizes(&vars), vec![3]);
    // Of a negative viewport the share is negative.
    let vars = split_overflow(7, -5, &vec![Measure::Percent(WHOLE / 2), Measure::Exact(1)]);
    assert_eq!(sizes(&vars), vec![-3, 1]);
    assert_eq!(starts(&vars), vec![7, 4]);
}

#[test]
fn overflow_sizes_and_positions_saturate() {
    let vars = split_overflow(0, i32::MAX, &vec![Measure::Percent(u32::MAX)]);
    assert_eq!(sizes(&vars), vec![i32::MAX]);
    let vars = split_overflow(
        i32::MAX - 5,
        0,
        &vec![Measure::Exact(10), Measure::Exact(10), Measure::Exact(1)],
    );
    assert_eq!(starts(&vars), vec![i32::MAX - 5, i32::MAX, i32::MAX]);
}

#[test]
fn exact_measures_below_zero_take_no_space() {
    let vars = split_overflow(3, 10, &vec![Measure::Exact(-4), Measure::Exact(2)]);
    assert_eq!(sizes(&vars), vec![0, 2]);
    assert_eq!(starts(&vars), vec![3, 3]);
    let vars = split_fit(3, 10, &vec![Measure::Exact(-4), Measure::Exact(2)]);
    assert_eq!(sizes(&vars), vec![0, 2]);
}

#[test]
fn fit_thirds_receive_leftover_by_index() {
    let area = LogicalRect::new(0, 0, 10, 1);
    let measures = vec![Measure::Percent(1), Measure::Percent(1), Measure::Percent(1)];
    let rects = compute_split(Flow::Horizontal, Placement::Fit, area, &measures);
    assert_eq!(widths(&rects), vec![4, 3, 3]);
    assert_eq!(rects[1].x, 4);
    assert_eq!(rects[2].x, 7);
}

#[test]
fn fit_leftover_goes_to_largest_remainders() {
    // 10 cells by weights 1 : 1 : 2 : 3 are 1.43, 1.43, 2.86, 4.29 cells. Rounded down they
    // are 1, 1, 2, 4, which leaves 2 cells: one for the remainder 0.86, one for the first 0.43.
    let measures = vec![
        Measure::Percent(1),
        Measure::Percent(1),
        Measure::Percent(2),
        Measure::Percent(3),
    ];
    let vars = split_fit(0, 10, &measures);
    assert_eq!(sizes(&vars), vec![2, 1, 3, 4]);
    assert_eq!(starts(&vars), vec![0, 2, 3, 6]);
}

#[test]
fn fit_sizes_add_up_to_the_axis() {
    let lists: Vec<Vec<Measure>> = vec![
        vec![Measure::Percent(WHOLE)],
        vec![Measure::Percent(1), Measure::Percent(2), Measure::Percent(4)],
        vec![Measure::Exact(3), Measure::Percent(7), Measure::Exact(2), Measure::Percent(11)],
        vec![Measure::Percent(0), Measure::Percent(5), Measure::Percent(5), Measure::Percent(5)],
        vec![Measure::Fixed(1, 1, 50, 50), Measure::Percent(3), Measure::Percent(3)],
    ];
    for measures in lists.iter() {
        for axis in 6..60 {
            let vars = split_fit(0, axis, measures);
            let total: i32 = vars.iter().map(|v| v.size).sum();
            assert_eq!(total, axis);
        }
    }
}

#[test]
fn fit_without_shares_keeps_the_exact_sizes() {
    let vars = split_fit(0, 10, &vec![Measure::Exact(3)]);
    assert_eq!(sizes(&vars), vec![3]);
    let vars = split_fit(0, 10, &vec![Measure::Percent(0), Measure::Exact(3)]);
    assert_eq!(sizes(&vars), vec![0, 3]);
    let vars = split_fit(0, 10, &Vec::new());
    assert_eq!(vars.len(), 0);
}

#[test]
fn fit_shares_vanish_where_exact_measures_fill_the_axis() {
    let measures =
        vec![Measure::Exact(8), Measure::Percent(WHOLE), Measure::Exact(8), Measure::Percent(1)];
    let vars = split_fit(2, 10, &measures);
    assert_eq!(sizes(&vars), vec![8, 0, 8, 0]);
    assert_eq!(starts(&vars), vec![2, 10, 10, 18]);
}

#[test]
fn fixed_measures_stand_outside_of_the_flow() {
    let area = LogicalRect::new(5, 7, 30, 10);
    let measures = vec![
        Measure::Exact(4),
        Measure::Fixed(2, 3, 100, 1),
        Measure::Exact(6),
        Measure::Fixed(-9, 0, 2, 2),
    ];
    let rects = compute_split(Flow::Horizontal, Placement::Overflow, area, &measures);
    assert_eq!(
        rects,
        vec![
            LogicalRect::new(5, 7, 4, 10),
            LogicalRect::new(7, 10, 100, 1),
            LogicalRect::new(9, 7, 6, 10),
            LogicalRect::new(-4, 7, 2, 2),
        ]
    );
    let rects = compute_split(Flow::Vertical, Placement::Fit, area, &measures);
    assert_eq!(rects[0], LogicalRect::new(5, 7, 30, 4));
    assert_eq!(rects[1], LogicalRect::new(7, 10, 100, 1));
    assert_eq!(rects[2], LogicalRect::new(5, 11, 30, 6));
}

#[test]
fn split_measures_follows_the_placement() {
    let measures = vec![Measure::Percent(WHOLE), Measure::Percent(WHOLE)];
    let vars = split_measures(Placement::Overflow, 0, 9, &measures);
    assert_eq!(sizes(&vars), vec![9, 9]);
    let vars = split_measures(Placement::Fit, 0, 9, &measures);
    assert_eq!(sizes(&vars), vec![5, 4]);
}

#[test]
fn defaults_of_the_layout_types() {
    assert_eq!(Placement::default(), Placement::Overflow);
    assert_eq!(Flow::default(), Flow::Vertical);
    assert_eq!(Measure::default(), Measure::Percent(WHOLE));
    assert_eq!(Axis::default(), Axis::Vertical);
    assert_eq!(Layout::default().axis, Axis::Vertical);
}

#[test]
fn even_layout_rounds_the_edges() {
    let layout = Layout { axis: Axis::Horizontal };
    let parts = layout.split(LogicalRect::new(0, 2, 10, 4), 3);
    // The edges lie at 0, 3.33, 6.67 and 10, which round to 0, 3, 7 and 10.
    assert_eq!(
        parts,
        vec![
            LogicalRect::new(0, 2, 3, 4),
            LogicalRect::new(3, 2, 4, 4),
            LogicalRect::new(7, 2, 3, 4),
        ]
    );
    let layout = Layout { axis: Axis::Vertical };
    let parts = layout.split(LogicalRect::new(1, 0, 6, 5), 2);
    assert_eq!(parts, vec![LogicalRect::new(1, 0, 6, 3), LogicalRect::new(1, 3, 6, 2)]);
    assert_eq!(layout.split(LogicalRect::new(1, 0, 6, 5), 0).len(), 0);
}
