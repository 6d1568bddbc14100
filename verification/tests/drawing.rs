use data_visualizer::filter::{filter, filter_at_or_above};
use data_visualizer::geometry::{build, render, POINT_RADIUS};
use data_visualizer::model::{
    ChartType, Dataset, DrawPrimitive, Extents, Point, ScreenPoint, Size,
};
use data_visualizer::projection::{extents, project};

const AREA: Size = Size { width: 300, height: 200 };

fn dataset(name: &str, points: &[(i64, i64)]) -> Dataset {
    Dataset { name: name.to_string(), points: points.iter().map(|&(x, y)| Point { x, y }).collect() }
}

fn at(x: i128, y: i128) -> ScreenPoint {
    ScreenPoint { x, y }
}

#[test]
fn extents_of_one_dataset() {
    let d = dataset("d", &[(3, -1), (-2, 7), (5, 0)]);
    assert_eq!(
        extents(&[d]),
        Some(Extents { min_x: -2, max_x: 5, min_y: -1, max_y: 7 })
    );
}

#[test]
fn extents_cover_all_datasets_together() {
    let a = dataset("a", &[(0, 0), (1, 1)]);
    let b = dataset("b", &[]);
    let c = dataset("c", &[(10, -5)]);
    assert_eq!(
        extents(&[a, b, c]),
        Some(Extents { min_x: 0, max_x: 10, min_y: -5, max_y: 1 })
    );
}

#[test]
fn extents_of_no_point_are_undefined() {
    assert_eq!(extents(&[]), None);
    assert_eq!(extents(&[dataset("a", &[]), dataset("b", &[])]), None);
}

#[test]
fn extents_of_one_point() {
    assert_eq!(
        extents(&[dataset("a", &[(4, 9)])]),
        Some(Extents { min_x: 4, max_x: 4, min_y: 9, max_y: 9 })
    );
}

#[test]
fn extents_at_the_limits_of_a_coordinate() {
    assert_eq!(
        extents(&[dataset("a", &[(i64::MAX, i64::MIN), (i64::MIN, i64::MAX)])]),
        Some(Extents { min_x: i64::MIN, max_x: i64::MAX, min_y: i64::MIN, max_y: i64::MAX })
    );
}

#[test]
fn project_is_linear_and_flips_y() {
    let e = Extents { min_x: 0, max_x: 10_000_000, min_y: 0, max_y: 20_000_000 };
    assert_eq!(project(Point { x: 5_000_000, y: 5_000_000 }, e, AREA), at(150, 150));
    assert_eq!(project(Point { x: 0, y: 0 }, e, AREA), at(0, 200));
    assert_eq!(project(Point { x: 10_000_000, y: 20_000_000 }, e, AREA), at(300, 0));
    assert_eq!(project(Point { x: 1, y: 1 }, e, AREA), at(0, 200));
    assert_eq!(project(Point { x: 33_334, y: 100_000 }, e, AREA), at(1, 199));
}

#[test]
fn project_rounds_down_to_the_pixel() {
    let e = Extents { min_x: 0, max_x: 3, min_y: 0, max_y: 3 };
    let size = Size { width: 10, height: 10 };
    assert_eq!(project(Point { x: 1, y: 1 }, e, size), at(3, 7));
    assert_eq!(project(Point { x: 2, y: 2 }, e, size), at(6, 4));
}

#[test]
fn project_outside_the_extents() {
    let e = Extents { min_x: 0, max_x: 3, min_y: 0, max_y: 3 };
    let size = Size { width: 10, height: 10 };
    assert_eq!(project(Point { x: -1, y: -1 }, e, size), at(-4, 14));
    assert_eq!(project(Point { x: -3, y: 6 }, e, size), at(-10, -10));
    assert_eq!(project(Point { x: 4, y: 4 }, e, size), at(13, -3));
}

#[test]
fn project_against_extents_without_width_or_height() {
    let e = Extents { min_x: 7, max_x: 7, min_y: -2, max_y: -2 };
    assert_eq!(project(Point { x: 7, y: -2 }, e, AREA), at(0, 200));
    assert_eq!(project(Point { x: 9, y: 1 }, e, AREA), at(0, 200));
    assert_eq!(project(Point { x: 1_000_007, y: 999_997 }, e, AREA), at(1, 200));
    assert_eq!(project(Point { x: 3_500_007, y: 1_999_998 }, e, AREA), at(3, 198));
    assert_eq!(project(Point { x: 6, y: -3 }, e, AREA), at(-1, 201));
    assert_eq!(project(Point { x: -999_993, y: -1_000_002 }, e, AREA), at(-1, 201));
    assert_eq!(project(Point { x: -999_994, y: -1_000_003 }, e, AREA), at(-2, 202));
    let e = Extents { min_x: 0, max_x: 10, min_y: 5, max_y: 5 };
    assert_eq!(project(Point { x: 5, y: 5 }, e, AREA), at(150, 200));
}

#[test]
fn one_beside_the_border_of_an_axis_without_width_is_one_pixel() {
    let e = Extents { min_x: 2_000_000, max_x: 2_000_000, min_y: 0, max_y: 0 };
    assert_eq!(project(Point { x: 3_000_000, y: 1_000_000 }, e, AREA), at(1, 199));
    assert_eq!(project(Point { x: 1_000_000, y: -1_000_000 }, e, AREA), at(-1, 201));
    assert_eq!(project(Point { x: 12_000_000, y: 0 }, e, AREA), at(10, 200));
}

#[test]
fn project_at_the_limits_of_a_coordinate() {
    let e = Extents { min_x: i64::MIN, max_x: i64::MAX, min_y: i64::MIN, max_y: i64::MAX };
    let size = Size { width: u32::MAX, height: u32::MAX };
    let side = u32::MAX as i128;
    assert_eq!(project(Point { x: i64::MAX, y: i64::MAX }, e, size), at(side, 0));
    assert_eq!(project(Point { x: i64::MIN, y: i64::MIN }, e, size), at(0, side));
    let e = Extents { min_x: i64::MAX - 1, max_x: i64::MAX, min_y: 0, max_y: 1 };
    let far = (i64::MIN as i128 - (i64::MAX as i128 - 1)) * side;
    assert_eq!(project(Point { x: i64::MIN, y: 0 }, e, size), at(far, side));
    let e = Extents { min_x: i64::MAX, max_x: i64::MAX, min_y: i64::MIN, max_y: i64::MIN };
    let span = i64::MAX as i128 - i64::MIN as i128;
    let across = (-span).div_euclid(1_000_000);
    let up = span.div_euclid(1_000_000);
    assert_eq!(project(Point { x: i64::MIN, y: i64::MAX }, e, size), at(across, side - up));
    assert_eq!(across, -18_446_744_073_710);
    assert_eq!(up, 18_446_744_073_709);
}

#[test]
fn scatter_has_a_circle_for_each_point() {
    let d = dataset("d", &[(0, 0), (5, 10), (10, 20)]);
    let e = extents(std::slice::from_ref(&d)).unwrap();
    assert_eq!(
        build(ChartType::Scatter, &d, e, AREA),
        vec![
            DrawPrimitive::Circle { center: at(0, 200), radius: POINT_RADIUS },
            DrawPrimitive::Circle { center: at(150, 100), radius: POINT_RADIUS },
            DrawPrimitive::Circle { center: at(300, 0), radius: POINT_RADIUS },
        ]
    );
    assert_eq!(POINT_RADIUS, 2);
}

#[test]
fn line_joins_neighbours_in_order() {
    let d = dataset("d", &[(10, 20), (0, 0), (5, 10)]);
    let e = extents(std::slice::from_ref(&d)).unwrap();
    assert_eq!(
        build(ChartType::Line, &d, e, AREA),
        vec![
            DrawPrimitive::Segment { from: at(300, 0), to: at(0, 200) },
            DrawPrimitive::Segment { from: at(0, 200), to: at(150, 100) },
        ]
    );
}

#[test]
fn line_of_fewer_than_two_points_is_empty() {
    let e = Extents { min_x: 0, max_x: 1, min_y: 0, max_y: 1 };
    assert!(build(ChartType::Line, &dataset("d", &[]), e, AREA).is_empty());
    assert!(build(ChartType::Line, &dataset("d", &[(1, 1)]), e, AREA).is_empty());
    assert_eq!(build(ChartType::Line, &dataset("d", &[(1, 1), (0, 0)]), e, AREA).len(), 1);
}

#[test]
fn line_has_one_segment_less_than_points() {
    let e = Extents { min_x: 0, max_x: 100, min_y: 0, max_y: 100 };
    for n in 0..20i64 {
        let points: Vec<(i64, i64)> = (0..n).map(|i| (i, i * i)).collect();
        let shapes = build(ChartType::Line, &dataset("d", &points), e, AREA);
        assert_eq!(shapes.len() as i64, if n > 0 { n - 1 } else { 0 });
    }
}

#[test]
fn bars_stand_on_zero_and_share_the_width() {
    let d = dataset("d", &[(0, 0), (5, 5), (10, 20)]);
    let e = extents(std::slice::from_ref(&d)).unwrap();
    assert_eq!(
        build(ChartType::Bar, &d, e, AREA),
        vec![
            DrawPrimitive::Rect { left: -50, top: 200, right: 50, bottom: 200 },
            DrawPrimitive::Rect { left: 100, top: 150, right: 200, bottom: 200 },
            DrawPrimitive::Rect { left: 250, top: 0, right: 350, bottom: 200 },
        ]
    );
}

#[test]
fn bars_stand_on_zero_between_the_borders() {
    let d = dataset("d", &[(0, -10), (10, 10)]);
    let e = extents(std::slice::from_ref(&d)).unwrap();
    assert_eq!(
        build(ChartType::Bar, &d, e, AREA),
        vec![
            DrawPrimitive::Rect { left: -75, top: 100, right: 75, bottom: 200 },
            DrawPrimitive::Rect { left: 225, top: 0, right: 375, bottom: 100 },
        ]
    );
}

#[test]
fn bars_stand_on_the_lower_border_where_zero_is_out_of_range() {
    let d = dataset("d", &[(0, 10), (10, 30)]);
    let e = extents(std::slice::from_ref(&d)).unwrap();
    assert_eq!(
        build(ChartType::Bar, &d, e, AREA),
        vec![
            DrawPrimitive::Rect { left: -75, top: 200, right: 75, bottom: 200 },
            DrawPrimitive::Rect { left: 225, top: 0, right: 375, bottom: 200 },
        ]
    );
    let d = dataset("d", &[(0, -30), (10, -10)]);
    let e = extents(std::slice::from_ref(&d)).unwrap();
    assert_eq!(
        build(ChartType::Bar, &d, e, AREA),
        vec![
            DrawPrimitive::Rect { left: -75, top: 200, right: 75, bottom: 200 },
            DrawPrimitive::Rect { left: 225, top: 0, right: 375, bottom: 200 },
        ]
    );
}

#[test]
fn bar_width_is_the_area_width_divided_by_the_count() {
    let e = Extents { min_x: 0, max_x: 100, min_y: 0, max_y: 100 };
    for n in 1..=40i64 {
        let points: Vec<(i64, i64)> = (0..n).map(|i| (i, 100 - i)).collect();
        let shapes = build(ChartType::Bar, &dataset("d", &points), e, AREA);
        assert_eq!(shapes.len() as i64, n);
        for shape in shapes {
            match shape {
                DrawPrimitive::Rect { left, top, right, bottom } => {
                    assert_eq!(right - left, (300 / n) as i128);
                    assert!(top <= bottom);
                }
                _ => panic!("a bar chart holds rectangles only"),
            }
        }
    }
    assert!(build(ChartType::Bar, &dataset("d", &[]), e, AREA).is_empty());
}

#[test]
fn bars_of_more_points_than_pixels_have_no_width() {
    let e = Extents { min_x: 0, max_x: 10, min_y: 0, max_y: 10 };
    let size = Size { width: 3, height: 10 };
    let d = dataset("d", &[(0, 1), (1, 1), (2, 1), (3, 1)]);
    for shape in build(ChartType::Bar, &d, e, size) {
        assert!(matches!(shape, DrawPrimitive::Rect { left, right, .. } if left == right));
    }
}

#[test]
fn one_point_alone_is_drawn_without_division_by_zero() {
    let d = dataset("d", &[(4, 9)]);
    let e = extents(std::slice::from_ref(&d)).unwrap();
    assert_eq!(
        build(ChartType::Scatter, &d, e, AREA),
        vec![DrawPrimitive::Circle { center: at(0, 200), radius: 2 }]
    );
    assert_eq!(
        build(ChartType::Bar, &d, e, AREA),
        vec![DrawPrimitive::Rect { left: -150, top: 200, right: 150, bottom: 200 }]
    );
}

#[test]
fn render_draws_every_dataset_against_shared_extents() {
    let a = dataset("a", &[(0, 0), (10, 10)]);
    let b = dataset("b", &[(5, 20)]);
    let all = vec![a.clone(), b.clone()];
    let out = render(ChartType::Scatter, &all, AREA);
    let shared = Extents { min_x: 0, max_x: 10, min_y: 0, max_y: 20 };
    assert_eq!(out.len(), 2);
    assert_eq!(out[0], build(ChartType::Scatter, &a, shared, AREA));
    assert_eq!(out[1], build(ChartType::Scatter, &b, shared, AREA));
    assert_eq!(
        out[0],
        vec![
            DrawPrimitive::Circle { center: at(0, 200), radius: 2 },
            DrawPrimitive::Circle { center: at(300, 100), radius: 2 },
        ]
    );
    assert_eq!(out[1], vec![DrawPrimitive::Circle { center: at(150, 0), radius: 2 }]);
}

#[test]
fn render_of_no_point_is_empty() {
    assert!(render(ChartType::Line, &[], AREA).is_empty());
    assert!(render(ChartType::Bar, &[dataset("a", &[])], AREA).is_empty());
    let out = render(ChartType::Line, &[dataset("a", &[]), dataset("b", &[(1, 1)])], AREA);
    assert_eq!(out, vec![vec![], vec![]]);
}

#[test]
fn filter_keeps_order_and_leaves_the_source() {
    let d = dataset("d", &[(1, 5), (2, -1), (3, 7), (4, 0), (5, 5)]);
    let kept = filter(&d, |p: Point| p.y >= 5);
    assert_eq!(kept, dataset("d", &[(1, 5), (3, 7), (5, 5)]));
    assert_eq!(d.points.len(), 5);
    assert_eq!(filter(&d, |p: Point| p.x % 2 == 0), dataset("d", &[(2, -1), (4, 0)]));
}

#[test]
fn filter_may_keep_nothing_or_everything() {
    let d = dataset("d", &[(1, 5), (2, -1)]);
    let none = filter(&d, |_p: Point| false);
    assert_eq!(none, dataset("d", &[]));
    assert_eq!(extents(&[none.clone()]), None);
    assert!(render(ChartType::Scatter, &[none], AREA).is_empty());
    assert_eq!(filter(&d, |_p: Point| true), d);
    assert_eq!(filter(&dataset("e", &[]), |_p: Point| true), dataset("e", &[]));
}

#[test]
fn filter_by_threshold_on_y() {
    let d = dataset("d", &[(1, 5), (2, -1), (3, 7), (4, 0), (5, 5)]);
    assert_eq!(filter_at_or_above(&d, 5), dataset("d", &[(1, 5), (3, 7), (5, 5)]));
    assert_eq!(filter_at_or_above(&d, 8), dataset("d", &[]));
    assert_eq!(filter_at_or_above(&d, i64::MIN), d);
}
