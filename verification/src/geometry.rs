//! From projected points to shapes: circles for a scatter chart, segments
//! for a line chart, rectangles for a bar chart.

use crate::model::{
    views_of, ChartType, Dataset, DatasetView, DrawPrimitive, Extents, Point, ScreenPoint, Size,
};
use crate::projection::{
    extents, has_points, is_tight_box, lemma_scale_bounded, project, project_x, project_y,
};
use vstd::prelude::*;

verus! {

/// The radius of the circle that marks a point of a scatter chart.
pub const POINT_RADIUS: u32 = 2;

/// Where `p` is drawn.
pub open spec fn screen_of(p: Point, e: Extents, size: Size) -> ScreenPoint {
    ScreenPoint { x: project_x(p, e, size) as i128, y: project_y(p, e, size) as i128 }
}

/// The place where a point is drawn has room in a `ScreenPoint`: it is the
/// projection of the point, exactly.
pub proof fn lemma_screen_of(p: Point, e: Extents, size: Size)
    ensures
        screen_of(p, e, size).x == project_x(p, e, size),
        screen_of(p, e, size).y == project_y(p, e, size),
{
    lemma_scale_bounded(p.x, e.min_x, e.max_x, size.width);
    lemma_scale_bounded(p.y, e.min_y, e.max_y, size.height);
}

/// The circle of a point of a scatter chart.
pub open spec fn circle_of(p: Point, e: Extents, size: Size) -> DrawPrimitive {
    DrawPrimitive::Circle { center: screen_of(p, e, size), radius: POINT_RADIUS }
}

/// The segment of a line chart that leads from `a` to `b`.
pub open spec fn segment_of(a: Point, b: Point, e: Extents, size: Size) -> DrawPrimitive {
    DrawPrimitive::Segment { from: screen_of(a, e, size), to: screen_of(b, e, size) }
}

/// The height, in data space, on which the bars stand: zero where the
/// extents reach it, else their lower border.
pub open spec fn baseline(e: Extents) -> i64 {
    if e.min_y <= 0 <= e.max_y {
        0
    } else {
        e.min_y
    }
}

/// The width of each bar of a chart of `count` bars.
pub open spec fn bar_width(size: Size, count: int) -> int {
    size.width as int / count
}

/// The left border of the bar of `p`: the bar is centred on the place of
/// `p`, up to the odd pixel.
pub open spec fn bar_left(p: Point, e: Extents, size: Size, count: int) -> int {
    project_x(p, e, size) - bar_width(size, count) / 2
}

/// The screen height of the foot of every bar.
pub open spec fn bar_foot(e: Extents, size: Size) -> int {
    project_y(Point { x: 0, y: baseline(e) }, e, size)
}

/// The bar of `p` in a chart of `count` bars: as wide as the area divided
/// by `count`, and reaching from the baseline to the place of `p`.
pub open spec fn bar_of(p: Point, e: Extents, size: Size, count: int) -> DrawPrimitive {
    let left = bar_left(p, e, size, count);
    let head = project_y(p, e, size);
    let foot = bar_foot(e, size);
    DrawPrimitive::Rect {
        left: left as i128,
        top: (if head <= foot { head } else { foot }) as i128,
        right: (left + bar_width(size, count)) as i128,
        bottom: (if head <= foot { foot } else { head }) as i128,
    }
}

/// The shapes of a chart of the given kind over `points`, in order.
pub open spec fn shapes(chart_type: ChartType, points: Seq<Point>, e: Extents, size: Size) -> Seq<
    DrawPrimitive,
> {
    match chart_type {
        ChartType::Scatter => Seq::new(points.len(), |i: int| circle_of(points[i], e, size)),
        ChartType::Line => Seq::new(
            if points.len() > 0 {
                (points.len() - 1) as nat
            } else {
                0
            },
            |i: int| segment_of(points[i], points[i + 1], e, size),
        ),
        ChartType::Bar => Seq::new(
            points.len(),
            |i: int| bar_of(points[i], e, size, points.len() as int),
        ),
    }
}

/// A line chart of `n` points has `n - 1` segments, or none where it has no
/// point; segment `i` leads from point `i` to point `i + 1`.
pub proof fn lemma_line_segments(points: Seq<Point>, e: Extents, size: Size)
    ensures
        shapes(ChartType::Line, points, e, size).len() == if points.len() > 0 {
            points.len() - 1
        } else {
            0
        },
        forall|i: int|
            0 <= i < points.len() - 1 ==> #[trigger] shapes(ChartType::Line, points, e, size)[i]
                == (DrawPrimitive::Segment {
                from: screen_of(points[i], e, size),
                to: screen_of(points[i + 1], e, size),
            }),
{
}

/// A bar chart of `n > 0` points has `n` rectangles, each as wide as the
/// width of the area divided by `n`.
pub proof fn lemma_bar_rectangles(points: Seq<Point>, e: Extents, size: Size)
    requires
        points.len() > 0,
    ensures
        shapes(ChartType::Bar, points, e, size).len() == points.len(),
        forall|i: int|
            0 <= i < points.len() ==> (#[trigger] shapes(ChartType::Bar, points, e, size)[i]
                matches DrawPrimitive::Rect { left, top, right, bottom } && right - left
                == size.width as int / (points.len() as int) && top <= bottom),
{
    let n = points.len() as int;
    assert forall|i: int| 0 <= i < n implies (#[trigger] shapes(ChartType::Bar, points, e, size)[i]
        matches DrawPrimitive::Rect { left, top, right, bottom } && right - left == size.width as int
        / n && top <= bottom) by {
        lemma_bar_in_range(points[i], e, size, n);
    }
}

/// A scatter chart has one circle for each point, of the fixed radius and
/// at the place of the point.
pub proof fn lemma_scatter_circles(points: Seq<Point>, e: Extents, size: Size)
    ensures
        shapes(ChartType::Scatter, points, e, size).len() == points.len(),
        forall|i: int|
            0 <= i < points.len() ==> #[trigger] shapes(ChartType::Scatter, points, e, size)[i]
                == (DrawPrimitive::Circle {
                center: screen_of(points[i], e, size),
                radius: POINT_RADIUS,
            }),
{
}

/// The numbers that make up a bar have room in an `i128`, and the bar is
/// as wide as it should be.
proof fn lemma_bar_in_range(p: Point, e: Extents, size: Size, count: int)
    requires
        count > 0,
    ensures
        0 <= bar_width(size, count) <= size.width,
        -0x2_0000_0000_0000_0000_0000_0000 <= bar_left(p, e, size, count)
            <= 0x2_0000_0000_0000_0000_0000_0000,
        -0x2_0000_0000_0000_0000_0000_0000 <= project_y(p, e, size)
            <= 0x2_0000_0000_0000_0000_0000_0000,
        -0x2_0000_0000_0000_0000_0000_0000 <= bar_foot(e, size)
            <= 0x2_0000_0000_0000_0000_0000_0000,
        bar_of(p, e, size, count) matches DrawPrimitive::Rect { left, top, right, bottom } && right
            - left == bar_width(size, count) && top <= bottom && left == bar_left(
            p,
            e,
            size,
            count,
        ),
{
    lemma_scale_bounded(p.x, e.min_x, e.max_x, size.width);
    lemma_scale_bounded(p.y, e.min_y, e.max_y, size.height);
    lemma_scale_bounded(baseline(e), e.min_y, e.max_y, size.height);
    vstd::arithmetic::div_mod::lemma_div_pos_is_pos(size.width as int, count);
    vstd::arithmetic::div_mod::lemma_div_nonincreasing(size.width as int, count);
}

/// The shapes of one dataset as a chart of the given kind, drawn against
/// the given extents into an area of the given size. The extents may be
/// those of a larger set of datasets that are shown together.
pub fn build(chart_type: ChartType, dataset: &Dataset, e: Extents, size: Size) -> (out: Vec<
    DrawPrimitive,
>)
    ensures
        out@ == shapes(chart_type, dataset@.points, e, size),
{
    let points = &dataset.points;
    let n = points.len();
    let mut out: Vec<DrawPrimitive> = Vec::new();
    match chart_type {
        ChartType::Scatter => {
            let mut i: usize = 0;
            while i < n
                invariant
                    i <= n,
                    n == points@.len(),
                    out@ == Seq::new(i as nat, |k: int| circle_of(points@[k], e, size)),
                decreases n - i,
            {
                let p = points[i];
                proof {
                    lemma_scale_bounded(p.x, e.min_x, e.max_x, size.width);
                    lemma_scale_bounded(p.y, e.min_y, e.max_y, size.height);
                }
                out.push(DrawPrimitive::Circle { center: project(p, e, size), radius: POINT_RADIUS });
                i += 1;
                assert(out@ =~= Seq::new(i as nat, |k: int| circle_of(points@[k], e, size)));
            }
            assert(out@ =~= shapes(chart_type, dataset@.points, e, size));
        },
        ChartType::Line => {
            let mut i: usize = 1;
            while i < n
                invariant
                    1 <= i,
                    n == points@.len(),
                    i <= n || (n == 0 && i == 1),
                    out@ == Seq::new(
                        (i - 1) as nat,
                        |k: int| segment_of(points@[k], points@[k + 1], e, size),
                    ),
                decreases n - i,
            {
                let a = points[i - 1];
                let b = points[i];
                proof {
                    lemma_scale_bounded(a.x, e.min_x, e.max_x, size.width);
                    lemma_scale_bounded(a.y, e.min_y, e.max_y, size.height);
                    lemma_scale_bounded(b.x, e.min_x, e.max_x, size.width);
                    lemma_scale_bounded(b.y, e.min_y, e.max_y, size.height);
                }
                out.push(
                    DrawPrimitive::Segment { from: project(a, e, size), to: project(b, e, size) },
                );
                i += 1;
                assert(out@ =~= Seq::new(
                    (i - 1) as nat,
                    |k: int| segment_of(points@[k], points@[k + 1], e, size),
                ));
            }
            assert(out@ =~= shapes(chart_type, dataset@.points, e, size));
        },
        ChartType::Bar => {
            if n > 0 {
                let width: i128 = (size.width as u64 / n as u64) as i128;
                let floor = Point { x: 0, y: if e.min_y <= 0 && 0 <= e.max_y { 0 } else { e.min_y } };
                let foot: i128 = project(floor, e, size).y;
                let mut i: usize = 0;
                while i < n
                    invariant
                        i <= n,
                        0 < n == points@.len(),
                        width == bar_width(size, n as int),
                        foot == bar_foot(e, size),
                        out@ == Seq::new(i as nat, |k: int| bar_of(points@[k], e, size, n as int)),
                    decreases n - i,
                {
                    let p = points[i];
                    proof {
                        lemma_bar_in_range(p, e, size, n as int);
                    }
                    let at = project(p, e, size);
                    let left: i128 = at.x - width / 2;
                    let bar = if at.y <= foot {
                        DrawPrimitive::Rect { left, top: at.y, right: left + width, bottom: foot }
                    } else {
                        DrawPrimitive::Rect { left, top: foot, right: left + width, bottom: at.y }
                    };
                    assert(bar == bar_of(p, e, size, n as int));
                    out.push(bar);
                    i += 1;
                    assert(out@ =~= Seq::new(
                        i as nat,
                        |k: int| bar_of(points@[k], e, size, n as int),
                    ));
                }
            }
            assert(out@ =~= shapes(chart_type, dataset@.points, e, size));
        },
    }
    out
}

/// The bounding box of the points of `sets`; meaningful where they hold a
/// point.
pub open spec fn bounding_box(sets: Seq<DatasetView>) -> Extents {
    choose|e: Extents| is_tight_box(e, sets)
}

/// The charts of datasets that are shown together: each dataset on its own,
/// all against the bounding box of all their points, so that the charts can
/// be compared. Where there is no point at all there is nothing to draw, and
/// the result is empty.
pub fn render(chart_type: ChartType, datasets: &[Dataset], size: Size) -> (out: Vec<
    Vec<DrawPrimitive>,
>)
    ensures
        !has_points(views_of(datasets@)) ==> out@.len() == 0,
        has_points(views_of(datasets@)) ==> out@.len() == datasets@.len() && forall|d: int|
            0 <= d < datasets@.len() ==> (#[trigger] out@[d])@ == shapes(
                chart_type,
                datasets@[d]@.points,
                bounding_box(views_of(datasets@)),
                size,
            ),
{
    let mut out: Vec<Vec<DrawPrimitive>> = Vec::new();
    match extents(datasets) {
        None => {},
        Some(e) => {
            proof {
                let (d, i) = choose|d: int, i: int|
                    crate::projection::is_place(views_of(datasets@), d, i) && (
                    #[trigger] views_of(datasets@)[d].points[i]).x == e.min_x;
                crate::projection::lemma_tight_box_is_unique(
                    e,
                    bounding_box(views_of(datasets@)),
                    views_of(datasets@),
                );
            }
            let mut d: usize = 0;
            while d < datasets.len()
                invariant
                    d <= datasets@.len(),
                    out@.len() == d,
                    forall|k: int|
                        0 <= k < d ==> (#[trigger] out@[k])@ == shapes(
                            chart_type,
                            datasets@[k]@.points,
                            e,
                            size,
                        ),
                decreases datasets@.len() - d,
            {
                out.push(build(chart_type, &datasets[d], e, size));
                d += 1;
            }
        },
    }
    out
}

} // verus!
