//! From data space to the drawing area: the bounding box of the visible
//! points, and the linear map that carries a point into the area.

use crate::model::{
    views_of, Dataset, DatasetView, Extents, Point, ScreenPoint, Size, UNITS_PER_ONE,
};
use vstd::arithmetic::div_mod::{lemma_div_is_ordered, lemma_fundamental_div_mod_converse};
use vstd::arithmetic::mul::{lemma_mul_inequality, lemma_mul_nonnegative};
use vstd::prelude::*;

verus! {

/// `p` lies inside `e`, borders included.
pub open spec fn covers(e: Extents, p: Point) -> bool {
    e.min_x <= p.x <= e.max_x && e.min_y <= p.y <= e.max_y
}

/// `(d, i)` names a point of `sets`: point `i` of dataset `d`.
pub open spec fn is_place(sets: Seq<DatasetView>, d: int, i: int) -> bool {
    0 <= d < sets.len() && 0 <= i < sets[d].points.len()
}

/// There is at least one point among all the datasets.
pub open spec fn has_points(sets: Seq<DatasetView>) -> bool {
    exists|d: int, i: int| is_place(sets, d, i)
}

/// `e` covers every point of `sets`.
pub open spec fn covers_all(e: Extents, sets: Seq<DatasetView>) -> bool {
    forall|d: int, i: int| is_place(sets, d, i) ==> covers(e, #[trigger] sets[d].points[i])
}

/// `e` covers every point of `sets`, and each of its four sides runs
/// through one of them.
pub open spec fn is_tight_box(e: Extents, sets: Seq<DatasetView>) -> bool {
    &&& covers_all(e, sets)
    &&& exists|d: int, i: int| is_place(sets, d, i) && (#[trigger] sets[d].points[i]).x == e.min_x
    &&& exists|d: int, i: int| is_place(sets, d, i) && (#[trigger] sets[d].points[i]).x == e.max_x
    &&& exists|d: int, i: int| is_place(sets, d, i) && (#[trigger] sets[d].points[i]).y == e.min_y
    &&& exists|d: int, i: int| is_place(sets, d, i) && (#[trigger] sets[d].points[i]).y == e.max_y
}

/// A tight box lies inside every box that covers the same points: it is the
/// smallest one.
pub proof fn lemma_tight_box_is_smallest(e: Extents, other: Extents, sets: Seq<DatasetView>)
    requires
        is_tight_box(e, sets),
        covers_all(other, sets),
    ensures
        other.min_x <= e.min_x,
        e.max_x <= other.max_x,
        other.min_y <= e.min_y,
        e.max_y <= other.max_y,
{
}

/// The points of `sets` have one tight box only.
pub proof fn lemma_tight_box_is_unique(a: Extents, b: Extents, sets: Seq<DatasetView>)
    requires
        is_tight_box(a, sets),
        is_tight_box(b, sets),
    ensures
        a == b,
{
    lemma_tight_box_is_smallest(a, b, sets);
    lemma_tight_box_is_smallest(b, a, sets);
}

/// `(a, b)` names a point that stands before point `i` of dataset `d`.
spec fn is_before(sets: Seq<DatasetView>, d: int, i: int, a: int, b: int) -> bool {
    is_place(sets, a, b) && (a < d || (a == d && b < i))
}

/// `e` is the tight box of the points that stand before point `i` of
/// dataset `d`.
spec fn is_tight_before(e: Extents, sets: Seq<DatasetView>, d: int, i: int) -> bool {
    &&& forall|a: int, b: int|
        is_before(sets, d, i, a, b) ==> covers(e, #[trigger] sets[a].points[b])
    &&& exists|a: int, b: int|
        is_before(sets, d, i, a, b) && (#[trigger] sets[a].points[b]).x == e.min_x
    &&& exists|a: int, b: int|
        is_before(sets, d, i, a, b) && (#[trigger] sets[a].points[b]).x == e.max_x
    &&& exists|a: int, b: int|
        is_before(sets, d, i, a, b) && (#[trigger] sets[a].points[b]).y == e.min_y
    &&& exists|a: int, b: int|
        is_before(sets, d, i, a, b) && (#[trigger] sets[a].points[b]).y == e.max_y
}

/// What the scan has found when it stands at point `i` of dataset `d`.
spec fn found_before(found: Option<Extents>, sets: Seq<DatasetView>, d: int, i: int) -> bool {
    match found {
        Some(e) => is_tight_before(e, sets, d, i),
        None => forall|a: int, b: int| !is_before(sets, d, i, a, b),
    }
}

/// Taking in one more point keeps the box tight.
proof fn lemma_take_in(found: Option<Extents>, grown: Extents, sets: Seq<DatasetView>, d: int, i: int)
    requires
        is_place(sets, d, i),
        found_before(found, sets, d, i),
        match found {
            Some(e) => {
                let p = sets[d].points[i];
                &&& grown.min_x == if p.x < e.min_x { p.x } else { e.min_x }
                &&& grown.max_x == if p.x > e.max_x { p.x } else { e.max_x }
                &&& grown.min_y == if p.y < e.min_y { p.y } else { e.min_y }
                &&& grown.max_y == if p.y > e.max_y { p.y } else { e.max_y }
            },
            None => {
                let p = sets[d].points[i];
                grown == (Extents { min_x: p.x, max_x: p.x, min_y: p.y, max_y: p.y })
            },
        },
    ensures
        is_tight_before(grown, sets, d, i + 1),
{
    let p = sets[d].points[i];
    assert(is_before(sets, d, i + 1, d, i));
    assert forall|a: int, b: int| is_before(sets, d, i + 1, a, b) implies covers(
        grown,
        #[trigger] sets[a].points[b],
    ) by {
        if !(a == d && b == i) {
            assert(is_before(sets, d, i, a, b));
        }
    }
    match found {
        Some(e) => {
            let (a0, b0) = choose|a: int, b: int|
                is_before(sets, d, i, a, b) && (#[trigger] sets[a].points[b]).x == e.min_x;
            assert(is_before(sets, d, i + 1, a0, b0));
            let (a1, b1) = choose|a: int, b: int|
                is_before(sets, d, i, a, b) && (#[trigger] sets[a].points[b]).x == e.max_x;
            assert(is_before(sets, d, i + 1, a1, b1));
            let (a2, b2) = choose|a: int, b: int|
                is_before(sets, d, i, a, b) && (#[trigger] sets[a].points[b]).y == e.min_y;
            assert(is_before(sets, d, i + 1, a2, b2));
            let (a3, b3) = choose|a: int, b: int|
                is_before(sets, d, i, a, b) && (#[trigger] sets[a].points[b]).y == e.max_y;
            assert(is_before(sets, d, i + 1, a3, b3));
            if p.x < e.min_x {
                assert(sets[d].points[i].x == grown.min_x);
            } else {
                assert(sets[a0].points[b0].x == grown.min_x);
            }
            if p.x > e.max_x {
                assert(sets[d].points[i].x == grown.max_x);
            } else {
                assert(sets[a1].points[b1].x == grown.max_x);
            }
            if p.y < e.min_y {
                assert(sets[d].points[i].y == grown.min_y);
            } else {
                assert(sets[a2].points[b2].y == grown.min_y);
            }
            if p.y > e.max_y {
                assert(sets[d].points[i].y == grown.max_y);
            } else {
                assert(sets[a3].points[b3].y == grown.max_y);
            }
        },
        None => {
            assert(sets[d].points[i].x == grown.min_x);
        },
    }
}

/// With one dataset done, the scan stands at the start of the next.
proof fn lemma_next_dataset(found: Option<Extents>, sets: Seq<DatasetView>, d: int)
    requires
        0 <= d < sets.len(),
        found_before(found, sets, d, sets[d].points.len() as int),
    ensures
        found_before(found, sets, d + 1, 0),
{
    let n = sets[d].points.len() as int;
    match found {
        Some(e) => {
            assert forall|a: int, b: int| is_before(sets, d + 1, 0, a, b) implies covers(
                e,
                #[trigger] sets[a].points[b],
            ) by {
                assert(is_before(sets, d, n, a, b));
            }
            let (a0, b0) = choose|a: int, b: int|
                is_before(sets, d, n, a, b) && (#[trigger] sets[a].points[b]).x == e.min_x;
            assert(is_before(sets, d + 1, 0, a0, b0));
            let (a1, b1) = choose|a: int, b: int|
                is_before(sets, d, n, a, b) && (#[trigger] sets[a].points[b]).x == e.max_x;
            assert(is_before(sets, d + 1, 0, a1, b1));
            let (a2, b2) = choose|a: int, b: int|
                is_before(sets, d, n, a, b) && (#[trigger] sets[a].points[b]).y == e.min_y;
            assert(is_before(sets, d + 1, 0, a2, b2));
            let (a3, b3) = choose|a: int, b: int|
                is_before(sets, d, n, a, b) && (#[trigger] sets[a].points[b]).y == e.max_y;
            assert(is_before(sets, d + 1, 0, a3, b3));
        },
        None => {
            let next = d + 1;
            assert forall|a: int, b: int| !is_before(sets, next, 0, a, b) by {
                assert(!is_before(sets, d, n, a, b));
            }
        },
    }
}

/// With all datasets done, the scan has seen every point.
proof fn lemma_scan_done(found: Option<Extents>, sets: Seq<DatasetView>)
    requires
        found_before(found, sets, sets.len() as int, 0),
    ensures
        match found {
            Some(e) => is_tight_box(e, sets),
            None => !has_points(sets),
        },
{
    let n = sets.len() as int;
    match found {
        Some(e) => {
            assert forall|a: int, b: int| is_place(sets, a, b) implies covers(
                e,
                #[trigger] sets[a].points[b],
            ) by {
                assert(is_before(sets, n, 0, a, b));
            }
            let (a0, b0) = choose|a: int, b: int|
                is_before(sets, n, 0, a, b) && (#[trigger] sets[a].points[b]).x == e.min_x;
            assert(is_place(sets, a0, b0));
            let (a1, b1) = choose|a: int, b: int|
                is_before(sets, n, 0, a, b) && (#[trigger] sets[a].points[b]).x == e.max_x;
            assert(is_place(sets, a1, b1));
            let (a2, b2) = choose|a: int, b: int|
                is_before(sets, n, 0, a, b) && (#[trigger] sets[a].points[b]).y == e.min_y;
            assert(is_place(sets, a2, b2));
            let (a3, b3) = choose|a: int, b: int|
                is_before(sets, n, 0, a, b) && (#[trigger] sets[a].points[b]).y == e.max_y;
            assert(is_place(sets, a3, b3));
        },
        None => {
            assert forall|a: int, b: int| !is_place(sets, a, b) by {
                assert(!is_before(sets, n, 0, a, b));
            }
        },
    }
}

/// The bounding box of all points of all the given datasets together, or
/// `None` where they hold no point at all: then there is nothing to draw.
pub fn extents(datasets: &[Dataset]) -> (r: Option<Extents>)
    ensures
        match r {
            Some(e) => is_tight_box(e, views_of(datasets@)),
            None => !has_points(views_of(datasets@)),
        },
{
    let ghost sets = views_of(datasets@);
    let mut found: Option<Extents> = None;
    let mut d: usize = 0;
    while d < datasets.len()
        invariant
            d <= datasets@.len(),
            sets == views_of(datasets@),
            found_before(found, sets, d as int, 0),
        decreases datasets@.len() - d,
    {
        let points = &datasets[d].points;
        let mut i: usize = 0;
        while i < points.len()
            invariant
                i <= points@.len(),
                d < datasets@.len(),
                points@ == sets[d as int].points,
                sets == views_of(datasets@),
                found_before(found, sets, d as int, i as int),
            decreases points@.len() - i,
        {
            let p = points[i];
            let grown = match found {
                None => Extents { min_x: p.x, max_x: p.x, min_y: p.y, max_y: p.y },
                Some(e) => Extents {
                    min_x: if p.x < e.min_x { p.x } else { e.min_x },
                    max_x: if p.x > e.max_x { p.x } else { e.max_x },
                    min_y: if p.y < e.min_y { p.y } else { e.min_y },
                    max_y: if p.y > e.max_y { p.y } else { e.max_y },
                },
            };
            proof {
                lemma_take_in(found, grown, sets, d as int, i as int);
            }
            found = Some(grown);
            i += 1;
        }
        proof {
            lemma_next_dataset(found, sets, d as int);
        }
        d += 1;
    }
    proof {
        lemma_scan_done(found, sets);
    }
    found
}

/// The linear map along one axis: `lo` goes to 0 and `hi` to `extent`, and
/// what falls between two pixels goes to the lower one. Where the axis has
/// no width (`hi` is not above `lo`) the scale factor is 1: the value is
/// passed through, measured from `lo`, one pixel for the number one.
pub open spec fn scale(value: int, lo: int, hi: int, extent: int) -> int {
    if lo < hi {
        ((value - lo) * extent) / (hi - lo)
    } else {
        (value - lo) / (UNITS_PER_ONE as int)
    }
}

/// Where `p` is drawn: across by its `x`, and up from the bottom edge by
/// its `y`, so that `y` is flipped on the way to the screen.
pub open spec fn project_x(p: Point, e: Extents, size: Size) -> int {
    scale(p.x as int, e.min_x as int, e.max_x as int, size.width as int)
}

pub open spec fn project_y(p: Point, e: Extents, size: Size) -> int {
    size.height - scale(p.y as int, e.min_y as int, e.max_y as int, size.height as int)
}

/// The quotient of a negative number, rounded down, from the quotient of
/// its positive counterpart, rounded up.
proof fn lemma_floor_of_negative(m: int, d: int)
    requires
        0 < m,
        0 < d,
    ensures
        (-m) / d == -((m + d - 1) / d),
{
    let q = (m + d - 1) / d;
    let r = (m + d - 1) % d;
    vstd::arithmetic::div_mod::lemma_fundamental_div_mod(m + d - 1, d);
    assert(m + d - 1 == d * q + r);
    assert(0 <= r < d) by {
        vstd::arithmetic::div_mod::lemma_mod_pos_bound(m + d - 1, d);
    }
    assert(-m == (-q) * d + (d - 1 - r)) by (nonlinear_arith)
        requires
            m + d - 1 == d * q + r,
    ;
    lemma_fundamental_div_mod_converse(-m, d, -q, d - 1 - r);
}

/// A difference of two coordinates times a side of the drawing area has
/// room in 97 bits.
proof fn lemma_product_bounded(offset: int, side: int)
    requires
        -0x1_0000_0000_0000_0000 <= offset <= 0x1_0000_0000_0000_0000,
        0 <= side <= 0x1_0000_0000,
    ensures
        -0x1_0000_0000_0000_0000_0000_0000 <= offset * side <= 0x1_0000_0000_0000_0000_0000_0000,
{
    assert(0x1_0000_0000_0000_0000 * 0x1_0000_0000 == 0x1_0000_0000_0000_0000_0000_0000int)
        by (nonlinear_arith);
    if offset >= 0 {
        lemma_mul_nonnegative(offset, side);
        vstd::arithmetic::mul::lemma_mul_upper_bound(
            offset,
            0x1_0000_0000_0000_0000,
            side,
            0x1_0000_0000,
        );
    } else {
        lemma_mul_nonnegative(-offset, side);
        vstd::arithmetic::mul::lemma_mul_upper_bound(
            -offset,
            0x1_0000_0000_0000_0000,
            side,
            0x1_0000_0000,
        );
        assert(offset * side == -((-offset) * side)) by (nonlinear_arith);
    }
}

/// A quotient by a positive number lies between zero and what is divided.
proof fn lemma_quotient_bounded(n: int, d: int)
    requires
        d >= 1,
    ensures
        n >= 0 ==> 0 <= n / d <= n,
        n < 0 ==> n <= n / d <= 0,
{
    vstd::arithmetic::div_mod::lemma_div_multiples_vanish(n, d);
    vstd::arithmetic::div_mod::lemma_div_multiples_vanish(0, d);
    assert(d * 0 == 0);
    if n >= 0 {
        lemma_div_is_ordered(0, n, d);
        assert(n <= d * n) by (nonlinear_arith)
            requires
                n >= 0,
                d >= 1,
        ;
        lemma_div_is_ordered(n, d * n, d);
    } else {
        lemma_div_is_ordered(n, 0, d);
        assert(d * n <= n) by (nonlinear_arith)
            requires
                n < 0,
                d >= 1,
        ;
        lemma_div_is_ordered(d * n, n, d);
    }
}

/// The image of any coordinate, against any extents, has room in 97 bits.
pub proof fn lemma_scale_bounded(value: i64, lo: i64, hi: i64, extent: u32)
    ensures
        -0x1_0000_0000_0000_0000_0000_0000 <= scale(
            value as int,
            lo as int,
            hi as int,
            extent as int,
        ) <= 0x1_0000_0000_0000_0000_0000_0000,
{
    if lo < hi {
        lemma_product_bounded(value - lo, extent as int);
        lemma_quotient_bounded((value - lo) * extent, hi - lo);
    } else {
        lemma_quotient_bounded(value - lo, UNITS_PER_ONE as int);
    }
}

/// The quotient of `n` by `d`, rounded down.
fn floor_div(n: i128, d: i128) -> (q: i128)
    requires
        0 < d <= 0x1_0000_0000_0000_0000,
        -0x1_0000_0000_0000_0000_0000_0000 <= n <= 0x1_0000_0000_0000_0000_0000_0000,
    ensures
        q == n / d,
{
    if n >= 0 {
        n / d
    } else {
        let up: i128 = -n;
        let q: i128 = (up + (d - 1)) / d;
        proof {
            lemma_floor_of_negative(up as int, d as int);
            lemma_quotient_bounded(n as int, d as int);
        }
        -q
    }
}

/// `scale`, computed.
fn scale_axis(value: i64, lo: i64, hi: i64, extent: u32) -> (r: i128)
    ensures
        r == scale(value as int, lo as int, hi as int, extent as int),
{
    let offset: i128 = value as i128 - lo as i128;
    if lo < hi {
        proof {
            lemma_product_bounded(offset as int, extent as int);
        }
        floor_div(offset * extent as i128, hi as i128 - lo as i128)
    } else {
        floor_div(offset, UNITS_PER_ONE as i128)
    }
}

/// Maps `p` from data space into a drawing area of the given size, against
/// the given extents. Every point has an image, also one outside the
/// extents and also where the extents have no width or no height.
pub fn project(p: Point, e: Extents, size: Size) -> (at: ScreenPoint)
    ensures
        at.x == project_x(p, e, size),
        at.y == project_y(p, e, size),
{
    let across = scale_axis(p.x, e.min_x, e.max_x, size.width);
    let up = scale_axis(p.y, e.min_y, e.max_y, size.height);
    proof {
        lemma_scale_bounded(p.y, e.min_y, e.max_y, size.height);
    }
    ScreenPoint { x: across, y: size.height as i128 - up }
}

/// A point inside the extents is drawn inside the area; where the extents
/// have no width the point is drawn on the left edge, and where they have
/// no height, on the bottom edge.
pub proof fn lemma_project_inside(p: Point, e: Extents, size: Size)
    requires
        covers(e, p),
    ensures
        0 <= project_x(p, e, size) <= size.width,
        0 <= project_y(p, e, size) <= size.height,
        e.min_x == e.max_x ==> project_x(p, e, size) == 0,
        e.min_y == e.max_y ==> project_y(p, e, size) == size.height,
{
    lemma_scale_inside(p.x as int, e.min_x as int, e.max_x as int, size.width as int);
    lemma_scale_inside(p.y as int, e.min_y as int, e.max_y as int, size.height as int);
}

/// Drawn against their bounding box, all points land inside the area,
/// whatever the datasets hold: also a single point, and also points that
/// share an `x` or a `y`.
pub proof fn lemma_all_points_inside(sets: Seq<DatasetView>, e: Extents, size: Size, d: int, i: int)
    requires
        is_tight_box(e, sets),
        is_place(sets, d, i),
    ensures
        0 <= project_x(sets[d].points[i], e, size) <= size.width,
        0 <= project_y(sets[d].points[i], e, size) <= size.height,
{
    assert(covers(e, sets[d].points[i]));
    lemma_project_inside(sets[d].points[i], e, size);
}

/// The borders of the extents are drawn on the borders of the area.
pub proof fn lemma_project_borders(e: Extents, size: Size)
    requires
        e.min_x < e.max_x,
        e.min_y < e.max_y,
    ensures
        project_x(Point { x: e.min_x, y: e.min_y }, e, size) == 0,
        project_y(Point { x: e.min_x, y: e.min_y }, e, size) == size.height,
        project_x(Point { x: e.max_x, y: e.max_y }, e, size) == size.width,
        project_y(Point { x: e.max_x, y: e.max_y }, e, size) == 0,
{
    let w = e.max_x - e.min_x;
    let h = e.max_y - e.min_y;
    assert((0 * size.width) / w == 0) by (nonlinear_arith)
        requires
            w > 0,
    ;
    assert((0 * size.height) / h == 0) by (nonlinear_arith)
        requires
            h > 0,
    ;
    vstd::arithmetic::div_mod::lemma_div_multiples_vanish(size.width as int, w);
    vstd::arithmetic::div_mod::lemma_div_multiples_vanish(size.height as int, h);
}

/// Along one axis, a value between `lo` and `hi` lands between 0 and
/// `extent`.
proof fn lemma_scale_inside(value: int, lo: int, hi: int, extent: int)
    requires
        lo <= value <= hi,
        0 <= extent,
    ensures
        0 <= scale(value, lo, hi, extent) <= extent,
        lo == hi ==> scale(value, lo, hi, extent) == 0,
{
    if lo < hi {
        let span = hi - lo;
        lemma_mul_nonnegative(value - lo, extent);
        lemma_mul_inequality(value - lo, span, extent);
        vstd::arithmetic::div_mod::lemma_div_pos_is_pos((value - lo) * extent, span);
        lemma_div_is_ordered((value - lo) * extent, span * extent, span);
        vstd::arithmetic::div_mod::lemma_div_multiples_vanish(extent, span);
    } else {
        lemma_quotient_bounded(0, UNITS_PER_ONE as int);
    }
}

} // verus!
