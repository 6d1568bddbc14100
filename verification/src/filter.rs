//! Thinning a dataset: the points that pass a test, in their old order.

use crate::model::{Dataset, DatasetView, Point};
use vstd::prelude::*;

verus! {

/// The points whose verdict is `true`, in their old order. There is one
/// verdict for each point.
pub open spec fn picked(points: Seq<Point>, verdicts: Seq<bool>) -> Seq<Point>
    decreases points.len(),
{
    if points.len() == 0 || verdicts.len() != points.len() {
        Seq::empty()
    } else {
        let rest = picked(points.drop_last(), verdicts.drop_last());
        if verdicts.last() {
            rest.push(points.last())
        } else {
            rest
        }
    }
}

/// Picking by the verdicts of a test is filtering by the test.
pub proof fn lemma_picked_is_filter(
    points: Seq<Point>,
    verdicts: Seq<bool>,
    test: spec_fn(Point) -> bool,
)
    requires
        verdicts.len() == points.len(),
        forall|i: int| 0 <= i < points.len() ==> verdicts[i] == test(#[trigger] points[i]),
    ensures
        picked(points, verdicts) == points.filter(test),
    decreases points.len(),
{
    reveal(Seq::filter);
    if points.len() > 0 {
        lemma_picked_is_filter(points.drop_last(), verdicts.drop_last(), test);
        assert(verdicts.last() == test(points[points.len() - 1]));
    }
}

/// What is picked is part of what was there, in the old order: the picked
/// points stand at rising places of `points`.
pub proof fn lemma_picked_keeps_order(points: Seq<Point>, verdicts: Seq<bool>) -> (places: Seq<int>)
    requires
        verdicts.len() == points.len(),
    ensures
        places.len() == picked(points, verdicts).len(),
        forall|k: int|
            0 <= k < places.len() ==> 0 <= #[trigger] places[k] < points.len() && verdicts[places[k]]
                && picked(points, verdicts)[k] == points[places[k]],
        forall|j: int, k: int| 0 <= j < k < places.len() ==> places[j] < places[k],
        forall|i: int|
            0 <= i < points.len() && #[trigger] verdicts[i] ==> exists|k: int|
                0 <= k < places.len() && places[k] == i,
    decreases points.len(),
{
    if points.len() == 0 {
        Seq::empty()
    } else {
        let before = lemma_picked_keeps_order(points.drop_last(), verdicts.drop_last());
        let last = points.len() - 1;
        if verdicts.last() {
            let places = before.push(last);
            assert forall|i: int| 0 <= i < points.len() && #[trigger] verdicts[i] implies exists|
                k: int,
            | 0 <= k < places.len() && places[k] == i by {
                if i < last {
                    assert(verdicts.drop_last()[i]);
                    let k = choose|k: int| 0 <= k < before.len() && before[k] == i;
                    assert(places[k] == i);
                } else {
                    assert(places[before.len() as int] == i);
                }
            }
            places
        } else {
            assert forall|i: int| 0 <= i < points.len() && #[trigger] verdicts[i] implies exists|
                k: int,
            | 0 <= k < before.len() && before[k] == i by {
                assert(verdicts.drop_last()[i]);
            }
            before
        }
    }
}

/// A new dataset of the same name with the points that `keep` accepts, in
/// their old order. The given dataset stays as it is. `keep` is asked once
/// for each point, in order.
pub fn filter<F: Fn(Point) -> bool>(dataset: &Dataset, keep: F) -> (out: Dataset)
    requires
        forall|i: int|
            0 <= i < dataset@.points.len() ==> call_requires(keep, (#[trigger] dataset@.points[i],)),
    ensures
        out@.name == dataset@.name,
        exists|verdicts: Seq<bool>|
            {
                &&& verdicts.len() == dataset@.points.len()
                &&& forall|i: int|
                    0 <= i < verdicts.len() ==> call_ensures(
                        keep,
                        (dataset@.points[i],),
                        #[trigger] verdicts[i],
                    )
                &&& out@.points == #[trigger] picked(dataset@.points, verdicts)
            },
{
    let ghost mut verdicts: Seq<bool> = Seq::empty();
    let mut kept: Vec<Point> = Vec::new();
    let mut i: usize = 0;
    assert(dataset@.points.take(0) =~= Seq::<Point>::empty());
    while i < dataset.points.len()
        invariant
            i <= dataset@.points.len(),
            verdicts.len() == i,
            forall|k: int|
                0 <= k < i ==> call_ensures(keep, (dataset@.points[k],), #[trigger] verdicts[k]),
            kept@ == picked(dataset@.points.take(i as int), verdicts),
            forall|k: int|
                0 <= k < dataset@.points.len() ==> call_requires(
                    keep,
                    (#[trigger] dataset@.points[k],),
                ),
        decreases dataset@.points.len() - i,
    {
        let p = dataset.points[i];
        let passes = keep(p);
        proof {
            let grown = verdicts.push(passes);
            assert(dataset@.points.take(i + 1).drop_last() =~= dataset@.points.take(i as int));
            assert(grown.drop_last() =~= verdicts);
            verdicts = grown;
        }
        if passes {
            kept.push(p);
        }
        i += 1;
    }
    assert(dataset@.points.take(dataset@.points.len() as int) =~= dataset@.points);
    Dataset { name: dataset.name.clone(), points: kept }
}

/// The points of `points` that lie at or above `threshold`.
pub open spec fn at_or_above(points: Seq<Point>, threshold: i64) -> Seq<Point> {
    points.filter(|p: Point| p.y >= threshold)
}

/// A new dataset of the same name with the points whose `y` is at least
/// `threshold`, in their old order.
pub fn filter_at_or_above(dataset: &Dataset, threshold: i64) -> (out: Dataset)
    ensures
        out@ == (DatasetView {
            name: dataset@.name,
            points: at_or_above(dataset@.points, threshold),
        }),
{
    let keep = |p: Point| -> (b: bool)
        ensures
            b == (p.y >= threshold),
        { p.y >= threshold };
    let out = filter(dataset, keep);
    proof {
        let verdicts = choose|verdicts: Seq<bool>|
            {
                &&& verdicts.len() == dataset@.points.len()
                &&& forall|i: int|
                    0 <= i < verdicts.len() ==> call_ensures(
                        keep,
                        (dataset@.points[i],),
                        #[trigger] verdicts[i],
                    )
                &&& out@.points == #[trigger] picked(dataset@.points, verdicts)
            };
        let test = |p: Point| p.y >= threshold;
        assert forall|i: int| 0 <= i < dataset@.points.len() implies verdicts[i] == test(
            #[trigger] dataset@.points[i],
        ) by {
            assert(call_ensures(keep, (dataset@.points[i],), verdicts[i]));
        }
        lemma_picked_is_filter(dataset@.points, verdicts, test);
    }
    out
}

} // verus!
