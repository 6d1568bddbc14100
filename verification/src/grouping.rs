//! The grouping rule and what follows from it: what comes in under one
//! name ends up in one dataset, in the order in which it came, and the
//! datasets stand in the order in which their names first appeared.

use crate::model::{
    absorb, distinct_names, has_name, place_of, views_of, Dataset, DatasetCollection, DatasetView,
    Point, Row, RowView,
};
use vstd::prelude::*;

verus! {

/// The datasets that a run of arrivals leaves behind: each arrival, a name
/// with some points, is taken in by the grouping rule, in order.
pub open spec fn gathered(arrivals: Seq<DatasetView>) -> Seq<DatasetView>
    decreases arrivals.len(),
{
    if arrivals.len() == 0 {
        Seq::empty()
    } else {
        absorb(gathered(arrivals.drop_last()), arrivals.last().name, arrivals.last().points)
    }
}

/// The rows of one dataset: one for each point, in order.
pub open spec fn rows_of_one(d: DatasetView) -> Seq<RowView> {
    Seq::new(d.points.len(), |i: int| RowView { name: d.name, point: d.points[i] })
}

/// The table of some datasets: the rows of the first, then those of the
/// second, and so on.
pub open spec fn rows_of(sets: Seq<DatasetView>) -> Seq<RowView>
    decreases sets.len(),
{
    if sets.len() == 0 {
        Seq::empty()
    } else {
        rows_of(sets.drop_last()) + rows_of_one(sets.last())
    }
}

/// A row as an arrival: its one point under its name.
pub open spec fn arrival_of(row: RowView) -> DatasetView {
    DatasetView { name: row.name, points: seq![row.point] }
}

/// The arrivals that a table stands for: each row on its own.
pub open spec fn arrivals_of(rows: Seq<RowView>) -> Seq<DatasetView> {
    rows.map_values(|row: RowView| arrival_of(row))
}

/// The datasets that a table reads as: its rows, taken in one by one.
pub open spec fn grouped(rows: Seq<RowView>) -> Seq<DatasetView> {
    gathered(arrivals_of(rows))
}

/// The views of a run of rows, in order.
pub open spec fn row_views(rows: Seq<Row>) -> Seq<RowView> {
    Seq::new(rows.len(), |i: int| rows[i]@)
}

/// The points that came in under `name`, in the order in which they came.
pub open spec fn stream(arrivals: Seq<DatasetView>, name: Seq<char>) -> Seq<Point>
    decreases arrivals.len(),
{
    if arrivals.len() == 0 {
        Seq::empty()
    } else if arrivals.last().name == name {
        stream(arrivals.drop_last(), name) + arrivals.last().points
    } else {
        stream(arrivals.drop_last(), name)
    }
}

/// The points of the dataset called `name`; none where there is no such
/// dataset.
pub open spec fn points_named(sets: Seq<DatasetView>, name: Seq<char>) -> Seq<Point> {
    if has_name(sets, name) {
        sets[place_of(sets, name)].points
    } else {
        Seq::empty()
    }
}

/// Some arrival came in under `name`.
pub open spec fn arrived(arrivals: Seq<DatasetView>, name: Seq<char>) -> bool {
    exists|i: int| 0 <= i < arrivals.len() && arrivals[i].name == name
}

/// Where the names are distinct, a dataset is found by its name.
pub proof fn lemma_place_of(sets: Seq<DatasetView>, i: int)
    requires
        distinct_names(sets),
        0 <= i < sets.len(),
    ensures
        has_name(sets, sets[i].name),
        place_of(sets, sets[i].name) == i,
{
    let j = place_of(sets, sets[i].name);
    assert(0 <= j < sets.len() && sets[j].name == sets[i].name);
    if j < i {
        assert(sets[j].name != sets[i].name);
    } else if i < j {
        assert(sets[i].name != sets[j].name);
    }
}

/// What the grouping rule does to the names and to the points under each
/// name.
pub proof fn lemma_absorb(sets: Seq<DatasetView>, name: Seq<char>, points: Seq<Point>)
    requires
        distinct_names(sets),
    ensures
        distinct_names(absorb(sets, name, points)),
        has_name(absorb(sets, name, points), name),
        forall|other: Seq<char>|
            other != name ==> (#[trigger] has_name(absorb(sets, name, points), other)
                <==> has_name(sets, other)),
        points_named(absorb(sets, name, points), name) == points_named(sets, name) + points,
        forall|other: Seq<char>|
            other != name ==> #[trigger] points_named(absorb(sets, name, points), other)
                == points_named(sets, other),
        has_name(sets, name) ==> absorb(sets, name, points).len() == sets.len(),
        !has_name(sets, name) ==> absorb(sets, name, points).len() == sets.len() + 1,
        forall|i: int|
            0 <= i < sets.len() ==> (#[trigger] absorb(sets, name, points)[i]).name
                == sets[i].name,
{
    let after = absorb(sets, name, points);
    if has_name(sets, name) {
        let i = place_of(sets, name);
        assert(after[i].name == name);
        lemma_place_of(after, i);
        assert forall|other: Seq<char>| other != name implies (#[trigger] has_name(after, other)
            <==> has_name(sets, other)) by {
            if has_name(sets, other) {
                let j = place_of(sets, other);
                assert(after[j].name == other);
            }
            if has_name(after, other) {
                let j = place_of(after, other);
                assert(sets[j].name == other);
            }
        }
        assert forall|other: Seq<char>| other != name implies #[trigger] points_named(
            after,
            other,
        ) == points_named(sets, other) by {
            if has_name(sets, other) {
                let j = place_of(sets, other);
                assert(after[j].name == other);
                lemma_place_of(sets, j);
                lemma_place_of(after, j);
            }
            if has_name(after, other) {
                let j = place_of(after, other);
                assert(sets[j].name == other);
            }
        }
    } else {
        let i = sets.len() as int;
        assert(after[i].name == name);
        assert(distinct_names(after)) by {
            assert forall|a: int, b: int| 0 <= a < b < after.len() implies after[a].name
                != after[b].name by {
                if b == i {
                    if after[a].name == name {
                        assert(sets[a].name == name);
                    }
                }
            }
        }
        lemma_place_of(after, i);
        assert(points_named(sets, name) + points =~= points);
        assert forall|other: Seq<char>| other != name implies (#[trigger] has_name(after, other)
            <==> has_name(sets, other)) by {
            if has_name(sets, other) {
                let j = place_of(sets, other);
                assert(after[j].name == other);
            }
            if has_name(after, other) {
                let j = place_of(after, other);
                assert(sets[j].name == other);
            }
        }
        assert forall|other: Seq<char>| other != name implies #[trigger] points_named(
            after,
            other,
        ) == points_named(sets, other) by {
            if has_name(sets, other) {
                let j = place_of(sets, other);
                assert(after[j].name == other);
                lemma_place_of(sets, j);
                lemma_place_of(after, j);
            }
            if has_name(after, other) {
                let j = place_of(after, other);
                assert(j != i);
                assert(sets[j].name == other);
            }
        }
    }
}

/// Gathering leaves distinct names behind; there is a dataset for a name
/// if and only if something came in under it; and the dataset of a name
/// holds what came in under it, in the order in which it came.
pub proof fn lemma_gathered(arrivals: Seq<DatasetView>)
    ensures
        distinct_names(gathered(arrivals)),
        forall|name: Seq<char>| #[trigger]
            has_name(gathered(arrivals), name) <==> arrived(arrivals, name),
        forall|name: Seq<char>| #[trigger]
            points_named(gathered(arrivals), name) == stream(arrivals, name),
    decreases arrivals.len(),
{
    if arrivals.len() == 0 {
        assert forall|name: Seq<char>| #[trigger]
            points_named(gathered(arrivals), name) == stream(arrivals, name) by {}
    } else {
        let before = arrivals.drop_last();
        let last = arrivals.last();
        lemma_gathered(before);
        lemma_absorb(gathered(before), last.name, last.points);
        assert forall|name: Seq<char>| #[trigger]
            has_name(gathered(arrivals), name) <==> arrived(arrivals, name) by {
            if arrived(arrivals, name) {
                let i = choose|i: int| 0 <= i < arrivals.len() && arrivals[i].name == name;
                if i < before.len() {
                    assert(before[i].name == name);
                    assert(arrived(before, name));
                }
            }
            if arrived(before, name) {
                let i = choose|i: int| 0 <= i < before.len() && before[i].name == name;
                assert(arrivals[i].name == name);
            }
            if name == last.name {
                assert(arrivals[arrivals.len() - 1].name == name);
            } else {
                assert(has_name(gathered(arrivals), name) <==> has_name(gathered(before), name));
                assert(has_name(gathered(before), name) <==> arrived(before, name));
            }
        }
        assert forall|name: Seq<char>| #[trigger]
            points_named(gathered(arrivals), name) == stream(arrivals, name) by {
            assert(points_named(gathered(before), name) == stream(before, name));
            if name != last.name {
                assert(points_named(gathered(arrivals), name) == points_named(
                    gathered(before),
                    name,
                ));
            }
        }
    }
}

/// The datasets stand in the order in which their names first came in: of
/// two datasets, the one that stands first has an arrival that came before
/// every arrival of the other.
pub proof fn lemma_first_seen_order(arrivals: Seq<DatasetView>, a: int, b: int) -> (first: int)
    requires
        0 <= a < b < gathered(arrivals).len(),
    ensures
        0 <= first < arrivals.len(),
        arrivals[first].name == gathered(arrivals)[a].name,
        forall|j: int|
            0 <= j < arrivals.len() && (#[trigger] arrivals[j]).name == gathered(arrivals)[b].name
                ==> first < j,
    decreases arrivals.len(),
{
    let before = arrivals.drop_last();
    let last = arrivals.last();
    let sets = gathered(before);
    let after = gathered(arrivals);
    lemma_gathered(before);
    lemma_absorb(sets, last.name, last.points);
    assert(after[a].name == sets[a].name);
    if b < sets.len() {
        assert(after[b].name == sets[b].name);
        let first = lemma_first_seen_order(before, a, b);
        assert forall|j: int|
            0 <= j < arrivals.len() && (#[trigger] arrivals[j]).name == after[b].name implies first
            < j by {
            if j < before.len() {
                assert(before[j].name == after[b].name);
            }
        }
        first
    } else {
        assert(has_name(sets, sets[a].name));
        assert(arrived(before, sets[a].name));
        let first = choose|i: int| 0 <= i < before.len() && before[i].name == sets[a].name;
        assert(!has_name(sets, last.name));
        assert(after[b].name == last.name);
        assert forall|j: int|
            0 <= j < arrivals.len() && (#[trigger] arrivals[j]).name == after[b].name implies first
            < j by {
            if j < before.len() {
                assert(before[j].name == last.name);
                assert(arrived(before, last.name));
            }
        }
        first
    }
}

/// Datasets with distinct names, taken in one after the other, are left
/// as they were: what was written out dataset by dataset reads back
/// exactly.
pub proof fn lemma_gathered_exact(sets: Seq<DatasetView>)
    requires
        distinct_names(sets),
    ensures
        gathered(sets) == sets,
    decreases sets.len(),
{
    if sets.len() == 0 {
        assert(gathered(sets) =~= sets);
    } else {
        let before = sets.drop_last();
        let last = sets.last();
        lemma_gathered_exact(before);
        if has_name(before, last.name) {
            let i = place_of(before, last.name);
            assert(sets[i].name == sets[sets.len() - 1].name);
        }
        assert(before.push(last) =~= sets);
    }
}

/// The rows of a table that carry `name`, in order.
pub open spec fn rows_named(rows: Seq<RowView>, name: Seq<char>) -> Seq<RowView> {
    rows.filter(|row: RowView| row.name == name)
}

/// No dataset is without points.
pub open spec fn none_empty(sets: Seq<DatasetView>) -> bool {
    forall|i: int| 0 <= i < sets.len() ==> (#[trigger] sets[i]).points.len() > 0
}

/// What is left when `arrivals` are taken in, one by one, by datasets that
/// are there already.
pub open spec fn absorb_all(sets: Seq<DatasetView>, arrivals: Seq<DatasetView>) -> Seq<
    DatasetView,
>
    decreases arrivals.len(),
{
    if arrivals.len() == 0 {
        sets
    } else {
        absorb(absorb_all(sets, arrivals.drop_last()), arrivals.last().name, arrivals.last().points)
    }
}

/// Gathering two runs of arrivals is gathering the first and taking in the
/// second.
proof fn lemma_gathered_in_two(first: Seq<DatasetView>, second: Seq<DatasetView>)
    ensures
        gathered(first + second) == absorb_all(gathered(first), second),
    decreases second.len(),
{
    if second.len() == 0 {
        assert(first + second =~= first);
    } else {
        assert((first + second).drop_last() =~= first + second.drop_last());
        assert((first + second).last() == second.last());
        lemma_gathered_in_two(first, second.drop_last());
    }
}

/// The rows of a dataset with a new name, taken in one by one, rebuild the
/// dataset behind all others.
proof fn lemma_absorb_rows(sets: Seq<DatasetView>, d: DatasetView, count: int)
    requires
        distinct_names(sets),
        !has_name(sets, d.name),
        1 <= count <= d.points.len(),
    ensures
        absorb_all(sets, arrivals_of(rows_of_one(d).take(count))) == sets.push(
            DatasetView { name: d.name, points: d.points.take(count) },
        ),
    decreases count,
{
    let rows = rows_of_one(d).take(count);
    let arrivals = arrivals_of(rows);
    let last = arrivals.last();
    assert(last == arrival_of(rows_of_one(d)[count - 1]));
    assert(arrivals.drop_last() =~= arrivals_of(rows_of_one(d).take(count - 1)));
    if count == 1 {
        assert(arrivals.drop_last() =~= Seq::<DatasetView>::empty());
        assert(absorb_all(sets, arrivals.drop_last()) == sets);
        assert(d.points.take(1) =~= seq![d.points[0]]);
    } else {
        lemma_absorb_rows(sets, d, count - 1);
        let partial = sets.push(DatasetView { name: d.name, points: d.points.take(count - 1) });
        assert(partial[sets.len() as int].name == d.name);
        assert(distinct_names(partial)) by {
            assert forall|a: int, b: int| 0 <= a < b < partial.len() implies partial[a].name
                != partial[b].name by {
                if b == sets.len() {
                    if partial[a].name == d.name {
                        assert(sets[a].name == d.name);
                    }
                }
            }
        }
        lemma_place_of(partial, sets.len() as int);
        assert(d.points.take(count - 1) + seq![d.points[count - 1]] =~= d.points.take(count));
        assert(absorb(partial, d.name, seq![d.points[count - 1]]) =~= sets.push(
            DatasetView { name: d.name, points: d.points.take(count) },
        ));
    }
}

/// The table of arrivals is the table of the first followed by the table
/// of the rest.
proof fn lemma_arrivals_in_two(first: Seq<RowView>, second: Seq<RowView>)
    ensures
        arrivals_of(first + second) == arrivals_of(first) + arrivals_of(second),
{
    assert(arrivals_of(first + second) =~= arrivals_of(first) + arrivals_of(second));
}

/// A table that was written out from datasets reads back as these
/// datasets, provided that their names are distinct and none of them is
/// empty: a dataset without points leaves no row behind.
pub proof fn lemma_table_reads_back(sets: Seq<DatasetView>)
    requires
        distinct_names(sets),
        none_empty(sets),
    ensures
        grouped(rows_of(sets)) == sets,
    decreases sets.len(),
{
    if sets.len() == 0 {
        assert(arrivals_of(rows_of(sets)) =~= Seq::<DatasetView>::empty());
        assert(grouped(rows_of(sets)) =~= sets);
    } else {
        let before = sets.drop_last();
        let last = sets.last();
        lemma_table_reads_back(before);
        lemma_arrivals_in_two(rows_of(before), rows_of_one(last));
        lemma_gathered_in_two(arrivals_of(rows_of(before)), arrivals_of(rows_of_one(last)));
        if has_name(before, last.name) {
            let i = place_of(before, last.name);
            assert(sets[i].name == sets[sets.len() - 1].name);
        }
        assert(sets[sets.len() - 1].points.len() > 0);
        lemma_absorb_rows(before, last, last.points.len() as int);
        assert(rows_of_one(last).take(last.points.len() as int) =~= rows_of_one(last));
        assert(last.points.take(last.points.len() as int) =~= last.points);
        assert(before.push(last) =~= sets);
    }
}

/// The rows that a table of datasets holds under one name are the points
/// of the dataset of that name, each under the name.
pub proof fn lemma_rows_of_named(sets: Seq<DatasetView>, name: Seq<char>)
    requires
        distinct_names(sets),
    ensures
        rows_named(rows_of(sets), name) == rows_of_one(
            DatasetView { name, points: points_named(sets, name) },
        ),
    decreases sets.len(),
{
    let test = |row: RowView| row.name == name;
    reveal(Seq::filter);
    if sets.len() == 0 {
        assert(rows_named(rows_of(sets), name) =~= rows_of_one(
            DatasetView { name, points: points_named(sets, name) },
        ));
    } else {
        let before = sets.drop_last();
        let last = sets.last();
        lemma_rows_of_named(before, name);
        Seq::filter_distributes_over_add(rows_of(before), rows_of_one(last), test);
        lemma_rows_of_one_named(last, name);
        let n = sets.len() as int;
        if last.name == name {
            lemma_place_of(sets, n - 1);
            if has_name(before, name) {
                let i = place_of(before, name);
                assert(sets[i].name == sets[n - 1].name);
            }
            assert(points_named(before, name) =~= Seq::<Point>::empty());
            assert(rows_named(rows_of(sets), name) =~= rows_of_one(
                DatasetView { name, points: points_named(sets, name) },
            ));
        } else {
            if has_name(before, name) {
                let i = place_of(before, name);
                assert(sets[i].name == name);
                lemma_place_of(before, i);
                lemma_place_of(sets, i);
            }
            if has_name(sets, name) {
                let i = place_of(sets, name);
                assert(before[i].name == name);
            }
            assert(points_named(sets, name) == points_named(before, name));
            assert(rows_named(rows_of(sets), name) =~= rows_of_one(
                DatasetView { name, points: points_named(sets, name) },
            ));
        }
    }
}

/// The rows of one dataset carry its name: all of them, and under another
/// name none.
proof fn lemma_rows_of_one_named(d: DatasetView, name: Seq<char>)
    ensures
        rows_named(rows_of_one(d), name) == if d.name == name {
            rows_of_one(d)
        } else {
            Seq::empty()
        },
{
    lemma_rows_of_one_prefix(d, name, d.points.len() as int);
    assert(rows_of_one(d).take(d.points.len() as int) =~= rows_of_one(d));
}

proof fn lemma_rows_of_one_prefix(d: DatasetView, name: Seq<char>, count: int)
    requires
        0 <= count <= d.points.len(),
    ensures
        rows_named(rows_of_one(d).take(count), name) == if d.name == name {
            rows_of_one(d).take(count)
        } else {
            Seq::empty()
        },
    decreases count,
{
    reveal(Seq::filter);
    let test = |row: RowView| row.name == name;
    if count == 0 {
        assert(rows_of_one(d).take(0) =~= Seq::<RowView>::empty());
    } else {
        lemma_rows_of_one_prefix(d, name, count - 1);
        assert(rows_of_one(d).take(count).drop_last() =~= rows_of_one(d).take(count - 1));
        assert(rows_of_one(d).take(count).last().name == d.name);
        assert(rows_of_one(d).take(count - 1).push(rows_of_one(d)[count - 1]) =~= rows_of_one(
            d,
        ).take(count));
    }
}

/// What came in under a name, row by row, is the rows of that name.
proof fn lemma_stream_of_rows(rows: Seq<RowView>, name: Seq<char>)
    ensures
        rows_of_one(DatasetView { name, points: stream(arrivals_of(rows), name) }) == rows_named(
            rows,
            name,
        ),
    decreases rows.len(),
{
    reveal(Seq::filter);
    let arrivals = arrivals_of(rows);
    if rows.len() == 0 {
        assert(rows_of_one(DatasetView { name, points: stream(arrivals, name) }) =~= rows_named(
            rows,
            name,
        ));
    } else {
        lemma_stream_of_rows(rows.drop_last(), name);
        assert(arrivals.drop_last() =~= arrivals_of(rows.drop_last()));
        assert(arrivals.last() == arrival_of(rows.last()));
        if rows.last().name == name {
            assert(rows.last() == (RowView { name, point: rows.last().point }));
        }
        assert(rows_of_one(DatasetView { name, points: stream(arrivals, name) }) =~= rows_named(
            rows,
            name,
        ));
    }
}

/// Reading a table and writing it out again keeps, under each name, the
/// same rows in the same order; only the order of the names may change, to
/// the order in which they first appeared.
pub proof fn lemma_round_trip_by_name(rows: Seq<RowView>, name: Seq<char>)
    ensures
        rows_named(rows_of(grouped(rows)), name) == rows_named(rows, name),
{
    lemma_gathered(arrivals_of(rows));
    lemma_rows_of_named(grouped(rows), name);
    assert(points_named(grouped(rows), name) == stream(arrivals_of(rows), name));
    lemma_stream_of_rows(rows, name);
}

/// The table of a single dataset is the rows of that dataset.
proof fn lemma_rows_of_single(sets: Seq<DatasetView>)
    requires
        sets.len() == 1,
    ensures
        rows_of(sets) == rows_of_one(sets[0]),
{
    assert(sets.drop_last() =~= Seq::<DatasetView>::empty());
    assert(rows_of(sets.drop_last()) =~= Seq::<RowView>::empty());
    assert(rows_of(sets) =~= rows_of_one(sets[0]));
}

/// A table whose rows all carry one name reads as one dataset, and is
/// written out again row for row.
pub proof fn lemma_round_trip_one_name(rows: Seq<RowView>, name: Seq<char>)
    requires
        forall|i: int| 0 <= i < rows.len() ==> (#[trigger] rows[i]).name == name,
    ensures
        rows_of(grouped(rows)) == rows,
        rows.len() > 0 ==> grouped(rows).len() == 1,
        rows.len() == 0 ==> grouped(rows).len() == 0,
    decreases rows.len(),
{
    let arrivals = arrivals_of(rows);
    if rows.len() == 0 {
        assert(grouped(rows) =~= Seq::<DatasetView>::empty());
        assert(rows_of(grouped(rows)) =~= rows);
    } else {
        let before = rows.drop_last();
        lemma_round_trip_one_name(before, name);
        lemma_gathered(arrivals_of(before));
        assert(arrivals.drop_last() =~= arrivals_of(before));
        assert(arrivals.last() == arrival_of(rows.last()));
        assert(rows[rows.len() - 1].name == name);
        let sets = grouped(before);
        let after = grouped(rows);
        assert(after == absorb(sets, name, seq![rows.last().point]));
        if before.len() == 0 {
            assert(after =~= seq![arrival_of(rows.last())]);
            lemma_rows_of_single(after);
            assert(rows_of(after) =~= rows);
        } else {
            assert(before[0].name == name);
            assert(arrivals_of(before)[0].name == name);
            assert(arrived(arrivals_of(before), name));
            assert(has_name(sets, name));
            assert(place_of(sets, name) == 0);
            lemma_rows_of_single(sets);
            lemma_rows_of_single(after);
            assert(rows_of_one(after[0]) =~= rows_of_one(sets[0]).push(rows.last()));
            assert(before.push(rows.last()) =~= rows);
        }
    }
}

/// Where every item of a sequence is read as something, reading the
/// sequence and passing over what is nothing passes over no item.
pub proof fn lemma_nothing_passed_over<A, B>(items: Seq<A>, read: spec_fn(A) -> Option<B>)
    requires
        forall|i: int| 0 <= i < items.len() ==> read(#[trigger] items[i]) is Some,
    ensures
        items.filter_map(read) == Seq::new(items.len(), |i: int| read(items[i])->0),
    decreases items.len(),
{
    if items.len() == 0 {
        assert(items.filter_map(read) =~= Seq::new(items.len(), |i: int| read(items[i])->0));
    } else {
        let front = items.drop_last();
        assert forall|i: int| 0 <= i < front.len() implies read(#[trigger] front[i]) is Some by {
            assert(front[i] == items[i]);
        }
        lemma_nothing_passed_over(front, read);
        assert(read(items[items.len() - 1]) is Some);
        assert(items.filter_map(read) =~= Seq::new(items.len(), |i: int| read(items[i])->0));
    }
}

/// What is read from a sequence, passing over what is nothing, was read
/// from one of its items.
pub proof fn lemma_read_from_items<A, B>(items: Seq<A>, read: spec_fn(A) -> Option<B>, k: int) -> (i:
    int)
    requires
        0 <= k < items.filter_map(read).len(),
    ensures
        0 <= i < items.len(),
        read(items[i]) == Some(items.filter_map(read)[k]),
    decreases items.len(),
{
    let front = items.drop_last();
    match read(items.last()) {
        Some(found) => {
            if k < front.filter_map(read).len() {
                lemma_read_from_items(front, read, k)
            } else {
                items.len() - 1
            }
        },
        None => lemma_read_from_items(front, read, k),
    }
}

/// Takes in arrivals, each a name with some points, by the grouping rule.
pub fn gather(arrivals: &[Dataset]) -> (c: DatasetCollection)
    ensures
        c.wf(),
        c.selection() is None,
        c@ == gathered(views_of(arrivals@)),
{
    let ghost all = views_of(arrivals@);
    let mut c = DatasetCollection::new();
    let mut i: usize = 0;
    assert(all.take(0) =~= Seq::<DatasetView>::empty());
    while i < arrivals.len()
        invariant
            i <= arrivals@.len(),
            all == views_of(arrivals@),
            c.wf(),
            c.selection() is None,
            c@ == gathered(all.take(i as int)),
        decreases arrivals@.len() - i,
    {
        proof {
            assert(all.take(i + 1).drop_last() =~= all.take(i as int));
            assert(all.take(i + 1).last() == arrivals@[i as int]@);
        }
        c.extend(arrivals[i].name.as_str(), arrivals[i].points.as_slice());
        i += 1;
    }
    assert(all.take(arrivals@.len() as int) =~= all);
    c
}

/// Reads a table: takes in its rows, one by one, by the grouping rule.
pub fn group(rows: &[Row]) -> (c: DatasetCollection)
    ensures
        c.wf(),
        c.selection() is None,
        c@ == grouped(row_views(rows@)),
{
    let ghost all = row_views(rows@);
    let mut c = DatasetCollection::new();
    let mut i: usize = 0;
    assert(arrivals_of(all.take(0)) =~= Seq::<DatasetView>::empty());
    while i < rows.len()
        invariant
            i <= rows@.len(),
            all == row_views(rows@),
            c.wf(),
            c.selection() is None,
            c@ == grouped(all.take(i as int)),
        decreases rows@.len() - i,
    {
        proof {
            assert(arrivals_of(all.take(i + 1)).drop_last() =~= arrivals_of(all.take(i as int)));
            assert(arrivals_of(all.take(i + 1)).last() == arrival_of(rows@[i as int]@));
        }
        c.append(rows[i].name.as_str(), rows[i].point);
        i += 1;
    }
    assert(all.take(rows@.len() as int) =~= all);
    c
}

/// Writes datasets out as a table: the rows of the first, then those of
/// the second, and so on.
pub fn table(datasets: &[Dataset]) -> (rows: Vec<Row>)
    ensures
        row_views(rows@) == rows_of(views_of(datasets@)),
{
    let ghost sets = views_of(datasets@);
    let mut rows: Vec<Row> = Vec::new();
    let mut d: usize = 0;
    assert(sets.take(0) =~= Seq::<DatasetView>::empty());
    assert(row_views(rows@) =~= rows_of(sets.take(0)));
    while d < datasets.len()
        invariant
            d <= datasets@.len(),
            sets == views_of(datasets@),
            row_views(rows@) == rows_of(sets.take(d as int)),
        decreases datasets@.len() - d,
    {
        let dataset = &datasets[d];
        let ghost done = rows_of(sets.take(d as int));
        let mut i: usize = 0;
        assert(row_views(rows@) =~= done + rows_of_one(dataset@).take(0));
        while i < dataset.points.len()
            invariant
                i <= dataset@.points.len(),
                row_views(rows@) == done + rows_of_one(dataset@).take(i as int),
            decreases dataset@.points.len() - i,
        {
            let ghost so_far = row_views(rows@);
            let row = Row { name: dataset.name.clone(), point: dataset.points[i] };
            assert(row@ == rows_of_one(dataset@)[i as int]);
            rows.push(row);
            i += 1;
            assert(row_views(rows@) =~= so_far.push(row@));
            assert(rows_of_one(dataset@).take(i as int) =~= rows_of_one(dataset@).take(i - 1).push(
                row@,
            ));
        }
        proof {
            assert(rows_of_one(dataset@).take(dataset@.points.len() as int) =~= rows_of_one(
                dataset@,
            ));
            assert(sets.take(d + 1).drop_last() =~= sets.take(d as int));
            assert(sets.take(d + 1).last() == dataset@);
        }
        d += 1;
    }
    assert(sets.take(datasets@.len() as int) =~= sets);
    rows
}

} // verus!
