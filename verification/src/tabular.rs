//! Tabular sources: rows of comma-separated fields, each row a point, or a
//! point behind the name of its dataset. A row that is no such thing is
//! passed over.

use crate::decimal::{coordinate_of, parse_coordinate};
use crate::grouping::{
    group, grouped, lemma_gathered, lemma_nothing_passed_over, lemma_read_from_items,
    lemma_round_trip_by_name, lemma_round_trip_one_name, row_views, rows_named, rows_of,
};
use crate::model::distinct_names;
use crate::model::{DatasetCollection, Point, Row, RowView};
use vstd::prelude::*;

verus! {

/// The name of the one dataset of a table that names none.
pub const DEFAULT_NAME: &'static str = "data";

/// How a table is laid out.
#[derive(Clone, Copy, Debug, PartialEq, Eq, Structural)]
pub struct TabularLayout {
    /// The first record is a heading and holds no point.
    pub has_header: bool,
    /// A row holds a name, `x` and `y`; without this, `x` and `y` only.
    pub grouped: bool,
}

/// The records that the `csv` crate reads from `source`, in order: the
/// fields of each record, or `None` for a record that is not valid UTF-8.
/// With `has_header` the first record is left out.
pub uninterp spec fn csv_records(source: Seq<u8>, has_header: bool) -> Seq<Option<Seq<Seq<char>>>>;

/// Reads `source` with `csv::ReaderBuilder` (comma-separated, records of
/// any length) and `csv::Reader::records`. The contract says that the
/// result is a function of the source and of `has_header`, and names it.
#[verifier::external_body]
fn read_records(source: &[u8], has_header: bool) -> (records: Vec<Option<Vec<String>>>)
    ensures
        records.deep_view() == csv_records(source@, has_header),
{
    csv::ReaderBuilder::new()
        .has_headers(has_header)
        .flexible(true)
        .from_reader(source)
        .records()
        .map(|record| record.ok().map(|fields| fields.iter().map(String::from).collect()))
        .collect()
}

/// The row that a record holds: in a table with names, a name and two
/// coordinates, else two coordinates, which then go under the default
/// name. A record of another length, or with a field that is no
/// coordinate where one should be, holds no row.
pub open spec fn row_of(record: Option<Seq<Seq<char>>>, named: bool) -> Option<RowView> {
    match record {
        Some(fields) => {
            let first = if named {
                1int
            } else {
                0
            };
            if fields.len() == first + 2 {
                match (coordinate_of(fields[first]), coordinate_of(fields[first + 1])) {
                    (Some(x), Some(y)) => Some(
                        RowView {
                            name: if named {
                                fields[0]
                            } else {
                                DEFAULT_NAME@
                            },
                            point: Point { x, y },
                        },
                    ),
                    _ => None,
                }
            } else {
                None
            }
        },
        None => None,
    }
}

/// The rows that some records hold, in order.
pub open spec fn rows_of_records(records: Seq<Option<Seq<Seq<char>>>>, named: bool) -> Seq<
    RowView,
> {
    records.filter_map(|record: Option<Seq<Seq<char>>>| row_of(record, named))
}

/// The row that a record holds, if it holds one.
fn row_from_record(record: &Option<Vec<String>>, named: bool) -> (r: Option<Row>)
    ensures
        match r {
            Some(row) => row_of(record.deep_view(), named) == Some(row@),
            None => row_of(record.deep_view(), named) is None,
        },
{
    match record {
        None => None,
        Some(fields) => {
            let first: usize = if named {
                1
            } else {
                0
            };
            if fields.len() != first + 2 {
                return None;
            }
            assert(fields.deep_view()[first as int] == fields@[first as int]@);
            assert(fields.deep_view()[first + 1] == fields@[first + 1]@);
            assert(fields.deep_view()[0] == fields@[0]@);
            match (
                parse_coordinate(fields[first].as_str()),
                parse_coordinate(fields[first + 1].as_str()),
            ) {
                (Some(x), Some(y)) => {
                    let name = if named {
                        fields[0].clone()
                    } else {
                        DEFAULT_NAME.to_owned()
                    };
                    Some(Row { name, point: Point { x, y } })
                },
                _ => None,
            }
        },
    }
}

/// The rows that the records hold, in order; records that hold none are
/// passed over.
pub fn rows_from_records(records: &Vec<Option<Vec<String>>>, named: bool) -> (rows: Vec<Row>)
    ensures
        row_views(rows@) == rows_of_records(records.deep_view(), named),
{
    let ghost all = records.deep_view();
    let ghost read = |record: Option<Seq<Seq<char>>>| row_of(record, named);
    let mut rows: Vec<Row> = Vec::new();
    let mut i: usize = 0;
    assert(all.take(0) =~= Seq::<Option<Seq<Seq<char>>>>::empty());
    assert(row_views(rows@) =~= all.take(0).filter_map(read));
    while i < records.len()
        invariant
            i <= records@.len(),
            all == records.deep_view(),
            read == |record: Option<Seq<Seq<char>>>| row_of(record, named),
            row_views(rows@) == all.take(i as int).filter_map(read),
        decreases records@.len() - i,
    {
        let ghost so_far = row_views(rows@);
        proof {
            all.lemma_filter_map_take_succ(read, i as int);
            assert(all[i as int] == records@[i as int].deep_view());
        }
        match row_from_record(&records[i], named) {
            Some(row) => {
                let ghost view = row@;
                rows.push(row);
                assert(row_views(rows@) =~= so_far + seq![view]);
            },
            None => {},
        }
        i += 1;
    }
    assert(all.take(records@.len() as int) =~= all);
    rows
}

/// The datasets of a tabular source. Each record that holds a row adds a
/// point, in the order of the source, to the dataset of its name; every
/// other record is passed over, so there is no source that is refused.
pub fn parse_tabular(source: &[u8], layout: TabularLayout) -> (c: DatasetCollection)
    ensures
        c.wf(),
        c.selection() is None,
        c@ == grouped(rows_of_records(csv_records(source@, layout.has_header), layout.grouped)),
{
    let records = read_records(source, layout.has_header);
    datasets_from_records(&records, layout.grouped)
}

/// The datasets that the given records make up.
pub fn datasets_from_records(records: &Vec<Option<Vec<String>>>, named: bool) -> (c:
    DatasetCollection)
    ensures
        c.wf(),
        c.selection() is None,
        c@ == grouped(rows_of_records(records.deep_view(), named)),
{
    let rows = rows_from_records(records, named);
    group(rows.as_slice())
}

/// Where every record holds a row, no record is passed over: there is a
/// row for each record, in order.
pub proof fn lemma_every_record_counts(records: Seq<Option<Seq<Seq<char>>>>, named: bool)
    requires
        forall|i: int| 0 <= i < records.len() ==> row_of(#[trigger] records[i], named) is Some,
    ensures
        rows_of_records(records, named).len() == records.len(),
        forall|i: int|
            0 <= i < records.len() ==> row_of(records[i], named) == Some(
                #[trigger] rows_of_records(records, named)[i],
            ),
{
    let read = |record: Option<Seq<Seq<char>>>| row_of(record, named);
    assert forall|i: int| 0 <= i < records.len() implies read(#[trigger] records[i]) is Some by {
        assert(row_of(records[i], named) is Some);
    }
    lemma_nothing_passed_over(records, read);
}

/// A table without names, read and written out again, gives the rows that
/// its records hold, row for row and in order; it reads as one dataset, or
/// as none where no record holds a row.
pub proof fn lemma_plain_table_round_trip(records: Seq<Option<Seq<Seq<char>>>>)
    ensures
        rows_of(grouped(rows_of_records(records, false))) == rows_of_records(records, false),
        grouped(rows_of_records(records, false)).len() <= 1,
{
    let read = |record: Option<Seq<Seq<char>>>| row_of(record, false);
    let rows = rows_of_records(records, false);
    assert forall|k: int| 0 <= k < rows.len() implies (#[trigger] rows[k]).name
        == DEFAULT_NAME@ by {
        let i = lemma_read_from_items(records, read, k);
        assert(row_of(records[i], false) == Some(rows[k]));
    }
    lemma_round_trip_one_name(rows, DEFAULT_NAME@);
}

/// A table with names, read and written out again, holds under each name
/// the rows that its records hold under that name, in order; and each name
/// stands for one dataset.
pub proof fn lemma_named_table_round_trip(
    records: Seq<Option<Seq<Seq<char>>>>,
    named: bool,
    name: Seq<char>,
)
    ensures
        rows_named(rows_of(grouped(rows_of_records(records, named))), name) == rows_named(
            rows_of_records(records, named),
            name,
        ),
        distinct_names(grouped(rows_of_records(records, named))),
{
    let rows = rows_of_records(records, named);
    lemma_round_trip_by_name(rows, name);
    lemma_gathered(crate::grouping::arrivals_of(rows));
}

} // verus!
