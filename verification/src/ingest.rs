//! Loading: from the bytes of a source and the format that the caller
//! names, to the datasets that the source holds.

use crate::error::IngestError;
use crate::grouping::{grouped, rows_named, rows_of};
use crate::model::{distinct_names, DatasetCollection, DatasetView, RowView};
use crate::structured::{
    json_dataset, json_document, json_point, lemma_list_of_datasets, lemma_list_of_points,
    parse_structured, source_datasets, structured_cause, JsonView,
};
use crate::tabular::{
    csv_records, lemma_named_table_round_trip, lemma_plain_table_round_trip, parse_tabular,
    rows_of_records, TabularLayout, DEFAULT_NAME,
};
use vstd::prelude::*;

verus! {

/// The formats of a source.
#[derive(Clone, Copy, Debug, PartialEq, Eq, Structural)]
pub enum Format {
    /// Rows of comma-separated fields.
    Tabular,
    /// A JSON document.
    Structured,
}

/// The format that a file extension stands for: `csv` for tabular, `json`
/// for structured, in small letters. The content of a source is never
/// asked.
pub open spec fn format_of(extension: Seq<char>) -> Option<Format> {
    if extension == "csv"@ {
        Some(Format::Tabular)
    } else if extension == "json"@ {
        Some(Format::Structured)
    } else {
        None
    }
}

/// The format that a file extension stands for; an extension that stands
/// for none is handed back in the error.
pub fn format_for_extension(extension: &str) -> (r: Result<Format, IngestError>)
    ensures
        match r {
            Ok(format) => format_of(extension@) == Some(format),
            Err(e) => format_of(extension@) is None && e is UnsupportedFormat && e.detail()
                == extension@,
        },
{
    let given = extension.to_owned();
    proof {
        reveal_strlit("csv");
        reveal_strlit("json");
    }
    if given == "csv".to_owned() {
        Ok(Format::Tabular)
    } else if given == "json".to_owned() {
        Ok(Format::Structured)
    } else {
        Err(IngestError::UnsupportedFormat { extension: given })
    }
}

/// The datasets that a source of the given format holds; `None` for a
/// structured source that holds no document or one without datasets. The
/// layout matters to a tabular source only.
pub open spec fn datasets_of(source: Seq<u8>, format: Format, layout: TabularLayout) -> Option<
    Seq<DatasetView>,
> {
    match format {
        Format::Tabular => Some(
            grouped(rows_of_records(csv_records(source, layout.has_header), layout.grouped)),
        ),
        Format::Structured => source_datasets(source),
    }
}

/// Reads the datasets of a source. Nothing is selected in the result. A
/// tabular source is never refused: what is no row is passed over. A
/// structured source is refused where it holds no document that is a list.
pub fn parse(source: &[u8], format: Format, layout: TabularLayout) -> (r: Result<
    DatasetCollection,
    IngestError,
>)
    ensures
        match r {
            Ok(c) => c.wf() && c.selection() is None && datasets_of(source@, format, layout)
                == Some(c@),
            Err(e) => e is StructuredFormatInvalid && datasets_of(source@, format, layout) is None
                && e.detail() == structured_cause(source@),
        },
{
    match format {
        Format::Tabular => Ok(parse_tabular(source, layout)),
        Format::Structured => parse_structured(source),
    }
}

/// Reads the datasets of a source whose format is given by a file
/// extension.
pub fn parse_by_extension(source: &[u8], extension: &str, layout: TabularLayout) -> (r: Result<
    DatasetCollection,
    IngestError,
>)
    ensures
        match format_of(extension@) {
            Some(format) => match r {
                Ok(c) => c.wf() && c.selection() is None && datasets_of(source@, format, layout)
                    == Some(c@),
                Err(e) => e is StructuredFormatInvalid && datasets_of(source@, format, layout)
                    is None && e.detail() == structured_cause(source@),
            },
            None => r matches Err(e) && e is UnsupportedFormat && e.detail() == extension@,
        },
{
    match format_for_extension(extension) {
        Ok(format) => parse(source, format, layout),
        Err(e) => Err(e),
    }
}

/// Reads the datasets of a file from what reading the file came to: its
/// bytes, or the reason why it could not be opened or read. The reason
/// comes back in the error, whatever the extension; the bytes are read by
/// the format that the extension names.
pub fn parse_file(read: Result<Vec<u8>, String>, extension: &str, layout: TabularLayout) -> (r:
    Result<DatasetCollection, IngestError>)
    ensures
        match read {
            Ok(source) => match format_of(extension@) {
                Some(format) => match r {
                    Ok(c) => c.wf() && c.selection() is None && datasets_of(
                        source@,
                        format,
                        layout,
                    ) == Some(c@),
                    Err(e) => e is StructuredFormatInvalid && datasets_of(source@, format, layout)
                        is None && e.detail() == structured_cause(source@),
                },
                None => r matches Err(e) && e is UnsupportedFormat && e.detail() == extension@,
            },
            Err(cause) => r matches Err(e) && e is FileUnreadable && e.detail() == cause@,
        },
{
    match read {
        Ok(source) => parse_by_extension(source.as_slice(), extension, layout),
        Err(cause) => Err(IngestError::FileUnreadable { cause }),
    }
}

/// The rows that a tabular source holds: those of the records that the
/// `csv` crate reads from it.
pub open spec fn rows_of_source(source: Seq<u8>, layout: TabularLayout) -> Seq<RowView> {
    rows_of_records(csv_records(source, layout.has_header), layout.grouped)
}

/// Loading a tabular source and writing the datasets out as a table again
/// keeps all rows of the source: under each name the same rows in the same
/// order, and, where the table has no names, all rows in their old order.
/// Each name stands for one dataset.
pub proof fn lemma_tabular_round_trip(source: Seq<u8>, layout: TabularLayout, name: Seq<char>)
    ensures
        datasets_of(source, Format::Tabular, layout) is Some,
        distinct_names(datasets_of(source, Format::Tabular, layout)->0),
        rows_named(rows_of(datasets_of(source, Format::Tabular, layout)->0), name) == rows_named(
            rows_of_source(source, layout),
            name,
        ),
        !layout.grouped ==> rows_of(datasets_of(source, Format::Tabular, layout)->0)
            == rows_of_source(source, layout),
{
    let records = csv_records(source, layout.has_header);
    lemma_named_table_round_trip(records, layout.grouped, name);
    if !layout.grouped {
        lemma_plain_table_round_trip(records);
    }
}

/// A structured source whose document is a list of dataset records with
/// distinct names loads as exactly these datasets: as many, in the same
/// order, each with its name and its points.
pub proof fn lemma_structured_datasets_load(
    source: Seq<u8>,
    layout: TabularLayout,
    items: Seq<JsonView>,
)
    requires
        json_document(source) == Some(JsonView::Array(items)),
        forall|i: int| 0 <= i < items.len() ==> json_dataset(#[trigger] items[i]) is Some,
        forall|i: int, j: int|
            0 <= i < j < items.len() ==> json_dataset(items[i])->0.name != json_dataset(
                items[j],
            )->0.name,
    ensures
        datasets_of(source, Format::Structured, layout) == Some(
            Seq::new(items.len(), |i: int| json_dataset(items[i])->0),
        ),
{
    lemma_list_of_datasets(items);
}

/// A structured source whose document is a list of points, and not empty,
/// loads as one dataset with exactly these points, in order.
pub proof fn lemma_structured_points_load(
    source: Seq<u8>,
    layout: TabularLayout,
    items: Seq<JsonView>,
)
    requires
        json_document(source) == Some(JsonView::Array(items)),
        items.len() > 0,
        forall|i: int|
            0 <= i < items.len() ==> json_point(#[trigger] items[i]) is Some && json_dataset(
                items[i],
            ) is None,
    ensures
        datasets_of(source, Format::Structured, layout) == Some(
            seq![
                DatasetView {
                    name: DEFAULT_NAME@,
                    points: Seq::new(items.len(), |i: int| json_point(items[i])->0),
                },
            ],
        ),
{
    lemma_list_of_points(items);
}

} // verus!
