//! Structured sources: a JSON document that is a list of datasets, each
//! with a name and a list of points, or a list of points alone.

use crate::decimal::{coordinate_of, parse_coordinate};
use crate::error::IngestError;
use crate::grouping::{
    arrivals_of, gather, gathered, grouped, lemma_gathered, lemma_gathered_exact,
    lemma_nothing_passed_over, lemma_round_trip_one_name, rows_of, rows_of_one,
};
use crate::model::{
    distinct_names, has_name, views_of, Dataset, DatasetCollection, DatasetView, Point, RowView,
};
use crate::tabular::DEFAULT_NAME;
use vstd::prelude::*;

verus! {

/// A JSON value. A number is kept as the text that writes it.
#[derive(Debug)]
pub enum Json {
    Null,
    Flag(bool),
    Number(String),
    Text(String),
    Array(Vec<Json>),
    Object(Vec<(String, Json)>),
}

/// What a JSON value is, mathematically.
pub enum JsonView {
    Null,
    Flag(bool),
    Number(Seq<char>),
    Text(Seq<char>),
    Array(Seq<JsonView>),
    Object(Seq<(Seq<char>, JsonView)>),
}

/// The view of a JSON value: the same value over sequences.
pub open spec fn json_view(value: Json) -> JsonView
    decreases value,
{
    match value {
        Json::Null => JsonView::Null,
        Json::Flag(b) => JsonView::Flag(b),
        Json::Number(text) => JsonView::Number(text@),
        Json::Text(text) => JsonView::Text(text@),
        Json::Array(items) => JsonView::Array(
            Seq::new(
                items@.len(),
                |i: int|
                    if 0 <= i < items@.len() {
                        json_view(items@[i])
                    } else {
                        JsonView::Null
                    },
            ),
        ),
        Json::Object(fields) => JsonView::Object(
            Seq::new(
                fields@.len(),
                |i: int|
                    if 0 <= i < fields@.len() {
                        (fields@[i].0@, json_view(fields@[i].1))
                    } else {
                        (Seq::empty(), JsonView::Null)
                    },
            ),
        ),
    }
}

impl View for Json {
    type V = JsonView;

    open spec fn view(&self) -> JsonView {
        json_view(*self)
    }
}

/// `serde_json::Value`, of which nothing is known here.
#[verifier::external_type_specification]
#[verifier::external_body]
pub struct ExJsonValue(serde_json::Value);

/// The document that `source` holds, as `serde_json` reads it, or `None`
/// where it holds none.
pub uninterp spec fn json_document(source: Seq<u8>) -> Option<JsonView>;

/// What `serde_json` says of a source that holds no document: the text of
/// its error.
pub uninterp spec fn json_failure(source: Seq<u8>) -> Seq<char>;

/// Reads `source` with `serde_json::from_slice` into a `serde_json::Value`
/// and hands it on as a `Json`; where `serde_json` refuses the source, the
/// text of its error comes back. The contract says that success, the value
/// read and the text of the error are functions of the source, and names
/// them.
#[verifier::external_body]
pub(crate) fn read_json(source: &[u8]) -> (r: Result<Json, String>)
    ensures
        match r {
            Ok(doc) => json_document(source@) == Some(doc@),
            Err(text) => json_document(source@) is None && text@ == json_failure(source@),
        },
{
    serde_json::from_slice::<serde_json::Value>(source)
        .map(json_from_value)
        .map_err(|error| error.to_string())
}

/// Turns a `serde_json::Value` into a `Json`, variant for variant; a
/// number becomes the text that `serde_json` prints for it, and the fields
/// of an object come in the order in which `serde_json` holds them.
#[verifier::external_body]
fn json_from_value(value: serde_json::Value) -> Json {
    match value {
        serde_json::Value::Null => Json::Null,
        serde_json::Value::Bool(flag) => Json::Flag(flag),
        serde_json::Value::Number(number) => Json::Number(number.to_string()),
        serde_json::Value::String(text) => Json::Text(text),
        serde_json::Value::Array(items) => Json::Array(
            items.into_iter().map(json_from_value).collect(),
        ),
        serde_json::Value::Object(fields) => Json::Object(
            fields.into_iter().map(|(key, value)| (key, json_from_value(value))).collect(),
        ),
    }
}

/// Some field is called `key`.
pub open spec fn has_member(fields: Seq<(Seq<char>, JsonView)>, key: Seq<char>) -> bool {
    exists|i: int| 0 <= i < fields.len() && fields[i].0 == key
}

/// The place of the first field called `key`.
pub open spec fn member_place(fields: Seq<(Seq<char>, JsonView)>, key: Seq<char>) -> int {
    choose|i: int|
        0 <= i < fields.len() && fields[i].0 == key && forall|j: int|
            0 <= j < i ==> fields[j].0 != key
}

/// The value of the first field called `key`, if there is one.
pub open spec fn member(fields: Seq<(Seq<char>, JsonView)>, key: Seq<char>) -> Option<JsonView> {
    if has_member(fields, key) {
        Some(fields[member_place(fields, key)].1)
    } else {
        None
    }
}

/// The coordinate that a JSON value holds: that of a number, read to the
/// nearest millionth.
pub open spec fn json_coordinate(value: JsonView) -> Option<i64> {
    match value {
        JsonView::Number(text) => coordinate_of(text),
        _ => None,
    }
}

/// The coordinate of the field called `key`.
pub open spec fn member_coordinate(fields: Seq<(Seq<char>, JsonView)>, key: Seq<char>) -> Option<
    i64,
> {
    match member(fields, key) {
        Some(value) => json_coordinate(value),
        None => None,
    }
}

/// The point that a JSON value holds: that of an object with coordinates
/// `x` and `y`.
pub open spec fn json_point(value: JsonView) -> Option<Point> {
    match value {
        JsonView::Object(fields) => match (
            member_coordinate(fields, "x"@),
            member_coordinate(fields, "y"@),
        ) {
            (Some(x), Some(y)) => Some(Point { x, y }),
            _ => None,
        },
        _ => None,
    }
}

/// The points that a list of JSON values holds, in order; values that
/// hold no point are passed over.
pub open spec fn json_points(items: Seq<JsonView>) -> Seq<Point> {
    items.filter_map(|item: JsonView| json_point(item))
}

/// The text of the field called `key`.
pub open spec fn member_text(fields: Seq<(Seq<char>, JsonView)>, key: Seq<char>) -> Option<
    Seq<char>,
> {
    match member(fields, key) {
        Some(JsonView::Text(text)) => Some(text),
        _ => None,
    }
}

/// The items of the list in the field called `key`.
pub open spec fn member_items(fields: Seq<(Seq<char>, JsonView)>, key: Seq<char>) -> Option<
    Seq<JsonView>,
> {
    match member(fields, key) {
        Some(JsonView::Array(items)) => Some(items),
        _ => None,
    }
}

/// The dataset that a JSON value holds: an object with a text `name` and
/// a list `points`.
pub open spec fn json_dataset(value: JsonView) -> Option<DatasetView> {
    match value {
        JsonView::Object(fields) => match (
            member_text(fields, "name"@),
            member_items(fields, "points"@),
        ) {
            (Some(name), Some(items)) => Some(DatasetView { name, points: json_points(items) }),
            _ => None,
        },
        _ => None,
    }
}

/// What an entry of the outermost list brings: a dataset, or else a point,
/// which goes under the default name, or else nothing.
pub open spec fn json_arrival(value: JsonView) -> Option<DatasetView> {
    match json_dataset(value) {
        Some(d) => Some(d),
        None => match json_point(value) {
            Some(p) => Some(DatasetView { name: DEFAULT_NAME@, points: seq![p] }),
            None => None,
        },
    }
}

/// The datasets of a document: what the entries of its outermost list
/// bring, taken in by the grouping rule. A document that is no list has
/// none.
pub open spec fn structured_datasets(doc: JsonView) -> Option<Seq<DatasetView>> {
    match doc {
        JsonView::Array(items) => Some(
            gathered(items.filter_map(|item: JsonView| json_arrival(item))),
        ),
        _ => None,
    }
}

/// The fields of an object, as the view of the object holds them.
pub open spec fn field_views(fields: Seq<(String, Json)>) -> Seq<(Seq<char>, JsonView)> {
    Seq::new(fields.len(), |i: int| (fields[i].0@, fields[i].1@))
}

/// The items of a list, as the view of the list holds them.
pub open spec fn item_views(items: Seq<Json>) -> Seq<JsonView> {
    Seq::new(items.len(), |i: int| items[i]@)
}

/// The view of an object holds the views of its fields, and the view of
/// a list those of its items.
pub proof fn lemma_views(value: &Json)
    ensures
        value matches Json::Object(fields) ==> value@ == JsonView::Object(field_views(fields@)),
        value matches Json::Array(items) ==> value@ == JsonView::Array(item_views(items@)),
{
    match value {
        Json::Object(fields) => {
            let seen = value@->Object_0;
            assert(seen.len() == fields@.len());
            assert forall|i: int| 0 <= i < seen.len() implies seen[i] == field_views(fields@)[i] by {
            }
            assert(seen =~= field_views(fields@));
        },
        Json::Array(items) => {
            let seen = value@->Array_0;
            assert(seen.len() == items@.len());
            assert(seen =~= item_views(items@));
        },
        _ => {},
    }
}

/// The value of the first field called `key`.
fn find_member<'a>(fields: &'a Vec<(String, Json)>, key: &str) -> (r: Option<&'a Json>)
    ensures
        match r {
            Some(value) => member(field_views(fields@), key@) == Some(value@),
            None => member(field_views(fields@), key@) is None,
        },
{
    let wanted = key.to_owned();
    let ghost all = field_views(fields@);
    let mut i: usize = 0;
    while i < fields.len()
        invariant
            i <= fields@.len(),
            wanted@ == key@,
            all == field_views(fields@),
            forall|j: int| 0 <= j < i ==> all[j].0 != key@,
        decreases fields@.len() - i,
    {
        if fields[i].0 == wanted {
            proof {
                assert(all[i as int].0 == key@);
                let place = member_place(all, key@);
                assert(place == i) by {
                    if place < i {
                        assert(all[place].0 != key@);
                    }
                }
            }
            return Some(&fields[i].1);
        }
        i += 1;
    }
    None
}

/// The coordinate of the field called `key`.
fn find_coordinate(fields: &Vec<(String, Json)>, key: &str) -> (r: Option<i64>)
    ensures
        r == member_coordinate(field_views(fields@), key@),
{
    match find_member(fields, key) {
        Some(Json::Number(text)) => parse_coordinate(text.as_str()),
        _ => None,
    }
}

/// The text of the field called `key`.
pub(crate) fn find_text<'a>(fields: &'a Vec<(String, Json)>, key: &str) -> (r: Option<&'a String>)
    ensures
        match r {
            Some(text) => member_text(field_views(fields@), key@) == Some(text@),
            None => member_text(field_views(fields@), key@) is None,
        },
{
    match find_member(fields, key) {
        Some(Json::Text(text)) => Some(text),
        _ => None,
    }
}

/// The items of the list in the field called `key`.
fn find_items<'a>(fields: &'a Vec<(String, Json)>, key: &str) -> (r: Option<&'a Vec<Json>>)
    ensures
        match r {
            Some(items) => member_items(field_views(fields@), key@) == Some(item_views(items@)),
            None => member_items(field_views(fields@), key@) is None,
        },
{
    match find_member(fields, key) {
        Some(found) => {
            proof {
                lemma_views(found);
            }
            match found {
                Json::Array(items) => Some(items),
                _ => None,
            }
        },
        None => None,
    }
}

/// The point that a JSON value holds, if it holds one.
fn point_from_json(value: &Json) -> (r: Option<Point>)
    ensures
        r == json_point(value@),
{
    match value {
        Json::Object(fields) => {
            proof {
                lemma_views(value);
            }
            match (find_coordinate(fields, "x"), find_coordinate(fields, "y")) {
                (Some(x), Some(y)) => Some(Point { x, y }),
                _ => None,
            }
        },
        _ => None,
    }
}

/// The points that a list of JSON values holds.
fn points_from_json(items: &Vec<Json>) -> (points: Vec<Point>)
    ensures
        points@ == json_points(item_views(items@)),
{
    let ghost all = item_views(items@);
    let ghost read = |item: JsonView| json_point(item);
    let mut points: Vec<Point> = Vec::new();
    let mut i: usize = 0;
    assert(all.take(0) =~= Seq::<JsonView>::empty());
    assert(points@ =~= all.take(0).filter_map(read));
    while i < items.len()
        invariant
            i <= items@.len(),
            all == item_views(items@),
            read == |item: JsonView| json_point(item),
            points@ == all.take(i as int).filter_map(read),
        decreases items@.len() - i,
    {
        proof {
            all.lemma_filter_map_take_succ(read, i as int);
        }
        match point_from_json(&items[i]) {
            Some(p) => {
                points.push(p);
            },
            None => {},
        }
        i += 1;
    }
    assert(all.take(items@.len() as int) =~= all);
    points
}

/// The dataset that a JSON value holds, if it holds one.
fn dataset_from_json(value: &Json) -> (r: Option<Dataset>)
    ensures
        match r {
            Some(d) => json_dataset(value@) == Some(d@),
            None => json_dataset(value@) is None,
        },
{
    match value {
        Json::Object(fields) => {
            proof {
                lemma_views(value);
            }
            match find_text(fields, "name") {
                Some(name) => match find_items(fields, "points") {
                    Some(items) => Some(
                        Dataset { name: name.clone(), points: points_from_json(items) },
                    ),
                    None => None,
                },
                None => None,
            }
        },
        _ => None,
    }
}

/// What an entry of the outermost list brings, if it brings anything.
fn arrival_from_json(value: &Json) -> (r: Option<Dataset>)
    ensures
        match r {
            Some(d) => json_arrival(value@) == Some(d@),
            None => json_arrival(value@) is None,
        },
{
    match dataset_from_json(value) {
        Some(d) => Some(d),
        None => match point_from_json(value) {
            Some(p) => {
                let mut d = Dataset::new(DEFAULT_NAME);
                d.push(p);
                assert(d@.points =~= seq![p]);
                Some(d)
            },
            None => None,
        },
    }
}

/// The cause that is given for a document that is no list.
pub const NOT_A_LIST: &'static str = "the document is not a list";

/// The datasets of a document that has been read. The document has to be
/// a list; an entry of the list that is neither a dataset nor a point is
/// passed over, and so is an entry of a list of points that is no point.
pub fn datasets_from_json(doc: &Json) -> (r: Result<DatasetCollection, IngestError>)
    ensures
        match r {
            Ok(c) => c.wf() && c.selection() is None && structured_datasets(doc@) == Some(c@),
            Err(e) => structured_datasets(doc@) is None && e is StructuredFormatInvalid
                && e.detail() == NOT_A_LIST@,
        },
{
    match doc {
        Json::Array(items) => {
            proof {
                lemma_views(doc);
            }
            let ghost all = item_views(items@);
            let ghost read = |item: JsonView| json_arrival(item);
            let mut arrivals: Vec<Dataset> = Vec::new();
            let mut i: usize = 0;
            assert(all.take(0) =~= Seq::<JsonView>::empty());
            assert(views_of(arrivals@) =~= all.take(0).filter_map(read));
            while i < items.len()
                invariant
                    i <= items@.len(),
                    all == item_views(items@),
                    read == |item: JsonView| json_arrival(item),
                    views_of(arrivals@) == all.take(i as int).filter_map(read),
                decreases items@.len() - i,
            {
                let ghost so_far = views_of(arrivals@);
                proof {
                    all.lemma_filter_map_take_succ(read, i as int);
                }
                match arrival_from_json(&items[i]) {
                    Some(d) => {
                        let ghost view = d@;
                        arrivals.push(d);
                        assert(views_of(arrivals@) =~= so_far + seq![view]);
                    },
                    None => {},
                }
                i += 1;
            }
            assert(all.take(items@.len() as int) =~= all);
            Ok(gather(arrivals.as_slice()))
        },
        _ => Err(IngestError::StructuredFormatInvalid { cause: NOT_A_LIST.to_owned() }),
    }
}

/// The datasets of a structured source, where it holds a document that
/// has any.
pub open spec fn source_datasets(source: Seq<u8>) -> Option<Seq<DatasetView>> {
    match json_document(source) {
        Some(doc) => structured_datasets(doc),
        None => None,
    }
}

/// Why a structured source is refused, where it is: what `serde_json`
/// says of a source that holds no document, and else that the document is
/// no list.
pub open spec fn structured_cause(source: Seq<u8>) -> Seq<char> {
    match json_document(source) {
        Some(_) => NOT_A_LIST@,
        None => json_failure(source),
    }
}

/// The datasets of a structured source. The source is refused where it
/// holds no JSON document, or one that is no list; the error carries the
/// cause.
pub fn parse_structured(source: &[u8]) -> (r: Result<DatasetCollection, IngestError>)
    ensures
        match r {
            Ok(c) => c.wf() && c.selection() is None && source_datasets(source@) == Some(c@),
            Err(e) => e is StructuredFormatInvalid && source_datasets(source@) is None
                && e.detail() == structured_cause(source@),
        },
{
    match read_json(source) {
        Ok(doc) => datasets_from_json(&doc),
        Err(text) => Err(IngestError::StructuredFormatInvalid { cause: text }),
    }
}

/// A list of dataset records with distinct names reads as exactly these
/// datasets: as many, in the same order, each with its name and with its
/// points.
pub proof fn lemma_list_of_datasets(items: Seq<JsonView>)
    requires
        forall|i: int| 0 <= i < items.len() ==> json_dataset(#[trigger] items[i]) is Some,
        forall|i: int, j: int|
            0 <= i < j < items.len() ==> json_dataset(items[i])->0.name != json_dataset(
                items[j],
            )->0.name,
    ensures
        structured_datasets(JsonView::Array(items)) == Some(
            Seq::new(items.len(), |i: int| json_dataset(items[i])->0),
        ),
{
    let read = |item: JsonView| json_arrival(item);
    let sets = Seq::new(items.len(), |i: int| json_dataset(items[i])->0);
    assert forall|i: int| 0 <= i < items.len() implies read(#[trigger] items[i]) is Some by {
        assert(json_dataset(items[i]) is Some);
    }
    lemma_nothing_passed_over(items, read);
    assert(items.filter_map(read) =~= sets) by {
        assert forall|i: int| 0 <= i < items.len() implies read(items[i])->0 == sets[i] by {
            assert(json_dataset(items[i]) is Some);
        }
    }
    lemma_gathered_exact(sets);
}

/// A list of points reads as one dataset under the default name, with
/// exactly these points in order; an empty list reads as no dataset.
pub proof fn lemma_list_of_points(items: Seq<JsonView>)
    requires
        forall|i: int|
            0 <= i < items.len() ==> json_point(#[trigger] items[i]) is Some && json_dataset(
                items[i],
            ) is None,
    ensures
        structured_datasets(JsonView::Array(items)) == Some(
            if items.len() == 0 {
                Seq::empty()
            } else {
                seq![
                    DatasetView {
                        name: DEFAULT_NAME@,
                        points: Seq::new(items.len(), |i: int| json_point(items[i])->0),
                    },
                ]
            },
        ),
{
    let read = |item: JsonView| json_arrival(item);
    let rows = Seq::new(
        items.len(),
        |i: int| RowView { name: DEFAULT_NAME@, point: json_point(items[i])->0 },
    );
    assert forall|i: int| 0 <= i < items.len() implies read(#[trigger] items[i]) is Some by {
        assert(json_point(items[i]) is Some);
    }
    lemma_nothing_passed_over(items, read);
    assert(items.filter_map(read) =~= arrivals_of(rows)) by {
        assert forall|i: int| 0 <= i < items.len() implies read(items[i])->0 == arrivals_of(
            rows,
        )[i] by {
            assert(json_point(items[i]) is Some && json_dataset(items[i]) is None);
        }
    }
    let sets = grouped(rows);
    lemma_round_trip_one_name(rows, DEFAULT_NAME@);
    if items.len() > 0 {
        lemma_gathered(arrivals_of(rows));
        assert(crate::grouping::arrived(arrivals_of(rows), DEFAULT_NAME@)) by {
            assert(arrivals_of(rows)[0].name == DEFAULT_NAME@);
        }
        assert(has_name(sets, DEFAULT_NAME@));
        assert(sets[0].name == DEFAULT_NAME@);
        assert(sets.drop_last() =~= Seq::<DatasetView>::empty());
        assert(rows_of(sets.drop_last()) =~= Seq::<RowView>::empty());
        assert(rows_of(sets) =~= rows_of_one(sets[0]));
        let points = Seq::new(items.len(), |i: int| json_point(items[i])->0);
        assert(sets[0].points =~= points) by {
            assert(rows_of_one(sets[0]).len() == rows.len());
            assert forall|i: int| 0 <= i < points.len() implies sets[0].points[i] == points[i] by {
                assert(rows_of_one(sets[0])[i] == rows[i]);
            }
        }
        assert(sets =~= seq![DatasetView { name: DEFAULT_NAME@, points }]);
    } else {
        assert(sets =~= Seq::<DatasetView>::empty());
    }
}

} // verus!
