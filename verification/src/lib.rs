//! Core of a small data visualizer: ingestion of tabular and structured
//! sources into datasets, projection of data coordinates onto a drawing
//! area, and construction of the shapes of scatter, line and bar charts.
//!
//! A coordinate is a fixed-point number: an `i64` that counts millionths.
//! A number of a source is read to the nearest millionth. All arithmetic on
//! coordinates is integer arithmetic and exact; a place on the drawing area
//! is a pair of whole pixels.
//!
//! - `model`: points, datasets, the collection of datasets, shapes.
//! - `decimal`: coordinates from and to decimal text.
//! - `grouping`: the rule by which rows fan out into datasets, and what
//!   follows from it.
//! - `tabular`, `structured`, `ingest`: reading sources; `error`: what can
//!   go wrong.
//! - `projection`: bounding boxes and the map onto the drawing area.
//! - `geometry`: the shapes of a chart; `filter`: thinning a dataset.
//! - `config`: the configuration file; `session`: the state between two
//!   redraws.
//!
//! The `csv` and `serde_json` crates read the sources. Their part is stated,
//! not proved: see `tabular::csv_records` and `structured::json_document`.

pub mod model;
pub mod decimal;
pub mod error;
pub mod grouping;
pub mod tabular;
pub mod structured;
pub mod ingest;
pub mod projection;
pub mod geometry;
pub mod filter;
pub mod config;
pub mod session;
