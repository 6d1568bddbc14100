//! The configuration of the visualizer: which file to load and which kind
//! of chart to draw, read from a JSON object. A field that is missing or
//! cannot be read takes its default.

use crate::model::ChartType;
use crate::structured::{
    find_text, json_document, lemma_views, member_text, read_json, Json, JsonView,
};
use vstd::prelude::*;

verus! {

/// The file that is loaded where the configuration names none.
pub const DEFAULT_FILE_PATH: &'static str = "data.csv";

/// What to load and how to draw it.
#[derive(Clone, Debug, PartialEq, Eq)]
pub struct Config {
    pub file_path: String,
    pub chart_type: ChartType,
}

/// What a configuration is, mathematically.
pub struct ConfigView {
    pub file_path: Seq<char>,
    pub chart_type: ChartType,
}

impl View for Config {
    type V = ConfigView;

    open spec fn view(&self) -> ConfigView {
        ConfigView { file_path: self.file_path@, chart_type: self.chart_type }
    }
}

/// The name of each kind of chart.
pub open spec fn chart_name(chart_type: ChartType) -> Seq<char> {
    match chart_type {
        ChartType::Scatter => "Scatter"@,
        ChartType::Line => "Line"@,
        ChartType::Bar => "Bar"@,
    }
}

/// The kind of chart that a name stands for.
pub open spec fn chart_named(name: Seq<char>) -> Option<ChartType> {
    if name == "Scatter"@ {
        Some(ChartType::Scatter)
    } else if name == "Line"@ {
        Some(ChartType::Line)
    } else if name == "Bar"@ {
        Some(ChartType::Bar)
    } else {
        None
    }
}

/// Each kind of chart is the one that its name stands for.
pub proof fn lemma_chart_names(chart_type: ChartType)
    ensures
        chart_named(chart_name(chart_type)) == Some(chart_type),
{
    reveal_strlit("Scatter");
    reveal_strlit("Line");
    reveal_strlit("Bar");
    assert("Scatter"@.len() == 7);
    assert("Line"@.len() == 4);
    assert("Bar"@.len() == 3);
}

impl ChartType {
    /// The name of this kind of chart.
    pub fn name(&self) -> (name: &'static str)
        ensures
            name@ == chart_name(*self),
    {
        match self {
            ChartType::Scatter => "Scatter",
            ChartType::Line => "Line",
            ChartType::Bar => "Bar",
        }
    }

    /// The kind of chart that `name` stands for, if it stands for one.
    pub fn from_name(name: &str) -> (r: Option<ChartType>)
        ensures
            r == chart_named(name@),
    {
        let given = name.to_owned();
        if given == "Scatter".to_owned() {
            Some(ChartType::Scatter)
        } else if given == "Line".to_owned() {
            Some(ChartType::Line)
        } else if given == "Bar".to_owned() {
            Some(ChartType::Bar)
        } else {
            None
        }
    }
}

/// The configuration without any field set.
pub open spec fn default_config() -> ConfigView {
    ConfigView { file_path: DEFAULT_FILE_PATH@, chart_type: ChartType::Scatter }
}

/// The configuration that a document holds: the text fields `file_path`
/// and `chart_type` of an object, each with its default where the field is
/// missing, is no text, or names no kind of chart.
pub open spec fn config_of(doc: JsonView) -> ConfigView {
    match doc {
        JsonView::Object(fields) => ConfigView {
            file_path: match member_text(fields, "file_path"@) {
                Some(path) => path,
                None => DEFAULT_FILE_PATH@,
            },
            chart_type: match member_text(fields, "chart_type"@) {
                Some(name) => match chart_named(name) {
                    Some(chart_type) => chart_type,
                    None => ChartType::Scatter,
                },
                None => ChartType::Scatter,
            },
        },
        _ => default_config(),
    }
}

impl Default for Config {
    fn default() -> (c: Config)
        ensures
            c@ == default_config(),
    {
        Config { file_path: DEFAULT_FILE_PATH.to_owned(), chart_type: ChartType::Scatter }
    }
}

/// The configuration that a document holds.
pub fn config_from_json(doc: &Json) -> (c: Config)
    ensures
        c@ == config_of(doc@),
{
    match doc {
        Json::Object(fields) => {
            proof {
                lemma_views(doc);
            }
            let file_path = match find_text(fields, "file_path") {
                Some(path) => path.clone(),
                None => DEFAULT_FILE_PATH.to_owned(),
            };
            let chart_type = match find_text(fields, "chart_type") {
                Some(name) => match ChartType::from_name(name.as_str()) {
                    Some(chart_type) => chart_type,
                    None => ChartType::Scatter,
                },
                None => ChartType::Scatter,
            };
            Config { file_path, chart_type }
        },
        _ => Config::default(),
    }
}

/// The configuration that a source holds; where the source holds no
/// document, every field takes its default.
pub open spec fn config_of_source(source: Seq<u8>) -> ConfigView {
    match json_document(source) {
        Some(doc) => config_of(doc),
        None => default_config(),
    }
}

/// Reads a configuration from the bytes of its file. Nothing is refused:
/// what cannot be read is replaced by its default.
pub fn parse_config(source: &[u8]) -> (c: Config)
    ensures
        c@ == config_of_source(source@),
{
    match read_json(source) {
        Ok(doc) => config_from_json(&doc),
        Err(_) => Config::default(),
    }
}

} // verus!
