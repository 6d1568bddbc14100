use data_visualizer::config::{config_from_json, parse_config, Config, DEFAULT_FILE_PATH};
use data_visualizer::model::ChartType;
use data_visualizer::structured::Json;

#[test]
fn chart_types_have_names() {
    assert_eq!(ChartType::Scatter.name(), "Scatter");
    assert_eq!(ChartType::Line.name(), "Line");
    assert_eq!(ChartType::Bar.name(), "Bar");
    for chart_type in [ChartType::Scatter, ChartType::Line, ChartType::Bar] {
        assert_eq!(ChartType::from_name(chart_type.name()), Some(chart_type));
    }
    assert_eq!(ChartType::from_name("Pie"), None);
    assert_eq!(ChartType::from_name("line"), None);
    assert_eq!(ChartType::from_name(""), None);
}

#[test]
fn default_config() {
    let c = Config::default();
    assert_eq!(c.file_path, "data.csv");
    assert_eq!(c.file_path, DEFAULT_FILE_PATH);
    assert_eq!(c.chart_type, ChartType::Scatter);
}

#[test]
fn config_is_read_from_an_object() {
    let c = parse_config(br#"{"file_path": "points.json", "chart_type": "Bar"}"#);
    assert_eq!(c, Config { file_path: "points.json".to_string(), chart_type: ChartType::Bar });
}

#[test]
fn config_field_that_cannot_be_read_takes_its_default() {
    let c = parse_config(br#"{"file_path": "points.json", "chart_type": "Pie"}"#);
    assert_eq!(c, Config { file_path: "points.json".to_string(), chart_type: ChartType::Scatter });
    let c = parse_config(br#"{"file_path": 5, "chart_type": "Line"}"#);
    assert_eq!(c, Config { file_path: "data.csv".to_string(), chart_type: ChartType::Line });
    let c = parse_config(br#"{"chart_type": "Line"}"#);
    assert_eq!(c, Config { file_path: "data.csv".to_string(), chart_type: ChartType::Line });
    assert_eq!(parse_config(b"{}"), Config::default());
}

#[test]
fn config_that_is_no_object_is_all_defaults() {
    assert_eq!(parse_config(b"[1, 2]"), Config::default());
    assert_eq!(parse_config(b"not json"), Config::default());
    assert_eq!(parse_config(b""), Config::default());
    assert_eq!(config_from_json(&Json::Null), Config::default());
}

#[test]
fn config_given_by_hand() {
    let doc = Json::Object(vec![
        ("chart_type".to_string(), Json::Text("Line".to_string())),
        ("file_path".to_string(), Json::Text("a.csv".to_string())),
        ("other".to_string(), Json::Flag(false)),
    ]);
    assert_eq!(
        config_from_json(&doc),
        Config { file_path: "a.csv".to_string(), chart_type: ChartType::Line }
    );
}
