use data_visualizer::error::IngestError;
use data_visualizer::geometry::render;
use data_visualizer::ingest::Format;
use data_visualizer::model::{ChartType, DrawPrimitive, Point, ScreenPoint, Size};
use data_visualizer::session::{DataVisualizerApp, DEFAULT_LABEL};
use data_visualizer::tabular::TabularLayout;

const AREA: Size = Size { width: 100, height: 100 };
const GROUPED: TabularLayout = TabularLayout { has_header: false, grouped: true };

fn circle(x: i128, y: i128) -> DrawPrimitive {
    DrawPrimitive::Circle { center: ScreenPoint { x, y }, radius: 2 }
}

#[test]
fn starts_empty_with_a_scatter_chart() {
    let v = DataVisualizerApp::new(None);
    assert!(v.collection().is_empty());
    assert_eq!(v.collection().selected(), None);
    assert_eq!(v.chart_type(), ChartType::Scatter);
    assert!(v.frame(AREA).is_empty());
    assert!(v.shown().is_empty());
}

#[test]
fn load_replaces_what_was_loaded() {
    let mut v = DataVisualizerApp::new(None);
    v.set_chart_type(ChartType::Line);
    assert_eq!(v.load(b"a,1,1\nb,2,2\n", Format::Tabular, GROUPED), Ok(()));
    assert_eq!(v.collection().len(), 2);
    assert!(v.select(1));
    assert_eq!(v.load(br#"[{"x": 5, "y": 5}]"#, Format::Structured, GROUPED), Ok(()));
    assert_eq!(v.collection().len(), 1);
    assert_eq!(v.collection().selected(), None);
    assert_eq!(v.collection().get(0).unwrap().points, vec![Point { x: 5_000_000, y: 5_000_000 }]);
    assert_eq!(v.chart_type(), ChartType::Line);
}

#[test]
fn refused_load_changes_nothing() {
    let mut v = DataVisualizerApp::new(None);
    v.load(b"a,1,1\nb,2,2\n", Format::Tabular, GROUPED).unwrap();
    assert!(v.select(1));
    let before = v.clone();
    assert!(matches!(
        v.load(b"not a document", Format::Structured, GROUPED),
        Err(IngestError::StructuredFormatInvalid { .. })
    ));
    assert_eq!(v, before);
    assert!(matches!(
        v.load_by_extension(b"a,1,1\n", "xls", GROUPED),
        Err(IngestError::UnsupportedFormat { .. })
    ));
    assert_eq!(v, before);
    assert!(v.load_by_extension(b"{", "json", GROUPED).is_err());
    assert_eq!(v, before);
}

#[test]
fn load_by_extension_reads_both_formats() {
    let mut v = DataVisualizerApp::new(None);
    assert_eq!(v.load_by_extension(b"a,1,1\n", "csv", GROUPED), Ok(()));
    assert_eq!(v.collection().get(0).unwrap().name, "a");
    assert_eq!(
        v.load_by_extension(br#"[{"name": "j", "points": []}]"#, "json", GROUPED),
        Ok(())
    );
    assert_eq!(v.collection().get(0).unwrap().name, "j");
}

#[test]
fn frame_draws_all_datasets_against_shared_extents() {
    let mut v = DataVisualizerApp::new(None);
    v.load(b"a,0,0\na,10,10\nb,5,20\n", Format::Tabular, GROUPED).unwrap();
    assert_eq!(
        v.frame(AREA),
        vec![vec![circle(0, 100), circle(100, 50)], vec![circle(50, 0)]]
    );
    assert_eq!(v.frame(AREA), render(ChartType::Scatter, v.collection().as_slice(), AREA));
}

#[test]
fn frame_draws_the_selected_dataset_alone() {
    let mut v = DataVisualizerApp::new(None);
    v.load(b"a,0,0\na,10,10\nb,5,20\n", Format::Tabular, GROUPED).unwrap();
    assert!(v.select(0));
    assert_eq!(v.shown().len(), 1);
    assert_eq!(v.shown()[0].name, "a");
    assert_eq!(v.frame(AREA), vec![vec![circle(0, 100), circle(100, 0)]]);
    assert!(v.select(1));
    assert_eq!(v.frame(AREA), vec![vec![circle(0, 100)]]);
    assert!(!v.select(2));
    assert_eq!(v.frame(AREA), vec![vec![circle(0, 100)]]);
    v.clear_selection();
    assert_eq!(v.frame(AREA).len(), 2);
}

#[test]
fn frame_follows_the_chart_type() {
    let mut v = DataVisualizerApp::new(None);
    v.load(b"a,0,0\na,10,10\na,20,5\n", Format::Tabular, GROUPED).unwrap();
    v.set_chart_type(ChartType::Line);
    let lines = v.frame(AREA);
    assert_eq!(lines.len(), 1);
    assert_eq!(
        lines[0],
        vec![
            DrawPrimitive::Segment {
                from: ScreenPoint { x: 0, y: 100 },
                to: ScreenPoint { x: 50, y: 0 }
            },
            DrawPrimitive::Segment {
                from: ScreenPoint { x: 50, y: 0 },
                to: ScreenPoint { x: 100, y: 50 }
            },
        ]
    );
    v.set_chart_type(ChartType::Bar);
    let bars = v.frame(AREA);
    assert_eq!(
        bars[0],
        vec![
            DrawPrimitive::Rect { left: -16, top: 100, right: 17, bottom: 100 },
            DrawPrimitive::Rect { left: 34, top: 0, right: 67, bottom: 100 },
            DrawPrimitive::Rect { left: 84, top: 50, right: 117, bottom: 100 },
        ]
    );
}

#[test]
fn clear_forgets_the_datasets_and_keeps_the_chart_type() {
    let mut v = DataVisualizerApp::new(None);
    v.set_chart_type(ChartType::Bar);
    v.load(b"a,0,0\n", Format::Tabular, GROUPED).unwrap();
    assert!(v.select(0));
    v.clear();
    assert!(v.collection().is_empty());
    assert_eq!(v.collection().selected(), None);
    assert_eq!(v.chart_type(), ChartType::Bar);
    assert!(v.frame(AREA).is_empty());
}

#[test]
fn loaded_source_without_points_draws_nothing() {
    let mut v = DataVisualizerApp::new(None);
    v.load(br#"[{"name": "hollow", "points": []}]"#, Format::Structured, GROUPED).unwrap();
    assert_eq!(v.collection().len(), 1);
    assert!(v.frame(AREA).is_empty());
}

#[test]
fn first_start_has_the_default_label() {
    let v = DataVisualizerApp::new(None);
    assert_eq!(v.label(), "Hello World!");
    assert_eq!(v.label(), DEFAULT_LABEL);
    assert_eq!(v, DataVisualizerApp::default());
}

#[test]
fn kept_state_is_taken_up_again() {
    let kept = DataVisualizerApp::restore("mine", ChartType::Bar);
    assert_eq!(kept.label(), "mine");
    assert_eq!(kept.chart_type(), ChartType::Bar);
    assert!(kept.collection().is_empty());
    let v = DataVisualizerApp::new(Some(kept.clone()));
    assert_eq!(v, kept);
}

#[test]
fn label_can_be_rewritten() {
    let mut v = DataVisualizerApp::new(None);
    v.load(b"a,0,0\n", Format::Tabular, GROUPED).unwrap();
    v.set_label("other");
    assert_eq!(v.label(), "other");
    assert_eq!(v.collection().len(), 1);
    assert_eq!(v.chart_type(), ChartType::Scatter);
}

#[test]
fn file_that_could_not_be_read_is_refused() {
    let mut v = DataVisualizerApp::new(None);
    v.load(b"a,1,1\n", Format::Tabular, GROUPED).unwrap();
    let before = v.clone();
    let outcome = v.load_file(Err("no such file".to_string()), "csv", GROUPED);
    assert_eq!(outcome, Err(IngestError::FileUnreadable { cause: "no such file".to_string() }));
    assert_eq!(v, before);
    let outcome = v.load_file(Err("denied".to_string()), "xls", GROUPED);
    assert_eq!(outcome, Err(IngestError::FileUnreadable { cause: "denied".to_string() }));
}

#[test]
fn file_that_was_read_is_loaded_by_its_extension() {
    let mut v = DataVisualizerApp::new(None);
    assert_eq!(v.load_file(Ok(b"b,2,2\n".to_vec()), "csv", GROUPED), Ok(()));
    assert_eq!(v.collection().get(0).unwrap().name, "b");
    assert_eq!(v.load_file(Ok(b"[]".to_vec()), "json", GROUPED), Ok(()));
    assert!(v.collection().is_empty());
    assert!(matches!(
        v.load_file(Ok(b"b,2,2\n".to_vec()), "txt", GROUPED),
        Err(IngestError::UnsupportedFormat { .. })
    ));
    assert!(matches!(
        v.load_file(Ok(b"b,2,2\n".to_vec()), "json", GROUPED),
        Err(IngestError::StructuredFormatInvalid { .. })
    ));
}

#[test]
fn refused_load_hands_the_cause_on() {
    let mut v = DataVisualizerApp::new(None);
    let said = serde_json::from_slice::<serde_json::Value>(b"[1,").unwrap_err().to_string();
    let cause = IngestError::StructuredFormatInvalid { cause: said };
    assert_eq!(v.load(b"[1,", Format::Structured, GROUPED), Err(cause.clone()));
    assert_eq!(v.load_by_extension(b"[1,", "json", GROUPED), Err(cause.clone()));
    assert_eq!(v.load_file(Ok(b"[1,".to_vec()), "json", GROUPED), Err(cause));
    let no_list =
        IngestError::StructuredFormatInvalid { cause: "the document is not a list".to_string() };
    assert_eq!(v.load(b"{}", Format::Structured, GROUPED), Err(no_list));
}
