use data_visualizer::grouping::{gather, group, table};
use data_visualizer::model::{Dataset, DatasetCollection, Point, Row};
use data_visualizer::tabular::{parse_tabular, TabularLayout};

fn row(name: &str, x: i64, y: i64) -> Row {
    Row { name: name.to_string(), point: Point { x, y } }
}

fn dataset(name: &str, points: &[(i64, i64)]) -> Dataset {
    Dataset { name: name.to_string(), points: points.iter().map(|&(x, y)| Point { x, y }).collect() }
}

#[test]
fn group_takes_rows_in_by_name() {
    let rows = vec![row("A", 1, 2), row("B", 3, 4), row("A", 5, 6)];
    let c = group(&rows);
    assert_eq!(c.as_slice(), &[dataset("A", &[(1, 2), (5, 6)]), dataset("B", &[(3, 4)])]);
}

#[test]
fn table_writes_dataset_by_dataset() {
    let sets = vec![dataset("A", &[(1, 2), (5, 6)]), dataset("empty", &[]), dataset("B", &[(3, 4)])];
    assert_eq!(table(&sets), vec![row("A", 1, 2), row("A", 5, 6), row("B", 3, 4)]);
}

#[test]
fn round_trip_keeps_rows_under_each_name() {
    let rows = vec![
        row("b", 1, 1),
        row("a", 2, 2),
        row("b", 3, 3),
        row("c", 4, 4),
        row("a", 5, 5),
        row("b", 6, 6),
    ];
    let back = table(group(&rows).as_slice());
    assert_eq!(back.len(), rows.len());
    for name in ["a", "b", "c", "d"] {
        let before: Vec<&Row> = rows.iter().filter(|r| r.name == name).collect();
        let after: Vec<&Row> = back.iter().filter(|r| r.name == name).collect();
        assert_eq!(before, after);
    }
    assert_eq!(
        back,
        vec![
            row("b", 1, 1),
            row("b", 3, 3),
            row("b", 6, 6),
            row("a", 2, 2),
            row("a", 5, 5),
            row("c", 4, 4),
        ]
    );
}

#[test]
fn round_trip_of_one_name_is_exact() {
    let rows = vec![row("only", 3, 1), row("only", 1, 2), row("only", 2, 3)];
    assert_eq!(table(group(&rows).as_slice()), rows);
    assert_eq!(group(&rows).len(), 1);
    assert!(group(&[]).is_empty());
}

#[test]
fn table_reads_back_as_the_same_datasets() {
    let sets = vec![dataset("x", &[(1, 1), (2, 2)]), dataset("y", &[(3, 3)])];
    let c = group(&table(&sets));
    assert_eq!(c.as_slice(), sets.as_slice());
}

#[test]
fn dataset_without_points_leaves_no_row() {
    let sets = vec![dataset("x", &[(1, 1)]), dataset("hollow", &[])];
    let c = group(&table(&sets));
    assert_eq!(c.as_slice(), &[dataset("x", &[(1, 1)])]);
}

#[test]
fn gather_keeps_distinct_datasets_as_they_are() {
    let sets = vec![dataset("x", &[(1, 1), (2, 2)]), dataset("hollow", &[]), dataset("y", &[(3, 3)])];
    assert_eq!(gather(&sets).as_slice(), sets.as_slice());
}

#[test]
fn gather_joins_datasets_of_one_name() {
    let sets = vec![dataset("x", &[(1, 1)]), dataset("y", &[(2, 2)]), dataset("x", &[(3, 3)])];
    assert_eq!(
        gather(&sets).as_slice(),
        &[dataset("x", &[(1, 1), (3, 3)]), dataset("y", &[(2, 2)])]
    );
}

#[test]
fn parsed_table_round_trips_through_rows() {
    let layout = TabularLayout { has_header: false, grouped: true };
    let c = parse_tabular(b"A,1,2\nB,3,4\nA,5,6\n", layout);
    let rows = table(c.as_slice());
    assert_eq!(
        rows,
        vec![
            row("A", 1_000_000, 2_000_000),
            row("A", 5_000_000, 6_000_000),
            row("B", 3_000_000, 4_000_000),
        ]
    );
    assert_eq!(group(&rows).as_slice(), c.as_slice());
}

#[test]
fn collection_appends_and_extends() {
    let mut c = DatasetCollection::new();
    assert!(c.is_empty());
    c.append("a", Point { x: 1, y: 1 });
    c.extend("b", &[]);
    c.extend("a", &[Point { x: 2, y: 2 }, Point { x: 3, y: 3 }]);
    assert_eq!(c.len(), 2);
    assert_eq!(c.find("a"), Some(0));
    assert_eq!(c.find("b"), Some(1));
    assert_eq!(c.find("c"), None);
    assert_eq!(c.as_slice(), &[dataset("a", &[(1, 1), (2, 2), (3, 3)]), dataset("b", &[])]);
    assert!(c.get(2).is_none());
}

#[test]
fn selection_stays_inside_the_collection() {
    let mut c = DatasetCollection::new();
    assert_eq!(c.selected(), None);
    assert!(!c.select(0));
    assert_eq!(c.selected(), None);
    c.append("a", Point { x: 1, y: 1 });
    c.append("b", Point { x: 2, y: 2 });
    assert!(c.select(1));
    assert_eq!(c.selected(), Some(1));
    assert_eq!(c.selected_dataset().unwrap().name, "b");
    assert!(!c.select(2));
    assert_eq!(c.selected(), Some(1));
    c.append("c", Point { x: 3, y: 3 });
    assert_eq!(c.selected(), Some(1));
    c.clear_selection();
    assert_eq!(c.selected(), None);
    assert!(c.selected_dataset().is_none());
    assert!(c.select(0));
    c.clear();
    assert!(c.is_empty());
    assert_eq!(c.selected(), None);
}

#[test]
fn dataset_grows_by_push() {
    let mut d = Dataset::new("d");
    assert!(d.is_empty());
    d.push(Point { x: 1, y: 2 });
    assert_eq!(d.len(), 1);
    assert_eq!(d, dataset("d", &[(1, 2)]));
}

#[test]
fn points_are_counted_over_all_datasets() {
    let mut c = DatasetCollection::new();
    assert_eq!(c.point_count(), 0);
    c.append("a", Point { x: 1, y: 1 });
    c.extend("b", &[]);
    c.extend("c", &[Point { x: 2, y: 2 }, Point { x: 3, y: 3 }]);
    c.append("a", Point { x: 4, y: 4 });
    assert_eq!(c.point_count(), 4);
}
