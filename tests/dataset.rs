use tree_serving::dataset::{parse_training_csv, prepare_training, prepare_training_with, DatasetError};
use tree_serving::labels::LabelMap;

fn rows(v: &[&[&str]]) -> Vec<Vec<String>> {
    v.iter().map(|r| r.iter().map(|s| s.to_string()).collect()).collect()
}

#[test]
fn columns_are_split_into_features_and_label() {
    let t = prepare_training(
        &rows(&[&["1", "2", "a"], &["3", "4", "b"], &["5", "6", "a"]]),
        2,
    )
    .unwrap();
    assert_eq!(t.n_features, 2);
    assert_eq!(t.features, rows(&[&["1", "2"], &["3", "4"], &["5", "6"]]));
    assert_eq!(t.codes, vec![0, 1, 0]);
    assert_eq!(t.labels.label_of(1), Some("b".to_string()));
}

#[test]
fn first_row_of_wrong_width_is_reported() {
    let e = prepare_training(&rows(&[&["1", "2", "a"], &["3", "b"], &["1"]]), 2).unwrap_err();
    assert_eq!(e, DatasetError::WrongWidth { row: 1, found: 2 });
    let e = prepare_training(&rows(&[&[]]), 0).unwrap_err();
    assert_eq!(e, DatasetError::WrongWidth { row: 0, found: 0 });
}

#[test]
fn fixed_mapping_rejects_unknown_labels() {
    let r = rows(&[&["5.1", "3.5", "1.4", "0.2", "Iris-setosa"], &["6.0", "3.0", "4.8", "1.8", "Iris-nova"]]);
    let e = prepare_training_with(&r, 4, LabelMap::iris()).unwrap_err();
    assert_eq!(e, DatasetError::UnknownLabel { row: 1 });
    let r = rows(&[&["5.1", "3.5", "1.4", "0.2", "Iris-virginica"]]);
    let t = prepare_training_with(&r, 4, LabelMap::iris()).unwrap();
    assert_eq!(t.codes, vec![2]);
}

#[test]
fn csv_text_is_read_without_header() {
    let t = parse_training_csv(b"5.1,3.5,1.4,0.2,Iris-setosa\n7.0,3.2,4.7,1.4,Iris-versicolor\n", 4).unwrap();
    assert_eq!(t.features.len(), 2);
    assert_eq!(t.features[1], vec!["7.0", "3.2", "4.7", "1.4"]);
    assert_eq!(t.codes, vec![0, 1]);
}

#[test]
fn ragged_csv_is_malformed() {
    let e = parse_training_csv(b"1,2,a\n3,b\n", 2).unwrap_err();
    assert_eq!(e, DatasetError::Malformed);
}

#[test]
fn csv_of_wrong_width_is_refused() {
    let e = parse_training_csv(b"1,2,3,a\n", 2).unwrap_err();
    assert_eq!(e, DatasetError::WrongWidth { row: 0, found: 4 });
}

#[test]
fn preparing_twice_gives_the_same_table() {
    let r = rows(&[&["1", "x"], &["2", "y"], &["3", "x"]]);
    let a = prepare_training(&r, 1).unwrap();
    let b = prepare_training(&r, 1).unwrap();
    assert_eq!(a.features, b.features);
    assert_eq!(a.codes, b.codes);
    assert_eq!(a.labels.len(), b.labels.len());
}
