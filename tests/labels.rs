use tree_serving::labels::{LabelError, LabelMap};

fn strings(v: &[&str]) -> Vec<String> {
    v.iter().map(|s| s.to_string()).collect()
}

#[test]
fn codes_follow_first_appearance() {
    let m = LabelMap::from_labels(&strings(&["b", "a", "b", "c", "a"]));
    assert_eq!(m.len(), 3);
    assert_eq!(m.code_of(&"b".to_string()), Some(0));
    assert_eq!(m.code_of(&"a".to_string()), Some(1));
    assert_eq!(m.code_of(&"c".to_string()), Some(2));
    assert_eq!(m.code_of(&"d".to_string()), None);
    assert_eq!(m.label_of(2), Some("c".to_string()));
    assert_eq!(m.label_of(3), None);
}

#[test]
fn every_training_label_gets_a_distinct_code() {
    let labels = strings(&["Iris-setosa", "Iris-virginica", "Iris-setosa", "Iris-versicolor"]);
    let m = LabelMap::from_labels(&labels);
    let codes = m.encode(&labels).unwrap();
    assert_eq!(codes, vec![0, 1, 0, 2]);
    for (label, code) in labels.iter().zip(codes.iter()) {
        assert_eq!(m.label_of(*code).as_ref(), Some(label));
    }
}

#[test]
fn unknown_label_is_an_error_not_class_zero() {
    let m = LabelMap::iris();
    let labels = strings(&["Iris-setosa", "Iris-unknown", "Iris-virginica"]);
    assert_eq!(m.encode(&labels), Err(LabelError::Unknown { row: 1 }));
}

#[test]
fn iris_codes_are_fixed() {
    let m = LabelMap::iris();
    assert_eq!(m.len(), 3);
    assert_eq!(m.code_of(&"Iris-setosa".to_string()), Some(0));
    assert_eq!(m.code_of(&"Iris-versicolor".to_string()), Some(1));
    assert_eq!(m.code_of(&"Iris-virginica".to_string()), Some(2));
}

#[test]
fn names_must_be_distinct() {
    assert!(LabelMap::from_names(strings(&["x", "y", "x"])).is_none());
    let m = LabelMap::from_names(strings(&["x", "y"])).unwrap();
    assert_eq!(m.code_of(&"y".to_string()), Some(1));
}

#[test]
fn empty_column_gives_empty_mapping() {
    let m = LabelMap::from_labels(&Vec::new());
    assert_eq!(m.len(), 0);
    assert_eq!(m.encode(&Vec::new()), Ok(Vec::new()));
}
