use tree_serving::labels::LabelMap;
use tree_serving::request::{
    accepts_media_type, invocation_fields_of, ping_status, prediction_label, InvocationError,
};

#[test]
fn ping_is_ok() {
    assert_eq!(ping_status(), 200);
}

#[test]
fn four_fields_are_accepted() {
    let r = invocation_fields_of(Some("text/csv"), b"5.1,3.5,1.4,0.2", 4).unwrap();
    assert_eq!(r, vec!["5.1", "3.5", "1.4", "0.2"]);
}

#[test]
fn three_fields_are_a_client_error() {
    let e = invocation_fields_of(Some("text/csv"), b"5.1,3.5,1.4", 4).unwrap_err();
    assert_eq!(e, InvocationError::WrongArity { expected: 4, found: 3 });
    assert_eq!(e.status(), 400);
}

#[test]
fn empty_body_is_one_empty_field() {
    let e = invocation_fields_of(Some("text/csv"), b"", 4).unwrap_err();
    assert_eq!(e, InvocationError::WrongArity { expected: 4, found: 1 });
    let r = invocation_fields_of(Some("text/csv"), b"", 1).unwrap();
    assert_eq!(r, vec![String::new()]);
}

#[test]
fn empty_fields_are_kept() {
    let r = invocation_fields_of(Some("text/csv"), b",x,", 3).unwrap();
    assert_eq!(r, vec!["", "x", ""]);
}

#[test]
fn other_media_types_are_refused() {
    let e = invocation_fields_of(Some("application/json"), b"1,2,3,4", 4).unwrap_err();
    assert_eq!(e, InvocationError::UnsupportedMediaType);
    assert_eq!(e.status(), 415);
    let e = invocation_fields_of(None, b"1,2,3,4", 4).unwrap_err();
    assert_eq!(e, InvocationError::UnsupportedMediaType);
    assert!(accepts_media_type(Some("text/csv")));
    assert!(!accepts_media_type(Some("text/csvx")));
    assert!(!accepts_media_type(Some("text/cs")));
}

#[test]
fn bad_utf8_is_refused() {
    let e = invocation_fields_of(Some("text/csv"), &[0x31, 0xff, 0x2c, 0x32], 2).unwrap_err();
    assert_eq!(e, InvocationError::NotUtf8);
    assert_eq!(e.status(), 400);
}

#[test]
fn multibyte_text_is_split_on_commas() {
    let r = invocation_fields_of(Some("text/csv"), "é,ü".as_bytes(), 2).unwrap();
    assert_eq!(r, vec!["é", "ü"]);
}

#[test]
fn statuses_of_each_error() {
    assert_eq!(InvocationError::NotANumber { field: 2 }.status(), 400);
    assert_eq!(InvocationError::UnknownClass { code: 7 }.status(), 500);
    assert_eq!(InvocationError::PredictionFailed.status(), 500);
}

#[test]
fn predicted_codes_are_labelled() {
    let m = LabelMap::iris();
    assert_eq!(prediction_label(&m, 0), Ok("Iris-setosa".to_string()));
    assert_eq!(prediction_label(&m, 2), Ok("Iris-virginica".to_string()));
    assert_eq!(prediction_label(&m, 3), Err(InvocationError::UnknownClass { code: 3 }));
}
