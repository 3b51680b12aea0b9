use medical_ann::loader::{load_from_bytes, LoadError};

fn bytes(s: &str) -> Vec<u8> {
    s.as_bytes().to_vec()
}

#[test]
fn rectangular_file_keeps_shape_and_fields() {
    let content = bytes("1.0,2.5,-3e2\n4,5.5,.5\n");
    let m = load_from_bytes(&content).unwrap();
    assert_eq!(m.rows(), 2);
    assert_eq!(m.cols(), 3);
    assert_eq!(m.entry(0, 0), &bytes("1.0"));
    assert_eq!(m.entry(0, 1), &bytes("2.5"));
    assert_eq!(m.entry(0, 2), &bytes("-3e2"));
    assert_eq!(m.entry(1, 0), &bytes("4"));
    assert_eq!(m.entry(1, 1), &bytes("5.5"));
    assert_eq!(m.entry(1, 2), &bytes(".5"));
}

#[test]
fn rectangular_file_parses_to_expected_values() {
    let content = bytes("0.25,-8\n1e2,+3.5\n");
    let m = load_from_bytes(&content).unwrap();
    assert_eq!(m.rows(), 2);
    assert_eq!(m.cols(), 2);
    let expected = [[0.25f32, -8.0], [100.0, 3.5]];
    for i in 0..2 {
        for j in 0..2 {
            let text = String::from_utf8(m.entry(i, j).clone()).unwrap();
            let value: f32 = text.parse().unwrap();
            assert_eq!(value, expected[i][j]);
        }
    }
}

#[test]
fn empty_file_gives_zero_by_zero() {
    let content = bytes("");
    let m = load_from_bytes(&content).unwrap();
    assert_eq!(m.rows(), 0);
    assert_eq!(m.cols(), 0);
}

#[test]
fn missing_final_newline_is_accepted() {
    let content = bytes("1,2\n3,4");
    let m = load_from_bytes(&content).unwrap();
    assert_eq!(m.rows(), 2);
    assert_eq!(m.cols(), 2);
    assert_eq!(m.entry(1, 1), &bytes("4"));
}

#[test]
fn carriage_returns_belong_to_the_separator() {
    let content = bytes("1,2\r\n3,4\r\n");
    let m = load_from_bytes(&content).unwrap();
    assert_eq!(m.rows(), 2);
    assert_eq!(m.cols(), 2);
    assert_eq!(m.entry(0, 1), &bytes("2"));
    assert_eq!(m.entry(1, 1), &bytes("4"));
}

#[test]
fn non_numeric_field_is_a_parse_error() {
    let content = bytes("1.0,abc\n2.0,3.0\n");
    assert_eq!(load_from_bytes(&content), Err(LoadError::ParseError));
}

#[test]
fn empty_field_is_a_parse_error() {
    let content = bytes("1.0,\n");
    assert_eq!(load_from_bytes(&content), Err(LoadError::ParseError));
}

#[test]
fn ragged_rows_are_a_shape_error() {
    let content = bytes("1,2\n3\n");
    assert_eq!(load_from_bytes(&content), Err(LoadError::ShapeError));
}

#[test]
fn shape_of_ragged_row_is_checked_before_its_fields() {
    let content = bytes("1,2\nabc\n");
    assert_eq!(load_from_bytes(&content), Err(LoadError::ShapeError));
}

#[test]
fn first_ill_formed_line_decides_the_error() {
    let content = bytes("1,x\n3\n");
    assert_eq!(load_from_bytes(&content), Err(LoadError::ParseError));
}

#[test]
fn accepted_and_rejected_field_forms() {
    let ok = ["1", "12.5", "1.", ".5", "+.5e-3", "-0", "1e5", "3E+07", "007"];
    for f in ok {
        assert!(load_from_bytes(&bytes(f)).is_ok(), "{f} should load");
    }
    let bad = [".", "-", "+", "1e", "e5", "--1", "1..2", "1e2e3", "nan", "inf", "1 "];
    for f in bad {
        assert_eq!(load_from_bytes(&bytes(f)), Err(LoadError::ParseError), "{f} should fail");
    }
}

#[test]
fn error_messages_name_their_cause() {
    assert_eq!(LoadError::IoError.message(), "the embedding file cannot be read");
    assert_eq!(LoadError::ParseError.message(), "a field is not a number");
    assert_eq!(LoadError::ShapeError.message(), "the rows have differing field counts");
}
