use fs_mirror::ArgError;
use fs_mirror::PathExistsValueParser;
use fs_mirror::default_threads;
use fs_mirror::threads;

#[test]
fn empty_value_rejected() {
    let p = PathExistsValueParser::new();
    assert_eq!(p.parse_ref(&Vec::new(), true), Err(ArgError::EmptyValue));
    assert_eq!(p.parse_ref(&Vec::new(), false), Err(ArgError::EmptyValue));
}

#[test]
fn missing_path_rejected() {
    let p = PathExistsValueParser::new();
    assert_eq!(p.parse_ref(&b"/no/such/place".to_vec(), false), Err(ArgError::PathNotFound));
}

#[test]
fn existing_path_accepted_unchanged() {
    let p = PathExistsValueParser::default();
    let got = p.parse_ref(&b"/tmp".to_vec(), true).unwrap();
    assert_eq!(got, b"/tmp".to_vec());
}

#[test]
fn requested_thread_count_wins() {
    assert_eq!(threads(Some(3), 16), 3);
    assert_eq!(threads(Some(1), 16), 1);
}

#[test]
fn detected_thread_count_used_as_default() {
    assert_eq!(threads(None, 8), 8);
}

#[test]
fn default_thread_count_is_positive() {
    assert!(default_threads() >= 1);
}
