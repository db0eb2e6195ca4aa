use eomi_core::odf::tree::{parse_path, TreeError};

#[test]
fn parse_root() {
    let segs = parse_path("/").unwrap();
    assert!(segs.is_empty());
}

#[test]
fn parse_single_segment() {
    let segs = parse_path("/A").unwrap();
    assert_eq!(segs, vec!["A"]);
}

#[test]
fn parse_multi_segment() {
    let segs = parse_path("/A/B/C").unwrap();
    assert_eq!(segs, vec!["A", "B", "C"]);
}

#[test]
fn parse_rejects_no_leading_slash() {
    assert!(parse_path("A/B").is_err());
}

#[test]
fn parse_rejects_double_slash() {
    assert!(parse_path("/A//B").is_err());
}

#[test]
fn parse_rejects_dotdot() {
    assert!(parse_path("/A/../B").is_err());
}

#[test]
fn parse_rejects_trailing_slash() {
    assert!(parse_path("/A/B/").is_err());
}


#[test]
fn parse_trims_segments_and_reports_problem() {
    assert_eq!(parse_path("/ A / B ").unwrap(), vec!["A", "B"]);
    match parse_path("/A/..") {
        Err(e) => assert_eq!(e.to_string(), "Invalid path: '..' segments not allowed"),
        Ok(_) => panic!("expected error"),
    }
    match parse_path("") {
        Err(TreeError::InvalidPath(m)) => assert_eq!(m, "Path must start with '/'"),
        _ => panic!("expected InvalidPath"),
    }
}
