use eomi_core::http::{is_mutating_operation, is_successful_write_response};
use eomi_core::json::error::ParseError;
use eomi_core::json::lexer::Token;
use eomi_core::json::parser::{number_literals, parse_omi_message as parse_with};
use eomi_core::odf::OmiValue;
use eomi_core::omi::{
    CancelOp, DeleteOp, ItemStatus, OmiMessage, Operation, ReadOp, ResponseBody, ResponseResult, WriteOp,
};

/// The two number tables of an input: the bits of each number token's
/// double, and the whole number a number token denotes where it does.
fn tables(input: &[u8]) -> (Vec<(usize, u64)>, Vec<(usize, i64)>) {
    let mut nums = Vec::new();
    let mut wholes = Vec::new();
    for (q, t) in number_literals(input) {
        match t {
            Token::Integer(i) => nums.push((q, (i as f64).to_bits())),
            Token::Number(s) => {
                if let Ok(x) = s.parse::<f64>() {
                    nums.push((q, x.to_bits()));
                    let i = x as i64;
                    if i as f64 == x {
                        wholes.push((q, i));
                    }
                }
            }
            _ => {}
        }
    }
    (nums, wholes)
}

fn parse_omi_message(input: &str) -> Result<OmiMessage, ParseError> {
    let (nums, wholes) = tables(input.as_bytes());
    parse_with(input.as_bytes(), &nums, &wholes)
}

fn read_op(path: Option<&str>, rid: Option<&str>, newest: Option<u64>, interval: Option<f64>) -> ReadOp {
    ReadOp {
        path: path.map(|s| s.to_string()),
        rid: rid.map(|s| s.to_string()),
        newest,
        oldest: None,
        begin: None,
        end: None,
        depth: None,
        interval: interval.map(|x| x.to_bits()),
        callback: None,
    }
}

fn response(status: u16) -> OmiMessage {
    OmiMessage {
        version: "1.0".into(),
        ttl: 0,
        operation: Operation::Response(ResponseBody { status, rid: None, desc: None, result: None }),
    }
}

// ----- OMI envelope parsing -----

#[test]
fn omi_parse_minimal_read() {
    let msg = parse_omi_message(r#"{"omi":"1.0","ttl":0,"read":{"path":"/DeviceA/Temperature"}}"#).unwrap();
    assert_eq!(msg.version, "1.0");
    assert_eq!(msg.ttl, 0);
    match &msg.operation {
        Operation::Read(op) => assert_eq!(op.path.as_deref(), Some("/DeviceA/Temperature")),
        _ => panic!("expected Read"),
    }
}

#[test]
fn omi_parse_read_all_fields() {
    let msg = parse_omi_message(
        r#"{"omi":"1.0","ttl":5,"read":{"path":"/A/B","newest":10,"oldest":5,"begin":100.0,"end":200.0,"depth":3,"interval":10.0,"callback":"http://example.com/cb"}}"#,
    )
    .unwrap();
    match &msg.operation {
        Operation::Read(op) => {
            assert_eq!(op.newest, Some(10));
            assert_eq!(op.oldest, Some(5));
            assert_eq!(op.depth, Some(3));
            assert_eq!(op.interval, Some(10.0f64.to_bits()));
            assert_eq!(op.callback.as_deref(), Some("http://example.com/cb"));
        }
        _ => panic!("expected Read"),
    }
}

#[test]
fn omi_parse_read_poll() {
    let msg = parse_omi_message(r#"{"omi":"1.0","ttl":0,"read":{"rid":"sub-123"}}"#).unwrap();
    match &msg.operation {
        Operation::Read(op) => assert_eq!(op.rid.as_deref(), Some("sub-123")),
        _ => panic!("expected Read"),
    }
}

#[test]
fn omi_parse_write_single() {
    let msg = parse_omi_message(r#"{"omi":"1.0","ttl":10,"write":{"path":"/A/B","v":22.5}}"#).unwrap();
    match &msg.operation {
        Operation::Write(WriteOp::Single { path, v, t }) => {
            assert_eq!(path, "/A/B");
            assert_eq!(*v, OmiValue::Number(22.5f64.to_bits()));
            assert!(t.is_none());
        }
        _ => panic!("expected Write Single"),
    }
}

#[test]
fn omi_parse_write_batch() {
    let msg = parse_omi_message(
        r#"{"omi":"1.0","ttl":10,"write":{"items":[{"path":"/A","v":1},{"path":"/B","v":"hi"}]}}"#,
    )
    .unwrap();
    match &msg.operation {
        Operation::Write(WriteOp::Batch { items }) => {
            assert_eq!(items.len(), 2);
            assert_eq!(items[0].path, "/A");
        }
        _ => panic!("expected Write Batch"),
    }
}

#[test]
fn omi_parse_write_tree() {
    let msg = parse_omi_message(r#"{"omi":"1.0","ttl":10,"write":{"path":"/","objects":{"Dev":{"id":"Dev"}}}}"#)
        .unwrap();
    match &msg.operation {
        Operation::Write(WriteOp::Tree { path, objects }) => {
            assert_eq!(path, "/");
            assert!(objects.iter().any(|(k, _)| k == "Dev"));
        }
        _ => panic!("expected Write Tree"),
    }
}

#[test]
fn omi_parse_delete() {
    let msg = parse_omi_message(r#"{"omi":"1.0","ttl":0,"delete":{"path":"/DeviceA"}}"#).unwrap();
    match &msg.operation {
        Operation::Delete(op) => assert_eq!(op.path, "/DeviceA"),
        _ => panic!("expected Delete"),
    }
}

#[test]
fn omi_parse_cancel() {
    let msg = parse_omi_message(r#"{"omi":"1.0","ttl":0,"cancel":{"rid":["req-1","req-2"]}}"#).unwrap();
    match &msg.operation {
        Operation::Cancel(op) => assert_eq!(op.rid, vec!["req-1", "req-2"]),
        _ => panic!("expected Cancel"),
    }
}

#[test]
fn omi_parse_response() {
    let msg = parse_omi_message(r#"{"omi":"1.0","ttl":0,"response":{"status":200,"desc":"OK"}}"#).unwrap();
    match &msg.operation {
        Operation::Response(body) => {
            assert_eq!(body.status, 200);
            assert_eq!(body.desc.as_deref(), Some("OK"));
        }
        _ => panic!("expected Response"),
    }
}

#[test]
fn omi_unknown_fields_ignored() {
    let msg = parse_omi_message(
        r#"{"omi":"1.0","ttl":0,"extra":{"nested":true},"read":{"path":"/A","unknown":[1,2]}}"#,
    )
    .unwrap();
    assert!(matches!(msg.operation, Operation::Read(_)));
}

#[test]
fn omi_reject_missing_omi() {
    assert_eq!(
        parse_omi_message(r#"{"ttl":0,"read":{"path":"/A"}}"#).unwrap_err(),
        ParseError::MissingField("omi")
    );
}

#[test]
fn omi_reject_wrong_version() {
    assert_eq!(
        parse_omi_message(r#"{"omi":"2.0","ttl":0,"read":{"path":"/A"}}"#).unwrap_err(),
        ParseError::UnsupportedVersion("2.0".into())
    );
}

#[test]
fn omi_reject_missing_ttl() {
    assert_eq!(
        parse_omi_message(r#"{"omi":"1.0","read":{"path":"/A"}}"#).unwrap_err(),
        ParseError::MissingField("ttl")
    );
}

#[test]
fn omi_reject_zero_operations() {
    assert_eq!(parse_omi_message(r#"{"omi":"1.0","ttl":0}"#).unwrap_err(), ParseError::InvalidOperationCount(0));
}

#[test]
fn omi_reject_multiple_operations() {
    assert_eq!(
        parse_omi_message(r#"{"omi":"1.0","ttl":0,"read":{"path":"/A"},"delete":{"path":"/B"}}"#).unwrap_err(),
        ParseError::InvalidOperationCount(2)
    );
}

#[test]
fn omi_reject_invalid_json() {
    assert!(matches!(parse_omi_message("not json").unwrap_err(), ParseError::InvalidJson(_)));
}

#[test]
fn omi_negative_ttl_allowed() {
    let msg = parse_omi_message(r#"{"omi":"1.0","ttl":-1,"read":{"path":"/A"}}"#).unwrap();
    assert_eq!(msg.ttl, -1);
}

#[test]
fn omi_duplicate_key_last_wins() {
    let msg = parse_omi_message(r#"{"omi":"2.0","omi":"1.0","ttl":0,"read":{"path":"/A"}}"#).unwrap();
    assert_eq!(msg.version, "1.0");
}

#[test]
fn omi_reject_read_both_path_and_rid() {
    assert_eq!(
        parse_omi_message(r#"{"omi":"1.0","ttl":0,"read":{"path":"/A","rid":"r1"}}"#).unwrap_err(),
        ParseError::MutuallyExclusive("path", "rid")
    );
}

#[test]
fn omi_reject_write_no_form() {
    assert_eq!(
        parse_omi_message(r#"{"omi":"1.0","ttl":0,"write":{"path":"/A"}}"#).unwrap_err(),
        ParseError::MissingField("v, items, or objects")
    );
}

#[test]
fn omi_reject_write_empty_items() {
    assert_eq!(
        parse_omi_message(r#"{"omi":"1.0","ttl":0,"write":{"items":[]}}"#).unwrap_err(),
        ParseError::InvalidField { field: "items", reason: "items array must not be empty".into() }
    );
}

#[test]
fn omi_reject_cancel_empty_rid() {
    assert!(matches!(
        parse_omi_message(r#"{"omi":"1.0","ttl":0,"cancel":{"rid":[]}}"#).unwrap_err(),
        ParseError::InvalidField { .. }
    ));
}

#[test]
fn omi_reject_delete_root() {
    assert!(matches!(
        parse_omi_message(r#"{"omi":"1.0","ttl":0,"delete":{"path":"/"}}"#).unwrap_err(),
        ParseError::InvalidField { .. }
    ));
}

// ----- further cases -----

#[test]
fn omi_ttl_as_whole_float_and_fraction() {
    assert_eq!(parse_omi_message(r#"{"omi":"1.0","ttl":5.0,"read":{"path":"/A"}}"#).unwrap().ttl, 5);
    assert!(matches!(
        parse_omi_message(r#"{"omi":"1.0","ttl":5.5,"read":{"path":"/A"}}"#).unwrap_err(),
        ParseError::InvalidJson(_)
    ));
}

#[test]
fn omi_trailing_content() {
    assert_eq!(
        parse_omi_message(r#"{"omi":"1.0","ttl":0,"read":{"path":"/A"}}  x"#).unwrap_err(),
        ParseError::InvalidJson("trailing content at byte 44".into())
    );
}

#[test]
fn omi_write_conflicting_forms() {
    assert_eq!(
        parse_omi_message(r#"{"omi":"1.0","ttl":0,"write":{"path":"/A","v":1,"items":[{"path":"/B","v":2}]}}"#)
            .unwrap_err(),
        ParseError::MutuallyExclusive("v", "items")
    );
    assert_eq!(
        parse_omi_message(r#"{"omi":"1.0","ttl":0,"write":{"v":1}}"#).unwrap_err(),
        ParseError::MissingField("path")
    );
}

#[test]
fn omi_write_item_missing_value_is_invalid_json() {
    assert!(matches!(
        parse_omi_message(r#"{"omi":"1.0","ttl":0,"write":{"items":[{"path":"/B"}]}}"#).unwrap_err(),
        ParseError::InvalidJson(m) if m.starts_with("missing required field 'v'")
    ));
}

#[test]
fn omi_response_batch_result() {
    let msg = parse_omi_message(
        r#"{"omi":"1.0","ttl":0,"response":{"status":207,"result":[{"path":"/A","status":200},{"path":"/B","status":404,"desc":"no"}]}}"#,
    )
    .unwrap();
    match &msg.operation {
        Operation::Response(ResponseBody { status, result: Some(ResponseResult::Batch(items)), .. }) => {
            assert_eq!(*status, 207);
            let st: Vec<&ItemStatus> = items.iter().collect();
            assert_eq!(st.len(), 2);
            assert_eq!(st[1].status, 404);
            assert_eq!(st[1].desc.as_deref(), Some("no"));
        }
        _ => panic!("expected batch response"),
    }
    assert!(matches!(
        parse_omi_message(r#"{"omi":"1.0","ttl":0,"response":{"status":70000}}"#).unwrap_err(),
        ParseError::InvalidJson(_)
    ));
}

// ----- is_successful_write_response -----

#[test]
fn successful_write_200() {
    assert!(is_successful_write_response(&response(200)));
}

#[test]
fn successful_write_201() {
    assert!(is_successful_write_response(&response(201)));
}

#[test]
fn non_success_response() {
    assert!(!is_successful_write_response(&response(404)));
}

#[test]
fn non_response_operation() {
    let msg = OmiMessage {
        version: "1.0".into(),
        ttl: 0,
        operation: Operation::Read(read_op(Some("/Foo"), None, None, None)),
    };
    assert!(!is_successful_write_response(&msg));
}

// ----- is_mutating_operation -----

#[test]
fn mutating_write_single() {
    let op = Operation::Write(WriteOp::Single { path: "/A/B".into(), v: OmiValue::Number(1.0f64.to_bits()), t: None });
    assert!(is_mutating_operation(&op));
}

#[test]
fn mutating_delete() {
    let op = Operation::Delete(DeleteOp { path: "/A".into() });
    assert!(is_mutating_operation(&op));
}

#[test]
fn mutating_cancel() {
    let op = Operation::Cancel(CancelOp { rid: vec!["req-1".into()] });
    assert!(is_mutating_operation(&op));
}

#[test]
fn mutating_subscription() {
    let op = Operation::Read(read_op(Some("/A/B"), None, None, Some(10.0)));
    assert!(is_mutating_operation(&op));
}

#[test]
fn non_mutating_read() {
    let op = Operation::Read(read_op(Some("/A/B"), None, Some(1), None));
    assert!(!is_mutating_operation(&op));
}

#[test]
fn non_mutating_poll() {
    let op = Operation::Read(read_op(None, Some("req-1"), None, None));
    assert!(!is_mutating_operation(&op));
}

#[test]
fn non_mutating_response() {
    assert!(!is_mutating_operation(&response(200).operation));
}
