use eomi_core::http::{build_read_op, OmiReadParams};
use eomi_core::json::odf_writer::{write_info_item, write_object_with_depth, write_omi_value, write_value};
use eomi_core::json::omi_writer::{message_json_bytes, message_writable, write_read_op, write_write_single};
use eomi_core::json::serializer::{JsonWriter, ToJson};
use eomi_core::odf::object::{InfoItem, Object};
use eomi_core::odf::value::Value;
use eomi_core::odf::OmiValue;
use eomi_core::omi::{
    CancelOp, DeleteOp, ItemStatus, OmiMessage, Operation, ReadOp, ResponseBody, ResponseResult,
    ResultPayload, WriteItem, WriteOp,
};

fn num_table(values: &[f64]) -> Vec<(u64, String)> {
    values.iter().map(|v| (v.to_bits(), format!("{:?}", v))).collect()
}

fn text(w: JsonWriter) -> String {
    w.into_string()
}

#[test]
fn build_read_op_defaults() {
    let msg = build_read_op("/Sensor/Temp", &OmiReadParams::default());
    match &msg.operation {
        Operation::Read(op) => {
            assert_eq!(op.path.as_deref(), Some("/Sensor/Temp"));
            assert_eq!(op.newest, None);
            assert_eq!(op.oldest, None);
            assert_eq!(op.begin, None);
            assert_eq!(op.end, None);
            assert_eq!(op.depth, None);
        }
        _ => panic!("expected Read"),
    }
}

#[test]
fn build_read_op_with_params() {
    let params = OmiReadParams {
        newest: Some(5),
        oldest: Some(1),
        begin: Some(100.0f64.to_bits()),
        end: Some(200.0f64.to_bits()),
        depth: Some(3),
    };
    let msg = build_read_op("/A/B", &params);
    match &msg.operation {
        Operation::Read(op) => {
            assert_eq!(op.newest, Some(5));
            assert_eq!(op.oldest, Some(1));
            assert_eq!(op.begin, Some(100.0f64.to_bits()));
            assert_eq!(op.end, Some(200.0f64.to_bits()));
            assert_eq!(op.depth, Some(3));
        }
        _ => panic!("expected Read"),
    }
    assert_eq!(msg.version, "1.0");
    assert_eq!(msg.ttl, 0);
}

#[test]
fn omi_values_by_number_table() {
    let nums = num_table(&[22.5]);
    let mut w = JsonWriter::new();
    w.begin_array();
    write_omi_value(&mut w, &OmiValue::Null, &nums);
    write_omi_value(&mut w, &OmiValue::Bool(true), &nums);
    write_omi_value(&mut w, &OmiValue::Number(22.5f64.to_bits()), &nums);
    write_omi_value(&mut w, &OmiValue::Number(7.0f64.to_bits()), &nums);
    write_omi_value(&mut w, &OmiValue::Str("a\"b".to_string()), &nums);
    w.end_array();
    assert_eq!(text(w), r#"[null,true,22.5,null,"a\"b"]"#);
}

#[test]
fn value_with_and_without_time() {
    let nums = num_table(&[1.0, 100.0]);
    let mut w = JsonWriter::new();
    w.begin_array();
    write_value(&mut w, &Value::new(OmiValue::Number(1.0f64.to_bits()), Some(100.0f64.to_bits())), &nums);
    write_value(&mut w, &Value::new(OmiValue::Bool(false), None), &nums);
    w.end_array();
    assert_eq!(text(w), r#"[{"v":1.0,"t":100.0},{"v":false}]"#);
}

#[test]
fn info_item_values_newest_first() {
    let nums = num_table(&[1.0, 2.0]);
    let mut item = InfoItem::new(4);
    item.type_uri = Some("temp".to_string());
    item.add_value(OmiValue::Number(1.0f64.to_bits()), None);
    item.add_value(OmiValue::Number(2.0f64.to_bits()), None);
    let mut w = JsonWriter::new();
    write_info_item(&mut w, &item, &nums);
    assert_eq!(text(w), r#"{"type":"temp","values":[{"v":2.0},{"v":1.0}]}"#);
}

#[test]
fn empty_info_item_is_empty_object() {
    let item = InfoItem::new(2);
    let mut w = JsonWriter::new();
    write_info_item(&mut w, &item, &Vec::new());
    assert_eq!(text(w), "{}");
}

fn sample_object() -> Object {
    let mut root = Object::new("Dev");
    let mut item = InfoItem::new(2);
    item.add_value(OmiValue::Bool(true), None);
    root.add_item("On".to_string(), item);
    let mut child = Object::new("Sub");
    child.add_item("X".to_string(), InfoItem::new(1));
    root.add_child(child);
    root
}

#[test]
fn object_depth_limits() {
    let obj = sample_object();
    let mut w = JsonWriter::new();
    write_object_with_depth(&mut w, &obj, 0, &Vec::new());
    assert_eq!(text(w), r#"{"id":"Dev"}"#);

    let mut w = JsonWriter::new();
    write_object_with_depth(&mut w, &obj, 1, &Vec::new());
    assert_eq!(
        text(w),
        r#"{"id":"Dev","items":{"On":{"values":[{"v":true}]}},"objects":{"Sub":{"id":"Sub"}}}"#
    );

    let mut w = JsonWriter::new();
    write_object_with_depth(&mut w, &obj, usize::MAX, &Vec::new());
    assert_eq!(
        text(w),
        r#"{"id":"Dev","items":{"On":{"values":[{"v":true}]}},"objects":{"Sub":{"id":"Sub","items":{"X":{}}}}}"#
    );
}

#[test]
fn read_op_body_with_number_texts() {
    let mut w = JsonWriter::new();
    write_read_op(&mut w, Some("/A"), None, Some(3), None, Some("1.5"), None, None, Some("10.0"), Some("http://cb"));
    assert_eq!(text(w), r#"{"path":"/A","newest":3,"begin":1.5,"interval":10.0,"callback":"http://cb"}"#);
}

#[test]
fn write_single_body() {
    let nums = num_table(&[3.0, 5.0]);
    let mut w = JsonWriter::new();
    write_write_single(&mut w, "/A/B", &OmiValue::Number(3.0f64.to_bits()), Some(5.0f64.to_bits()), &nums);
    assert_eq!(text(w), r#"{"path":"/A/B","v":3.0,"t":5.0}"#);
}

fn message(op: Operation) -> OmiMessage {
    OmiMessage { version: "1.0".to_string(), ttl: 10, operation: op }
}

fn bytes_text(m: &OmiMessage, nums: &Vec<(u64, String)>) -> String {
    String::from_utf8(message_json_bytes(m, nums)).unwrap()
}

#[test]
fn message_read() {
    let op = ReadOp {
        path: Some("/A".to_string()),
        rid: None,
        newest: None,
        oldest: None,
        begin: Some(2.5f64.to_bits()),
        end: None,
        depth: Some(1),
        interval: None,
        callback: None,
    };
    let nums = num_table(&[2.5]);
    assert_eq!(
        bytes_text(&message(Operation::Read(op)), &nums),
        r#"{"omi":"1.0","ttl":10,"read":{"path":"/A","begin":2.5,"depth":1}}"#
    );
}

#[test]
fn message_write_batch() {
    let items = vec![
        WriteItem { path: "/A".to_string(), v: OmiValue::Bool(true), t: None },
        WriteItem { path: "/B".to_string(), v: OmiValue::Str("x".to_string()), t: None },
    ];
    assert_eq!(
        bytes_text(&message(Operation::Write(WriteOp::Batch { items })), &Vec::new()),
        r#"{"omi":"1.0","ttl":10,"write":{"items":[{"path":"/A","v":true},{"path":"/B","v":"x"}]}}"#
    );
}

#[test]
fn message_write_tree() {
    let objects = vec![("Dev".to_string(), sample_object())];
    assert!(message_writable(&message(Operation::Write(WriteOp::Tree { path: "/".to_string(), objects: vec![("Dev".to_string(), sample_object())] }))));
    assert_eq!(
        bytes_text(&message(Operation::Write(WriteOp::Tree { path: "/".to_string(), objects })), &Vec::new()),
        r#"{"omi":"1.0","ttl":10,"write":{"path":"/","objects":{"Dev":{"id":"Dev","items":{"On":{"values":[{"v":true}]}},"objects":{"Sub":{"id":"Sub","items":{"X":{}}}}}}}}"#
    );
}

#[test]
fn message_delete_and_cancel() {
    let del = message(Operation::Delete(DeleteOp { path: "/A".to_string() }));
    assert_eq!(bytes_text(&del, &Vec::new()), r#"{"omi":"1.0","ttl":10,"delete":{"path":"/A"}}"#);
    let cancel = message(Operation::Cancel(CancelOp { rid: vec!["r1".to_string(), "r2".to_string()] }));
    assert_eq!(bytes_text(&cancel, &Vec::new()), r#"{"omi":"1.0","ttl":10,"cancel":{"rid":["r1","r2"]}}"#);
}

#[test]
fn message_response_batch_and_values() {
    let batch = ResponseBody {
        status: 200,
        rid: None,
        desc: None,
        result: Some(ResponseResult::Batch(vec![
            ItemStatus { path: "/A".to_string(), status: 200, desc: None },
            ItemStatus { path: "/B".to_string(), status: 404, desc: Some("missing".to_string()) },
        ])),
    };
    assert_eq!(
        bytes_text(&message(Operation::Response(batch)), &Vec::new()),
        r#"{"omi":"1.0","ttl":10,"response":{"status":200,"result":[{"path":"/A","status":200},{"path":"/B","status":404,"desc":"missing"}]}}"#
    );
    let nums = num_table(&[21.0, 50.0]);
    let read = ResponseBody {
        status: 200,
        rid: Some("r9".to_string()),
        desc: None,
        result: Some(ResponseResult::Single(ResultPayload::ReadValues {
            path: "/T".to_string(),
            values: vec![Value::new(OmiValue::Number(21.0f64.to_bits()), Some(50.0f64.to_bits()))],
        })),
    };
    assert_eq!(
        bytes_text(&message(Operation::Response(read)), &nums),
        r#"{"omi":"1.0","ttl":10,"response":{"status":200,"rid":"r9","result":{"path":"/T","values":[{"v":21.0,"t":50.0}]}}}"#
    );
    let empty = ResponseBody { status: 201, rid: None, desc: None, result: Some(ResponseResult::Single(ResultPayload::Null)) };
    assert_eq!(
        bytes_text(&message(Operation::Response(empty)), &Vec::new()),
        r#"{"omi":"1.0","ttl":10,"response":{"status":201,"result":null}}"#
    );
}

#[test]
fn into_string_gives_text() {
    let mut w = JsonWriter::new();
    w.begin_object();
    w.field_str("k", "é");
    w.field_f64_opt("n", Some("1.5"));
    w.field_f64_opt("m", None);
    w.end_object();
    assert_eq!(w.into_string(), "{\"k\":\"é\",\"n\":1.5}");
}

#[test]
fn delete_op_to_json_string() {
    let op = DeleteOp { path: "/Dev/Ä".to_string() };
    assert_eq!(op.to_json_string(), "{\"path\":\"/Dev/Ä\"}");
    let status = ItemStatus { path: "/A".to_string(), status: 200, desc: Some("ok".to_string()) };
    assert_eq!(status.to_json_string(), r#"{"path":"/A","status":200,"desc":"ok"}"#);
}
