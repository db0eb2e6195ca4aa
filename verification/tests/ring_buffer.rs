use eomi_core::odf::value::{select_values, RingBuffer, Value};
use eomi_core::odf::OmiValue;

fn num(n: f64) -> OmiValue {
    OmiValue::Number(n.to_bits())
}

fn val(n: f64, t: f64) -> Value {
    Value::new(num(n), Some(t.to_bits()))
}

#[test]
fn push_within_capacity() {
    let mut rb = RingBuffer::new(5);
    rb.push(val(1.0, 100.0));
    rb.push(val(2.0, 200.0));
    rb.push(val(3.0, 300.0));
    assert_eq!(rb.len(), 3);
    assert_eq!(rb.capacity(), 5);
}

#[test]
fn push_overflow_wraps() {
    let mut rb = RingBuffer::new(3);
    rb.push(val(1.0, 100.0));
    rb.push(val(2.0, 200.0));
    rb.push(val(3.0, 300.0));
    rb.push(val(4.0, 400.0)); // overwrites val(1.0)
    assert_eq!(rb.len(), 3);

    let newest = rb.newest(10);
    assert_eq!(newest.len(), 3);
    // Newest first: 4, 3, 2
    assert_eq!(newest[0].v, num(4.0));
    assert_eq!(newest[1].v, num(3.0));
    assert_eq!(newest[2].v, num(2.0));
}

#[test]
fn newest_query() {
    let mut rb = RingBuffer::new(5);
    for i in 1..=5 {
        rb.push(val(i as f64, i as f64 * 100.0));
    }
    let result = rb.newest(2);
    assert_eq!(result.len(), 2);
    assert_eq!(result[0].v, num(5.0));
    assert_eq!(result[1].v, num(4.0));
}

#[test]
fn oldest_query() {
    let mut rb = RingBuffer::new(5);
    for i in 1..=5 {
        rb.push(val(i as f64, i as f64 * 100.0));
    }
    let result = rb.oldest(2);
    assert_eq!(result.len(), 2);
    // oldest returns oldest values but in newest-first order
    assert_eq!(result[0].v, num(2.0));
    assert_eq!(result[1].v, num(1.0));
}

#[test]
fn clear() {
    let mut rb = RingBuffer::new(5);
    rb.push(val(1.0, 100.0));
    rb.push(val(2.0, 200.0));
    rb.clear();
    assert!(rb.is_empty());
    assert_eq!(rb.len(), 0);
    assert_eq!(rb.newest(5).len(), 0);
}

#[test]
fn newest_after_overflow() {
    let mut rb = RingBuffer::new(3);
    for i in 1..=10 {
        rb.push(val(i as f64, i as f64 * 10.0));
    }
    assert_eq!(rb.len(), 3);
    let newest = rb.newest(3);
    assert_eq!(newest[0].v, num(10.0));
    assert_eq!(newest[1].v, num(9.0));
    assert_eq!(newest[2].v, num(8.0));
}

#[test]
fn ring_values_oldest_first_after_wrap() {
    let mut rb = RingBuffer::new(2);
    rb.push(val(1.0, 1.0));
    rb.push(val(2.0, 2.0));
    rb.push(val(3.0, 3.0));
    let all = rb.values_oldest_first();
    assert_eq!(all, vec![val(2.0, 2.0), val(3.0, 3.0)]);
}

#[test]
fn ring_select_limits() {
    let values: Vec<Value> = (1..=4).map(|i| val(i as f64, i as f64)).collect();
    assert_eq!(select_values(&values, Some(2), Some(1)), vec![val(4.0, 4.0), val(3.0, 3.0)]);
    assert_eq!(select_values(&values, None, Some(3)), vec![val(3.0, 3.0), val(2.0, 2.0), val(1.0, 1.0)]);
    assert_eq!(select_values(&values, None, None).len(), 4);
    assert_eq!(select_values(&values, Some(0), None).len(), 0);
}

#[test]
fn ring_newest_after_push_is_pushed() {
    let mut rb = RingBuffer::new(1);
    rb.push(val(1.0, 1.0));
    rb.push(val(7.0, 2.0));
    assert_eq!(rb.newest(1), vec![val(7.0, 2.0)]);
    assert_eq!(rb.len(), 1);
}
