use eomi_core::callback::{callback_headers, deliver_with_poster, delivery_outcome, is_success_status, DeliveryOutcome};

#[test]
fn status_200_is_success() {
    assert!(is_success_status(200));
}

#[test]
fn status_201_is_success() {
    assert!(is_success_status(201));
}

#[test]
fn status_299_is_success() {
    assert!(is_success_status(299));
}

#[test]
fn status_199_is_not_success() {
    assert!(!is_success_status(199));
}

#[test]
fn status_300_is_not_success() {
    assert!(!is_success_status(300));
}

#[test]
fn status_404_is_not_success() {
    assert!(!is_success_status(404));
}

#[test]
fn status_500_is_not_success() {
    assert!(!is_success_status(500));
}

#[test]
fn headers_content_type_is_json() {
    let hdrs = callback_headers(42);
    assert_eq!(hdrs[0].0, "Content-Type");
    assert_eq!(hdrs[0].1, "application/json");
}

#[test]
fn headers_content_length_matches_body() {
    let hdrs = callback_headers(128);
    assert_eq!(hdrs[1].0, "Content-Length");
    assert_eq!(hdrs[1].1, "128");
}

#[test]
fn headers_zero_length_body() {
    let hdrs = callback_headers(0);
    assert_eq!(hdrs[1].1, "0");
}

#[test]
fn deliver_succeeds_first_attempt() {
    let mut poster = |_attempt: u32| Ok(());
    assert_eq!(deliver_with_poster(&mut poster), DeliveryOutcome::Delivered);
}

#[test]
fn deliver_retries_on_first_failure() {
    let mut calls = 0u32;
    let mut poster = |_attempt: u32| {
        calls += 1;
        if calls == 1 {
            Err("timeout".to_string())
        } else {
            Ok(())
        }
    };
    assert_eq!(deliver_with_poster(&mut poster), DeliveryOutcome::Retried);
    assert_eq!(calls, 2);
}

#[test]
fn deliver_drops_after_two_failures() {
    let mut calls = 0u32;
    let mut poster = |_attempt: u32| {
        calls += 1;
        Err(format!("err-{calls}"))
    };
    let outcome = deliver_with_poster(&mut poster);
    assert_eq!(
        outcome,
        DeliveryOutcome::Dropped("err-1".to_string(), "err-2".to_string())
    );
    assert_eq!(calls, 2);
}

#[test]
fn deliver_calls_poster_exactly_once_on_success() {
    let mut calls = 0u32;
    let mut poster = |_attempt: u32| {
        calls += 1;
        Ok(())
    };
    deliver_with_poster(&mut poster);
    assert_eq!(calls, 1);
}

#[test]
fn deliver_calls_poster_exactly_twice_on_retry() {
    let mut calls = 0u32;
    let mut poster = |_attempt: u32| {
        calls += 1;
        if calls == 1 { Err("fail".into()) } else { Ok(()) }
    };
    deliver_with_poster(&mut poster);
    assert_eq!(calls, 2);
}

#[test]
fn deliver_calls_poster_exactly_twice_on_drop() {
    let mut calls = 0u32;
    let mut poster = |_attempt: u32| {
        calls += 1;
        Err("fail".to_string())
    };
    deliver_with_poster(&mut poster);
    assert_eq!(calls, 2);
}

#[test]
fn deliver_preserves_error_messages() {
    let mut poster = |_attempt: u32| Err("connection refused".to_string());
    match deliver_with_poster(&mut poster) {
        DeliveryOutcome::Dropped(e1, e2) => {
            assert_eq!(e1, "connection refused");
            assert_eq!(e2, "connection refused");
        }
        other => panic!("expected Dropped, got {other:?}"),
    }
}

#[test]
fn deliver_captures_different_errors() {
    let mut calls = 0u32;
    let mut poster = |_attempt: u32| {
        calls += 1;
        match calls {
            1 => Err("timeout".to_string()),
            _ => Err("connection reset".to_string()),
        }
    };
    match deliver_with_poster(&mut poster) {
        DeliveryOutcome::Dropped(e1, e2) => {
            assert_eq!(e1, "timeout");
            assert_eq!(e2, "connection reset");
        }
        other => panic!("expected Dropped, got {other:?}"),
    }
}


#[test]
fn deliver_passes_attempt_numbers_in_order() {
    let mut seen = Vec::new();
    let mut poster = |attempt: u32| {
        seen.push(attempt);
        Err(format!("e{attempt}"))
    };
    assert_eq!(
        deliver_with_poster(&mut poster),
        DeliveryOutcome::Dropped("e1".to_string(), "e2".to_string())
    );
    assert_eq!(seen, vec![1, 2]);
}

#[test]
fn delivery_outcome_table() {
    assert_eq!(delivery_outcome(Ok(()), None), DeliveryOutcome::Delivered);
    assert_eq!(delivery_outcome(Err("a".into()), Some(Ok(()))), DeliveryOutcome::Retried);
    assert_eq!(
        delivery_outcome(Err("a".into()), Some(Err("b".into()))),
        DeliveryOutcome::Dropped("a".into(), "b".into())
    );
}
