//! Callback delivery for subscription events: request headers, status
//! classification and the one-retry delivery policy.

use vstd::prelude::*;
use crate::text;

verus! {

broadcast use vstd::function::group_function_axioms;

/// Outcome of a callback delivery attempt.
#[derive(Debug, PartialEq)]
pub enum DeliveryOutcome {
    /// Delivered on first attempt.
    Delivered,
    /// Failed first attempt, succeeded on retry.
    Retried,
    /// Failed both attempts; contains the two error strings.
    Dropped(String, String),
}

/// Build the HTTP headers for a callback POST:
/// `[("Content-Type", "application/json"), ("Content-Length", "<len>")]`.
pub fn callback_headers(body_len: usize) -> (r: [(&'static str, String); 2])
    ensures
        r[0].0@ == "Content-Type"@,
        r[0].1@ == "application/json"@,
        r[1].0@ == "Content-Length"@,
        r[1].1@ == text::ascii_chars(text::decimal_digits(body_len as nat)),
{
    let ct = text::to_string("application/json");
    let len = text::decimal_string(body_len as u64);
    [("Content-Type", ct), ("Content-Length", len)]
}

/// Whether an HTTP status code indicates success (2xx).
pub fn is_success_status(status: u16) -> (r: bool)
    ensures
        r == (200 <= status < 300),
{
    200 <= status && status < 300
}

/// The outcome of a delivery from the results of its attempts: the first
/// result, and the second where the first failed.
pub open spec fn delivery_spec(first: Result<(), String>, second: Result<(), String>) -> DeliveryOutcome {
    match first {
        Ok(_) => DeliveryOutcome::Delivered,
        Err(e1) => match second {
            Ok(_) => DeliveryOutcome::Retried,
            Err(e2) => DeliveryOutcome::Dropped(e1, e2),
        },
    }
}

/// The outcome of a delivery whose first attempt gave `first` and whose
/// second attempt (made only when the first failed) gave `second`.
pub fn delivery_outcome(first: Result<(), String>, second: Option<Result<(), String>>) -> (r: DeliveryOutcome)
    requires
        first is Err ==> second is Some,
    ensures
        r == delivery_spec(
            first,
            match second {
                Some(s) => s,
                None => Ok(()),
            },
        ),
{
    match first {
        Ok(()) => DeliveryOutcome::Delivered,
        Err(e1) => match second {
            Some(Ok(())) => DeliveryOutcome::Retried,
            Some(Err(e2)) => DeliveryOutcome::Dropped(e1, e2),
            None => DeliveryOutcome::Delivered,
        },
    }
}

/// Deliver a callback with one retry, using `poster` for the actual HTTP
/// call; the poster is given the attempt number (1, then 2). `Delivered`
/// when the first attempt succeeds, `Retried` when only the second does,
/// `Dropped` with both errors in the order of the attempts when both fail.
/// The poster is called at most twice, the second time only after a failure.
pub fn deliver_with_poster<F: FnMut(u32) -> Result<(), String>>(poster: &mut F) -> (r: DeliveryOutcome)
    requires
        forall|f: F, n: u32| call_requires(f, (n,)),
    ensures
        exists|o1: Result<(), String>|
            #![trigger call_ensures(*old(poster), (1u32,), o1)]
            call_ensures(*old(poster), (1u32,), o1) && match o1 {
                Ok(_) => r == DeliveryOutcome::Delivered,
                Err(_) => exists|o2: Result<(), String>|
                    #![trigger call_ensures(*old(poster), (2u32,), o2)]
                    call_ensures(*old(poster), (2u32,), o2) && r == delivery_spec(o1, o2),
            },
{
    let first = poster(1);
    let second = match &first {
        Ok(()) => None,
        Err(_) => Some(poster(2)),
    };
    delivery_outcome(first, second)
}

} // verus!
