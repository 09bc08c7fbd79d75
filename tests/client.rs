use sse_client::decoder::{Decoder, SseEvent};
use sse_client::driver::{Action, Driver, DriverState, Outcome};
use sse_client::session::{check_response, names_event_stream, ResponseCheck};
use sse_client::policy::{
    Constant, ExponentialBackoff, Never, RetryDecision, RetryPolicyType, DEFAULT_FACTOR_MILLI,
    INVALID_FACTOR_MESSAGE, INVALID_POLICY_MESSAGE,
};

fn event(event_type: &str, data: &str, id: Option<&str>) -> SseEvent {
    SseEvent {
        event_type: event_type.to_string(),
        data: data.to_string(),
        id: id.map(|s| s.to_string()),
    }
}

/// Feeds only failures to a fresh driver; returns the number of connection
/// attempts made and the delays waited.
fn attempts_until_end(policy: RetryPolicyType, limit: usize) -> (usize, Vec<u64>) {
    let mut driver = Driver::new(policy);
    let mut attempts = 1;
    let mut delays = Vec::new();
    for _ in 0..limit {
        match driver.on_outcome(Outcome::StreamError("refused".to_string())) {
            Action::Reconnect(d) => {
                delays.push(d);
                attempts += 1;
            }
            Action::Terminate(err) => {
                assert_eq!(err, "refused");
                assert!(driver.is_terminated());
                return (attempts, delays);
            }
            other => panic!("unexpected action {:?}", other),
        }
    }
    (attempts, delays)
}

#[test]
fn constant_policy_makes_n_plus_one_attempts() {
    for n in [0usize, 1, 3, 5] {
        let policy = RetryPolicyType::Constant(Constant { delay_ms: 250, max_retries: Some(n) });
        let (attempts, delays) = attempts_until_end(policy, 100);
        assert_eq!(attempts, n + 1);
        assert_eq!(delays, vec![250; n]);
    }
}

#[test]
fn exponential_delays_double_then_clamp() {
    let backoff = ExponentialBackoff {
        start_ms: 500,
        factor_milli: 2000,
        max_delay_ms: 5000,
        max_retries: None,
    };
    let delays: Vec<u64> = (1..=8).map(|n| backoff.delay_for(n)).collect();
    assert_eq!(delays, vec![500, 1000, 2000, 4000, 5000, 5000, 5000, 5000]);
    let policy = RetryPolicyType::Exponential(backoff);
    assert_eq!(policy.next_delay(3), RetryDecision::Retry(2000));
    assert_eq!(policy.next_delay(1_000_000), RetryDecision::Retry(5000));
}

#[test]
fn exponential_driver_delays_and_cap() {
    let policy = RetryPolicyType::Exponential(ExponentialBackoff {
        start_ms: 500,
        factor_milli: 2000,
        max_delay_ms: 5000,
        max_retries: Some(6),
    });
    let (attempts, delays) = attempts_until_end(policy, 100);
    assert_eq!(attempts, 7);
    assert_eq!(delays, vec![500, 1000, 2000, 4000, 5000, 5000]);
}

#[test]
fn exponential_fractional_factor_and_large_values() {
    let backoff = ExponentialBackoff {
        start_ms: 1000,
        factor_milli: 1500,
        max_delay_ms: 10_000,
        max_retries: None,
    };
    assert_eq!(backoff.delay_for(1), 1000);
    assert_eq!(backoff.delay_for(2), 1500);
    assert_eq!(backoff.delay_for(3), 2250);
    let huge = ExponentialBackoff {
        start_ms: u64::MAX,
        factor_milli: u64::MAX,
        max_delay_ms: u64::MAX,
        max_retries: None,
    };
    assert_eq!(huge.delay_for(5), u64::MAX);
    let capped_start = ExponentialBackoff {
        start_ms: 9000,
        factor_milli: 2000,
        max_delay_ms: 5000,
        max_retries: None,
    };
    assert_eq!(capped_start.delay_for(1), 5000);
    assert_eq!(capped_start.delay_for(0), 5000);
}

#[test]
fn never_policy_single_attempt() {
    let (attempts, delays) = attempts_until_end(RetryPolicyType::Never(Never), 100);
    assert_eq!(attempts, 1);
    assert!(delays.is_empty());

    let mut driver = Driver::new(RetryPolicyType::Never(Never));
    assert_eq!(driver.on_outcome(Outcome::Open), Action::Ignore);
    assert_eq!(
        driver.on_outcome(Outcome::StreamError("closed".to_string())),
        Action::Terminate("closed".to_string())
    );
    assert_eq!(driver.state, DriverState::Terminated);
}

#[test]
fn open_resets_the_attempt_counter() {
    let policy = RetryPolicyType::Constant(Constant { delay_ms: 10, max_retries: Some(2) });
    let mut driver = Driver::new(policy);
    assert_eq!(driver.on_outcome(Outcome::StreamError("a".to_string())), Action::Reconnect(10));
    assert_eq!(driver.on_outcome(Outcome::StreamError("b".to_string())), Action::Reconnect(10));
    assert_eq!(driver.attempts, 2);
    assert_eq!(driver.on_outcome(Outcome::Open), Action::Ignore);
    assert_eq!(driver.state, DriverState::Streaming);
    assert_eq!(driver.attempts, 0);
    let msg = event("message", "hi", None);
    assert_eq!(driver.on_outcome(Outcome::Message(msg.clone())), Action::Deliver(msg));
    assert_eq!(driver.on_outcome(Outcome::StreamError("c".to_string())), Action::Reconnect(10));
    assert_eq!(driver.state, DriverState::Connecting);
    assert_eq!(driver.on_outcome(Outcome::StreamError("d".to_string())), Action::Reconnect(10));
    assert_eq!(
        driver.on_outcome(Outcome::StreamError("e".to_string())),
        Action::Terminate("e".to_string())
    );
}

#[test]
fn cancel_during_sleep_terminates() {
    let policy = RetryPolicyType::Constant(Constant { delay_ms: 5000, max_retries: None });
    let mut driver = Driver::new(policy);
    assert_eq!(driver.on_outcome(Outcome::StreamError("down".to_string())), Action::Reconnect(5000));
    driver.cancel();
    assert!(driver.is_terminated());
    assert_eq!(driver.on_outcome(Outcome::Open), Action::Ignore);
    assert_eq!(driver.on_outcome(Outcome::StreamError("down".to_string())), Action::Ignore);
    assert_eq!(
        driver.on_outcome(Outcome::Message(event("message", "late", None))),
        Action::Ignore
    );
}

#[test]
fn invalid_policy_name_falls_back() {
    let mut diagnostics = Vec::new();
    let policy = RetryPolicyType::from_args("bogus", 5, 500, 2000, 5000, &mut diagnostics);
    assert_eq!(
        policy,
        RetryPolicyType::Exponential(ExponentialBackoff {
            start_ms: 500,
            factor_milli: 2000,
            max_delay_ms: 5000,
            max_retries: Some(5),
        })
    );
    assert_eq!(diagnostics, vec![INVALID_POLICY_MESSAGE.to_string()]);
}

#[test]
fn policy_names_ignore_case() {
    let mut diagnostics = Vec::new();
    assert_eq!(
        RetryPolicyType::from_args("CONSTANT", 3, 700, 2000, 5000, &mut diagnostics),
        RetryPolicyType::Constant(Constant { delay_ms: 700, max_retries: Some(3) })
    );
    assert_eq!(
        RetryPolicyType::from_args("Never", 3, 700, 2000, 5000, &mut diagnostics),
        RetryPolicyType::Never(Never)
    );
    assert_eq!(
        RetryPolicyType::from_args("exponential", 3, 700, 1500, 9000, &mut diagnostics),
        RetryPolicyType::Exponential(ExponentialBackoff {
            start_ms: 700,
            factor_milli: 1500,
            max_delay_ms: 9000,
            max_retries: Some(3),
        })
    );
    assert!(diagnostics.is_empty());
    RetryPolicyType::from_lowercase_name("CONSTANT", 3, 700, 2000, 5000, &mut diagnostics);
    assert_eq!(diagnostics.len(), 1);
}

#[test]
fn decode_event_and_data() {
    let mut decoder = Decoder::new();
    let events = decoder.feed(b"event: foo\ndata: bar\n\n");
    assert_eq!(events, vec![event("foo", "bar", None)]);
}

#[test]
fn decode_multi_line_data() {
    let mut decoder = Decoder::new();
    let events = decoder.feed(b"data: a\ndata: b\n\n");
    assert_eq!(events, vec![event("message", "a\nb", None)]);
}

#[test]
fn keepalive_comments_yield_nothing() {
    let mut decoder = Decoder::new();
    for _ in 0..3 {
        assert!(decoder.feed(b": keepalive\n\n").is_empty());
    }
    let events = decoder.feed(b"data: still here\n\n");
    assert_eq!(events, vec![event("message", "still here", None)]);
}

#[test]
fn chunk_boundaries_do_not_matter() {
    let body: &[u8] = b"id: 7\r\nevent: tick\r\ndata: one\r\n\r\n: note\n\ndata:two\ndata\n\n";
    let mut whole = Decoder::new();
    let expected = whole.feed(body);
    assert_eq!(
        expected,
        vec![event("tick", "one", Some("7")), event("message", "two\n", None)]
    );
    let mut bytewise = Decoder::new();
    let mut got = Vec::new();
    for b in body {
        got.extend(bytewise.feed(&[*b]));
    }
    assert_eq!(got, expected);
}

#[test]
fn partial_frame_waits_for_more() {
    let mut decoder = Decoder::new();
    assert!(decoder.feed(b"data: hel").is_empty());
    assert!(decoder.feed(b"lo\n").is_empty());
    assert_eq!(decoder.feed(b"\n"), vec![event("message", "hello", None)]);
}

#[test]
fn empty_data_line_gives_empty_data() {
    let mut decoder = Decoder::new();
    assert_eq!(decoder.feed(b"data:\n\n"), vec![event("message", "", None)]);
    assert_eq!(decoder.feed(b"data\n\n"), vec![event("message", "", None)]);
}

#[test]
fn frames_without_data() {
    let mut dropping = Decoder::new();
    assert!(dropping.feed(b"event: ping\n\n").is_empty());
    assert!(dropping.feed(b"retry: 1000\nfoo: bar\n\n").is_empty());
    let mut keeping = Decoder::with_dataless_events(true);
    assert_eq!(keeping.feed(b"event: ping\n\n"), vec![event("ping", "", None)]);
    assert!(keeping.feed(b"id: 3\n\n").is_empty());
}

#[test]
fn last_event_and_id_win_and_values_keep_extra_spaces() {
    let mut decoder = Decoder::new();
    let events = decoder.feed(b"event: a\nevent: b\nid: 1\nid: 2\ndata:  x\n\n");
    assert_eq!(events, vec![event("b", " x", Some("2"))]);
    let next = decoder.feed(b"data: y\n\n");
    assert_eq!(next, vec![event("message", "y", None)]);
}

#[test]
fn invalid_utf8_frame_is_dropped() {
    let mut decoder = Decoder::new();
    let events = decoder.feed(b"data: a\xffb\n\ndata: ok \xc3\xa9\n\nevent: \xc0\xaf\ndata: x\n\n");
    assert_eq!(events, vec![event("message", "ok \u{e9}", None)]);
    assert_eq!(decoder.feed(b"data: next\n\n"), vec![event("message", "next", None)]);
}

#[test]
fn response_check_accepts_event_streams() {
    assert_eq!(check_response(200, Some(b"text/event-stream")), ResponseCheck::Accepted);
    assert_eq!(
        check_response(204, Some(b"Text/Event-Stream; charset=utf-8")),
        ResponseCheck::Accepted
    );
    assert!(names_event_stream(b"TEXT/EVENT-STREAM"));
    assert!(!names_event_stream(b"text/event-streams"));
    assert!(!names_event_stream(b""));
}

#[test]
fn response_check_rejects_bad_status_and_type() {
    assert_eq!(check_response(404, Some(b"text/event-stream")), ResponseCheck::InvalidStatus);
    assert_eq!(check_response(301, None), ResponseCheck::InvalidStatus);
    assert_eq!(check_response(199, None), ResponseCheck::InvalidStatus);
    assert_eq!(check_response(200, None), ResponseCheck::InvalidContentType);
    assert_eq!(
        check_response(200, Some(b"application/json")),
        ResponseCheck::InvalidContentType
    );
    assert_eq!(check_response(299, Some(b"text/plain")), ResponseCheck::InvalidContentType);
}

#[test]
fn retry_field_sets_reconnection_time() {
    let mut decoder = Decoder::new();
    assert_eq!(decoder.reconnection_time(), None);
    assert!(decoder.feed(b"retry: 1500\n\n").is_empty());
    assert_eq!(decoder.reconnection_time(), Some(1500));
    let events = decoder.feed(b"retry: 2x\ndata: d\n\n");
    assert_eq!(events, vec![event("message", "d", None)]);
    assert_eq!(decoder.reconnection_time(), Some(1500));
    decoder.feed(b"retry: 99999999999999999999\n\n");
    assert_eq!(decoder.reconnection_time(), Some(1500));
    decoder.feed(b"retry: 18446744073709551615\n\n");
    assert_eq!(decoder.reconnection_time(), Some(u64::MAX));
    decoder.feed(b"retry:\n\n");
    assert_eq!(decoder.reconnection_time(), Some(u64::MAX));
    decoder.feed(b"retry: 0\n\n");
    assert_eq!(decoder.reconnection_time(), Some(0));
}

#[test]
fn reconnection_time_adjusts_policies() {
    let mut constant = RetryPolicyType::Constant(Constant { delay_ms: 100, max_retries: Some(2) });
    constant.set_reconnection_time(700);
    assert_eq!(
        constant,
        RetryPolicyType::Constant(Constant { delay_ms: 700, max_retries: Some(2) })
    );
    let mut exp = RetryPolicyType::Exponential(ExponentialBackoff {
        start_ms: 500,
        factor_milli: 2000,
        max_delay_ms: 5000,
        max_retries: None,
    });
    exp.set_reconnection_time(8000);
    assert_eq!(
        exp,
        RetryPolicyType::Exponential(ExponentialBackoff {
            start_ms: 8000,
            factor_milli: 2000,
            max_delay_ms: 8000,
            max_retries: None,
        })
    );
    exp.set_reconnection_time(1000);
    assert_eq!(exp.next_delay(2), RetryDecision::Retry(2000));
    let mut never = RetryPolicyType::Never(Never);
    never.set_reconnection_time(1000);
    assert_eq!(never, RetryPolicyType::Never(Never));
}

#[test]
fn zero_factor_falls_back_with_diagnostic() {
    let mut diagnostics = Vec::new();
    let policy = RetryPolicyType::from_args("exponential", 4, 500, 0, 5000, &mut diagnostics);
    assert_eq!(
        policy,
        RetryPolicyType::Exponential(ExponentialBackoff {
            start_ms: 500,
            factor_milli: DEFAULT_FACTOR_MILLI,
            max_delay_ms: 5000,
            max_retries: Some(4),
        })
    );
    assert_eq!(diagnostics, vec![INVALID_FACTOR_MESSAGE.to_string()]);

    let mut both = Vec::new();
    RetryPolicyType::from_args("bogus", 4, 500, 0, 5000, &mut both);
    assert_eq!(
        both,
        vec![INVALID_POLICY_MESSAGE.to_string(), INVALID_FACTOR_MESSAGE.to_string()]
    );

    let mut none = Vec::new();
    RetryPolicyType::from_args("constant", 4, 500, 0, 5000, &mut none);
    assert!(none.is_empty());
}

#[test]
fn media_type_blanks_are_trimmed() {
    assert!(names_event_stream(b"text/event-stream ;charset=utf-8"));
    assert!(names_event_stream(b" \ttext/event-stream\t"));
    assert!(!names_event_stream(b"text/ event-stream"));
    assert!(!names_event_stream(b"   ;"));
}

#[test]
fn exponential_delay_follows_the_exact_formula() {
    let slow = ExponentialBackoff { start_ms: 1, factor_milli: 1500, max_delay_ms: 5000, max_retries: None };
    assert_eq!(slow.delay_for(2), 1);
    assert_eq!(slow.delay_for(3), 2);
    assert_eq!(slow.delay_for(4), 3);
    assert_eq!(slow.delay_for(10), 38);
    assert_eq!(slow.delay_for(30), 5000);
    let shrinking = ExponentialBackoff {
        start_ms: 10_000,
        factor_milli: 500,
        max_delay_ms: 5000,
        max_retries: None,
    };
    assert_eq!(shrinking.delay_for(1), 5000);
    assert_eq!(shrinking.delay_for(2), 5000);
    assert_eq!(shrinking.delay_for(3), 2500);
    assert_eq!(shrinking.delay_for(200), 0);
    let tiny = ExponentialBackoff { start_ms: 3, factor_milli: 1200, max_delay_ms: 100, max_retries: None };
    assert_eq!(tiny.delay_for(8), 10);
    let flat = ExponentialBackoff { start_ms: 700, factor_milli: 1000, max_delay_ms: 900, max_retries: None };
    assert_eq!(flat.delay_for(1_000_000), 700);
}
