use tokio_fluent::dec::decode_value;
use tokio_fluent::dec::WireValue;
use tokio_fluent::record::{Value, ValueMap};
use tokio_fluent::retry::{wait_before_attempt, RetryConfig};
use tokio_fluent::worker::{
    check_ack, AckCheck, Action, AttemptOutcome, Error, Event, Message, Record, WorkerState,
};

fn map1(k: &str, v: Value) -> ValueMap {
    let mut m = ValueMap::new();
    m.insert(k.to_string(), v);
    m
}

fn cfg(initial: u64, max: u32, max_wait: u64) -> RetryConfig {
    RetryConfig {
        initial_wait: initial,
        max,
        max_wait,
    }
}

#[test]
fn test_wait_schedule_defaults() {
    let c = cfg(500, 10, 60000);
    let want: [u64; 10] = [0, 500, 750, 1125, 1687, 2531, 3796, 5695, 8542, 12814];
    for (i, w) in want.iter().enumerate() {
        assert_eq!(wait_before_attempt(&c, i as u32), *w, "attempt {}", i);
    }
}

#[test]
fn test_wait_schedule_cap_and_monotone() {
    let c = cfg(500, 30, 10000);
    let mut prev: u64 = 0;
    for i in 1..30u32 {
        let w = wait_before_attempt(&c, i);
        assert!(w >= prev, "wait must not shrink");
        assert!(w <= 10000, "wait must not exceed the cap");
        prev = w;
    }
    assert_eq!(wait_before_attempt(&c, 9), 10000);
    assert_eq!(wait_before_attempt(&c, 29), 10000);
}

#[test]
fn test_wait_schedule_small_and_extreme() {
    let c = cfg(1, 10, u64::MAX);
    let want: [u64; 8] = [0, 1, 1, 2, 3, 5, 7, 11];
    for (i, w) in want.iter().enumerate() {
        assert_eq!(wait_before_attempt(&c, i as u32), *w, "attempt {}", i);
    }
    let zero = cfg(0, 10, 60000);
    for i in 0..10u32 {
        assert_eq!(wait_before_attempt(&zero, i), 0);
    }
    // Far past any 64-bit value the backoff pins to the cap without
    // overflowing.
    let deep = cfg(1, 200, u64::MAX);
    assert_eq!(wait_before_attempt(&deep, 200), u64::MAX);
    let big = cfg(u64::MAX, 200, u64::MAX);
    assert_eq!(wait_before_attempt(&big, 1), u64::MAX);
    assert_eq!(wait_before_attempt(&big, 150), u64::MAX);
}

fn record(tag: &str, i: i64) -> Record {
    Record::new(tag, map1("i", Value::Int(i)), i, format!("chunk-{}", i))
}

#[test]
fn test_retry_budget_exactly_max_attempts() {
    // With every write failing on a transient error, exactly `max`
    // attempts are made, with backoffs 0, 500, 750, and then the
    // record is discarded without ending the worker.
    let c = cfg(500, 3, 60000);
    let (st, act) = tokio_fluent::worker::worker_step(
        &c,
        WorkerState::Idle,
        Event::Msg(Some(Message::Record(record("t", 1)))),
    );
    assert_eq!(act, Action::Attempt { wait_ms: 0 });
    let transient = |e: &str| {
        Event::Attempt(AttemptOutcome::Transient(Error::WriteFailed(
            e.to_string(),
        )))
    };
    let (st, act) = tokio_fluent::worker::worker_step(&c, st, transient("w1"));
    assert_eq!(act, Action::Attempt { wait_ms: 500 });
    let (st, act) = tokio_fluent::worker::worker_step(&c, st, transient("w2"));
    assert_eq!(act, Action::Attempt { wait_ms: 750 });
    let (st, act) = tokio_fluent::worker::worker_step(&c, st, transient("w3"));
    assert_eq!(act, Action::DiscardAndRecv);
    assert_eq!(st, WorkerState::Idle);
}

#[test]
fn test_connection_closed_ends_worker() {
    let c = cfg(500, 3, 60000);
    let (st, _) = tokio_fluent::worker::worker_step(
        &c,
        WorkerState::Idle,
        Event::Msg(Some(Message::Record(record("t", 1)))),
    );
    let (st, act) = tokio_fluent::worker::worker_step(
        &c,
        st,
        Event::Attempt(AttemptOutcome::ConnectionClosed),
    );
    assert_eq!(st, WorkerState::Terminated);
    assert_eq!(act, Action::Exit);
}

#[test]
fn test_terminate_idempotent() {
    // The first Terminate ends the loop; anything after that, more
    // Terminate messages or channel closure included, keeps asking for
    // exit and never crashes.
    let c = cfg(500, 3, 60000);
    let (st, act) = tokio_fluent::worker::worker_step(
        &c,
        WorkerState::Idle,
        Event::Msg(Some(Message::Terminate)),
    );
    assert_eq!(st, WorkerState::Terminated);
    assert_eq!(act, Action::Exit);
    let (st, act) = tokio_fluent::worker::worker_step(
        &c,
        st,
        Event::Msg(Some(Message::Terminate)),
    );
    assert_eq!(st, WorkerState::Terminated);
    assert_eq!(act, Action::Exit);
    let (st, act) = tokio_fluent::worker::worker_step(&c, st, Event::Msg(None));
    assert_eq!(st, WorkerState::Terminated);
    assert_eq!(act, Action::Exit);
    // Channel closure alone also ends an idle worker.
    let (st, act) =
        tokio_fluent::worker::worker_step(&c, WorkerState::Idle, Event::Msg(None));
    assert_eq!(st, WorkerState::Terminated);
    assert_eq!(act, Action::Exit);
}

#[test]
fn test_fifo_under_immediate_acks() {
    // Two records then Terminate: the worker sends their encodings in
    // submission order, then exits.
    let c = cfg(500, 3, 60000);
    let msgs = vec![
        Message::Record(record("first", 1)),
        Message::Record(record("second", 2)),
        Message::Terminate,
    ];
    let mut sent_tags: Vec<String> = Vec::new();
    let mut st = WorkerState::Idle;
    for m in msgs {
        let (st1, act) = tokio_fluent::worker::worker_step(&c, st, Event::Msg(Some(m)));
        st = st1;
        match act {
            Action::Attempt { wait_ms } => {
                assert_eq!(wait_ms, 0);
                // The host would now write the bytes; the mock
                // aggregator records the tag it decodes.
                if let WorkerState::Retrying { ref rec, .. } = st {
                    let (w, _) = decode_value(&rec.record, 0).unwrap();
                    match w {
                        WireValue::Arr(elems) => match &elems[0] {
                            WireValue::Str(tag) => {
                                sent_tags.push(String::from_utf8(tag.clone()).unwrap())
                            }
                            other => panic!("tag is not a string: {:?}", other),
                        },
                        other => panic!("not an array: {:?}", other),
                    }
                } else {
                    panic!("attempt asked outside of Retrying");
                }
                let (st2, act2) = tokio_fluent::worker::worker_step(
                    &c,
                    st,
                    Event::Attempt(AttemptOutcome::Acked),
                );
                st = st2;
                assert_eq!(act2, Action::Recv);
            }
            Action::Exit => break,
            other => panic!("unexpected action: {:?}", other),
        }
    }
    assert_eq!(sent_tags, vec!["first".to_string(), "second".to_string()]);
    assert_eq!(st, WorkerState::Terminated);
}

#[test]
fn test_ack_gating() {
    // {"ack": "good"} matches chunk "good" and nothing else; a
    // mismatch is reported with the received id.
    let ack = [0x81, 0xa3, b'a', b'c', b'k', 0xa4, b'g', b'o', b'o', b'd'];
    assert_eq!(check_ack(&ack, "good"), AckCheck::Matched);
    assert_eq!(
        check_ack(&ack, "wrong"),
        AckCheck::Unmatched("good".to_string())
    );
    assert_eq!(check_ack(&ack[0..5], "good"), AckCheck::NeedMore);
    assert_eq!(check_ack(&[0xc1], "good"), AckCheck::Malformed);
}

#[test]
fn test_error_messages() {
    assert_eq!(Error::WriteFailed("boom".to_string()).message(), "boom");
    assert_eq!(Error::ReadFailed("eof".to_string()).message(), "eof");
    assert_eq!(
        Error::AckUnmatched("a".to_string(), "b".to_string()).message(),
        "request chunk and response ack did not match"
    );
    assert_eq!(Error::MaxRetriesExceeded.message(), "max retries exceeded");
    assert_eq!(Error::ConnectionClosed.message(), "connection closed");
    let ce = tokio_fluent::error::ClientError::SendError("x".to_string());
    assert_eq!(ce.message(), "x");
    let we = tokio_fluent::error::WorkerError::AckUnmatchedError("a".to_string(), "b".to_string());
    assert_eq!(we.message(), "request chunk and response ack did not match");
}

#[test]
fn test_stray_attempt_event_ignored() {
    // An attempt outcome that arrives while the worker is idle is
    // ignored: the worker just waits for the next message.
    let c = cfg(500, 3, 60000);
    let (st, act) = tokio_fluent::worker::worker_step(
        &c,
        WorkerState::Idle,
        Event::Attempt(AttemptOutcome::Acked),
    );
    assert_eq!(st, WorkerState::Idle);
    assert_eq!(act, Action::Recv);
}
