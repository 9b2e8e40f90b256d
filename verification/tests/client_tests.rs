use tokio_fluent::client::{Client, Config, NopClient};
use tokio_fluent::record::{Value, ValueMap};
use tokio_fluent::worker::Message;

fn record_map(entries: Vec<(&str, Value)>) -> ValueMap {
    let mut m = ValueMap::new();
    for (k, v) in entries {
        m.insert(k.to_string(), v);
    }
    m
}

#[test]
fn test_send_with_time() {
    let (sender, mut receiver) = tokio::sync::mpsc::unbounded_channel();
    let client = Client { sender };

    let timestamp: i64 = 1234567;
    let record = record_map(vec![("age", Value::from(20i32))]);
    assert!(
        client.send_with_time("test", record, timestamp).is_ok(),
        "failed to send with time"
    );

    let got = receiver.try_recv().expect("failed to receive");
    match got {
        Message::Record(r) => {
            assert_eq!(r.tag, "test");
            assert_eq!(r.record, record_map(vec![("age", Value::from(20i32))]));
            assert_eq!(r.timestamp, 1234567);
        }
        Message::Terminate => unreachable!("got terminate message"),
    }
}

#[test]
fn test_stop() {
    let (sender, mut receiver) = tokio::sync::mpsc::unbounded_channel();
    let client = Client { sender };
    assert!(client.stop().is_ok(), "faled to stop");

    let got = receiver.try_recv().expect("failed to receive");
    match got {
        Message::Record(_) => unreachable!("got record message"),
        Message::Terminate => {}
    };
}

#[test]
fn test_client_drop_sends_terminate() {
    let (sender, mut receiver) = tokio::sync::mpsc::unbounded_channel::<Message>();
    {
        let _client = Client { sender };
    }
    // Dropping the last handle closes the channel, which the worker
    // treats exactly as a Terminate.
    let got = receiver.try_recv();
    assert!(matches!(
        got,
        Err(tokio::sync::mpsc::error::TryRecvError::Disconnected)
    ));
}

#[test]
fn test_default_config() {
    let config: Config = Default::default();
    assert_eq!(config.addr, "127.0.0.1:24224");
    assert_eq!(config.timeout_ms, 3000);
    assert_eq!(config.retry_wait, 500);
    assert_eq!(config.max_retry, 10);
    assert_eq!(config.max_retry_wait, 60000);
}

#[test]
fn test_record_map() {
    let got = record_map(vec![
        ("name", Value::from("John")),
        ("age", Value::from(22i32)),
        (
            "scores",
            Value::from(vec![Value::from(70i32), Value::from(80i32)]),
        ),
    ]);

    let mut want = ValueMap::new();
    want.insert("name".to_string(), "John".into());
    want.insert("age".to_string(), 22i32.into());
    want.insert(
        "scores".to_string(),
        vec![Value::from(70i32), Value::from(80i32)].into(),
    );
    assert_eq!(got, want);
}

#[test]
fn test_map_insert_get_replace() {
    let mut m = ValueMap::new();
    assert!(m.is_empty());
    m.insert("k".to_string(), Value::from(1i64));
    m.insert("other".to_string(), Value::from(true));
    m.insert("k".to_string(), Value::from(2i64));
    assert_eq!(m.len(), 2);
    assert_eq!(m.get("k"), Some(&Value::Int(2)));
    assert_eq!(m.get("other"), Some(&Value::Bool(true)));
    assert_eq!(m.get("missing"), None);
}

#[test]
fn test_new_with_later_value_wins() {
    let m = ValueMap::new_with(vec![
        ("a".to_string(), Value::from(1u64)),
        ("a".to_string(), Value::from(2u64)),
        ("b".to_string(), Value::from(3u64)),
    ]);
    assert_eq!(m.len(), 2);
    assert_eq!(m.get("a"), Some(&Value::Uint(2)));
    assert_eq!(m.get("b"), Some(&Value::Uint(3)));
}

#[test]
fn test_nop_client_thousand_sends() {
    // No connection is ever opened; every submit succeeds.
    let client = NopClient;
    for i in 0..1000i64 {
        let m = record_map(vec![("i", Value::from(i))]);
        assert!(client.send("nop.test", m).is_ok());
    }
    assert!(client.stop().is_ok());
}

#[test]
fn test_send_after_worker_gone_fails() {
    let (sender, receiver) = tokio::sync::mpsc::unbounded_channel::<Message>();
    drop(receiver);
    let client = Client { sender };
    let r = client.send_with_time("t", ValueMap::new(), 0);
    let e = r.expect_err("send on a closed channel must fail");
    assert_eq!(e.message(), "channel closed: the worker has terminated");
}

#[test]
fn test_chunk_ids_distinct_and_base64() {
    // Chunk uniqueness: the embedded chunk ids of many submits are
    // pairwise distinct, 24 characters of the standard base64 alphabet.
    let (sender, mut receiver) = tokio::sync::mpsc::unbounded_channel();
    let client = Client { sender };
    let n = 200;
    for i in 0..n {
        let m = record_map(vec![("i", Value::from(i as i64))]);
        assert!(client.send_with_time("t", m, i as i64).is_ok());
    }
    let mut chunks: Vec<String> = Vec::new();
    for _ in 0..n {
        match receiver.try_recv().expect("failed to receive") {
            Message::Record(r) => chunks.push(r.options.chunk),
            Message::Terminate => unreachable!("got terminate message"),
        }
    }
    for c in &chunks {
        assert_eq!(c.len(), 24);
        assert!(c
            .chars()
            .all(|ch| ch.is_ascii_alphanumeric() || ch == '+' || ch == '/' || ch == '='));
    }
    for i in 0..n {
        for j in (i + 1)..n {
            assert_ne!(chunks[i], chunks[j], "chunk ids must be pairwise distinct");
        }
    }
}

#[test]
fn test_send_stamps_current_time() {
    let (sender, mut receiver) = tokio::sync::mpsc::unbounded_channel();
    let client = Client { sender };
    let m = record_map(vec![("x", Value::from(1i64))]);
    assert!(client.send("t", m).is_ok());
    match receiver.try_recv().expect("failed to receive") {
        Message::Record(r) => {
            // A wall clock reading: positive and no earlier than 2020.
            assert!(r.timestamp > 1_577_836_800);
        }
        Message::Terminate => unreachable!("got terminate message"),
    }
}
