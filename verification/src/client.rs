//! The client handle: the producer side of the submit channel.
//!
//! A handle owns the sending half of an unbounded channel to the
//! worker. Submitting stamps a timestamp and a fresh chunk id, builds a
//! record and enqueues it; it never performs I/O and never blocks on
//! the network. Connecting and spawning the worker belong to the host
//! application, which hands the sending half to the handle.

use crate::record::ValueMap;
use crate::worker::{Message, Record};
use tokio::sync::mpsc::UnboundedSender;
use vstd::prelude::*;

verus! {

/// A submit failure: the channel to the worker is closed.
#[derive(Debug)]
pub struct SendError {
    source: String,
}

impl View for SendError {
    type V = Seq<char>;

    closed spec fn view(&self) -> Seq<char> {
        self.source@
    }
}

impl SendError {
    /// The human-readable description of the failure.
    pub fn message(&self) -> (r: String)
        ensures
            r@ == self@,
    {
        self.source.clone()
    }
}

/// Configuration for a client.
#[derive(Debug)]
pub struct Config {
    /// The address of the fluentd server, as `host:port`.
    /// The default is `127.0.0.1:24224`.
    pub addr: String,
    /// The timeout for connecting to the fluentd server, in
    /// milliseconds. The default is 3000.
    pub timeout_ms: u64,
    /// The wait before the first retry, in milliseconds. The default
    /// is 500.
    pub retry_wait: u64,
    /// How many delivery attempts at most are made per record. The
    /// default is 10.
    pub max_retry: u32,
    /// The largest wait between retries, in milliseconds. The default
    /// is 60,000 (60 seconds).
    pub max_retry_wait: u64,
}

impl Default for Config {
    fn default() -> (r: Self)
        ensures
            r.addr@ == "127.0.0.1:24224"@,
            r.timeout_ms == 3000,
            r.retry_wait == 500,
            r.max_retry == 10,
            r.max_retry_wait == 60000,
    {
        Config {
            addr: "127.0.0.1:24224".to_owned(),
            timeout_ms: 3000,
            retry_wait: 500,
            max_retry: 10,
            max_retry_wait: 60000,
        }
    }
}

/// The operations every client offers: submit a record, stop the
/// worker.
pub trait FluentClient {
    /// Send a record under the given tag.
    fn send(&self, tag: &str, record: ValueMap) -> Result<(), SendError>;

    /// Ask the worker to stop, consuming the handle.
    fn stop(self) -> Result<(), SendError>;
}

#[verifier::external_type_specification]
#[verifier::external_body]
#[verifier::reject_recursive_types(T)]
pub struct ExUnboundedSender<T>(UnboundedSender<T>);

/// Relies on tokio's `Clone` for the sending half: a clone is another
/// handle to the same channel. Nothing further is assumed of it.
pub assume_specification<T>[ <UnboundedSender<T> as Clone>::clone ](
    sender: &UnboundedSender<T>,
) -> UnboundedSender<T>;

/// Relies on tokio's unbounded mpsc `send`: it never blocks, succeeds
/// while the receiving half lives, and hands the message back when the
/// channel is closed.
#[verifier::external_body]
fn channel_send(sender: &UnboundedSender<Message>, msg: Message) -> (r: Result<(), Message>)
    ensures
        r matches Err(back) ==> back == msg,
{
    sender.send(msg).map_err(|e| e.0)
}

/// Relies on chrono's `Local::now`: the wall-clock time, in seconds
/// since the Unix epoch. Nothing can be promised of a clock reading.
#[verifier::external_body]
fn now_seconds() -> i64 {
    chrono::Local::now().timestamp()
}

/// Relies on uuid's `new_v4`: a random 128-bit identifier, exactly 16
/// bytes. Nothing can be promised of a random value but its size.
#[verifier::external_body]
fn fresh_id_bytes() -> (r: Vec<u8>)
    ensures
        r@.len() == 16,
{
    uuid::Uuid::new_v4().as_bytes().to_vec()
}

/// The text the base64 crate's standard alphabet with padding writes
/// for a byte string.
pub uninterp spec fn base64_of(b: Seq<u8>) -> Seq<char>;

/// Relies on the base64 crate's `STANDARD` engine: the result depends
/// on the bytes alone, four characters for every started group of
/// three bytes. The length bound keeps the engine's buffer-size
/// arithmetic, which panics on overflow, far out of reach.
#[verifier::external_body]
fn base64_encode(b: &Vec<u8>) -> (r: String)
    requires
        b@.len() <= 0x1000,
    ensures
        r@ == base64_of(b@),
        r@.len() == ((b@.len() + 2) / 3) * 4,
{
    base64::Engine::encode(&base64::engine::general_purpose::STANDARD, b)
}

/// A fresh chunk id: the base64 text, 24 characters, of a new random
/// 128-bit identifier.
fn fresh_chunk() -> (r: String)
    ensures
        r@.len() == 24,
        exists|id: Seq<u8>| id.len() == 16 && r@ == base64_of(id),
{
    let id = fresh_id_bytes();
    let s = base64_encode(&id);
    proof {
        assert(id@.len() == 16 && s@ == base64_of(id@));
    }
    s
}

/// A fluentd client: a handle on the submit channel. Clones share the
/// same channel and worker.
#[derive(Debug, Clone)]
pub struct Client {
    /// The sending half of the submit channel; the worker owns the
    /// receiving half.
    pub sender: UnboundedSender<Message>,
}

impl Client {
    /// Submit a record with an explicit timestamp: stamp a fresh chunk
    /// id, build the record and enqueue it. No I/O is performed and
    /// nothing blocks on the worker. Fails only when the worker has
    /// terminated, and then says so.
    pub fn send_with_time(&self, tag: &str, record: ValueMap, timestamp: i64) -> (r: Result<
        (),
        SendError,
    >)
        ensures
            r matches Err(e) ==> e@ == "channel closed: the worker has terminated"@,
    {
        let chunk = fresh_chunk();
        let rec = Record::new(tag, record, timestamp, chunk);
        match channel_send(&self.sender, Message::Record(rec)) {
            Ok(()) => Ok(()),
            Err(_) => Err(
                SendError { source: "channel closed: the worker has terminated".to_owned() },
            ),
        }
    }

    /// Submit a record stamped with the current wall-clock time.
    pub fn send(&self, tag: &str, record: ValueMap) -> (r: Result<(), SendError>)
        ensures
            r matches Err(e) ==> e@ == "channel closed: the worker has terminated"@,
    {
        let ts = now_seconds();
        self.send_with_time(tag, record, ts)
    }

    /// Enqueue `Terminate`, consuming the handle. When every handle is
    /// gone the channel closes on its own, which the worker treats the
    /// same way.
    pub fn stop(self) -> (r: Result<(), SendError>)
        ensures
            r matches Err(e) ==> e@ == "channel closed: the worker has terminated"@,
    {
        match channel_send(&self.sender, Message::Terminate) {
            Ok(()) => Ok(()),
            Err(_) => Err(
                SendError { source: "channel closed: the worker has terminated".to_owned() },
            ),
        }
    }
}

impl FluentClient for Client {
    fn send(&self, tag: &str, record: ValueMap) -> Result<(), SendError> {
        Client::send(self, tag, record)
    }

    fn stop(self) -> Result<(), SendError> {
        Client::stop(self)
    }
}

/// A client that does nothing: every submission succeeds and is
/// discarded, no connection is ever opened.
#[derive(Debug, Clone)]
pub struct NopClient;

impl NopClient {
    /// Discard the record and report success.
    pub fn send(&self, _tag: &str, _record: ValueMap) -> (r: Result<(), SendError>)
        ensures
            r is Ok,
    {
        Ok(())
    }

    /// Report success.
    pub fn stop(self) -> (r: Result<(), SendError>)
        ensures
            r is Ok,
    {
        Ok(())
    }
}

impl FluentClient for NopClient {
    fn send(&self, tag: &str, record: ValueMap) -> Result<(), SendError> {
        NopClient::send(self, tag, record)
    }

    fn stop(self) -> Result<(), SendError> {
        NopClient::stop(self)
    }
}

} // verus!
