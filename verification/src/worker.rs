//! The worker's decision logic.
//!
//! The worker owns the socket and drains the submit channel. Everything
//! it decides — what a message means, how a record is encoded, whether
//! an acknowledgement matches, when to retry and when to give up — is
//! here, as a step function from state and event to state and action.
//! The host loop around it only performs the actions: receive, sleep,
//! write, read.

use crate::dec::{parse_ack, spec_read_ack, AckParse, AckRead};
use crate::record::ValueMap;
use crate::retry::{spec_wait_ms, wait_before_attempt, RetryConfig};
use crate::wire::{enc_record, encode_record_bytes, record_encodable, EncodeError};
use vstd::prelude::*;
use vstd::string::StringSliceAdditionalSpecFns;
use vstd::utf8::{encode_utf8, valid_utf8};

verus! {

/// An error in the worker's exchange with the aggregator.
#[derive(Debug, PartialEq)]
pub enum Error {
    /// A transient write failure, with its description.
    WriteFailed(String),
    /// A transient read failure while awaiting the acknowledgement.
    ReadFailed(String),
    /// An acknowledgement arrived, but for another chunk id: received,
    /// then expected.
    AckUnmatched(String, String),
    /// The retry budget for one record is exhausted.
    MaxRetriesExceeded,
    /// The aggregator closed the connection.
    ConnectionClosed,
}

impl Error {
    /// A human-readable description.
    pub fn message(&self) -> (r: String)
        ensures
            self matches Error::WriteFailed(e) ==> r@ == e@,
            self matches Error::ReadFailed(e) ==> r@ == e@,
            self is AckUnmatched ==> r@ == "request chunk and response ack did not match"@,
            self is MaxRetriesExceeded ==> r@ == "max retries exceeded"@,
            self is ConnectionClosed ==> r@ == "connection closed"@,
    {
        match self {
            Error::WriteFailed(e) => e.clone(),
            Error::ReadFailed(e) => e.clone(),
            Error::AckUnmatched(_, _) => "request chunk and response ack did not match".to_owned(),
            Error::MaxRetriesExceeded => "max retries exceeded".to_owned(),
            Error::ConnectionClosed => "connection closed".to_owned(),
        }
    }
}

/// The options map of a record: the single entry carrying the chunk id.
#[derive(Debug, PartialEq)]
pub struct Options {
    /// The chunk id: base64 of a fresh 128-bit identifier.
    pub chunk: String,
}

/// One record on its way to the aggregator.
#[derive(Debug, PartialEq)]
pub struct Record {
    /// The event category; opaque to the library.
    pub tag: String,
    /// Seconds since the Unix epoch, captured at submit time.
    pub timestamp: i64,
    /// The payload.
    pub record: ValueMap,
    /// The options map with the chunk id.
    pub options: Options,
}

/// What travels on the submit channel.
#[derive(Debug, PartialEq)]
pub enum Message {
    /// A record to deliver.
    Record(Record),
    /// Stop the worker.
    Terminate,
}

/// A record already encoded to its wire bytes, with the chunk id that
/// its acknowledgement must echo.
#[derive(Debug, PartialEq)]
pub struct SerializedRecord {
    /// The wire bytes.
    pub record: Vec<u8>,
    /// The chunk id embedded in the bytes.
    pub chunk: String,
}

impl Record {
    /// Build a record from its parts: the tag, the payload, the
    /// timestamp and the chunk id that the acknowledgement must echo.
    pub fn new(tag: &str, record: ValueMap, timestamp: i64, chunk: String) -> (r: Record)
        ensures
            r.tag@ == tag@,
            r.record == record,
            r.timestamp == timestamp,
            r.options.chunk == chunk,
    {
        Record { tag: tag.to_owned(), record, timestamp, options: Options { chunk } }
    }
}

/// Every length in the record fits its MessagePack length prefix.
pub open spec fn spec_encodable(r: Record) -> bool {
    record_encodable(r.tag@, r.record@, r.options.chunk@)
}

/// Encode a record for the wire.
pub fn encode(record: &Record) -> (r: Result<SerializedRecord, EncodeError>)
    ensures
        r is Ok <==> spec_encodable(*record),
        r matches Ok(sr) ==> sr.record@ == enc_record(
            record.tag@,
            record.timestamp,
            record.record@,
            record.options.chunk@,
        ) && sr.chunk@ == record.options.chunk@,
{
    match encode_record_bytes(
        record.tag.as_str(),
        record.timestamp,
        &record.record,
        record.options.chunk.as_str(),
    ) {
        Ok(bytes) => Ok(SerializedRecord { record: bytes, chunk: record.options.chunk.clone() }),
        Err(e) => Err(e),
    }
}

/// What an accumulated read buffer says about the awaited
/// acknowledgement.
#[derive(Debug, PartialEq)]
pub enum AckCheck {
    /// No complete acknowledgement yet: read more bytes.
    NeedMore,
    /// The acknowledgement names the expected chunk id.
    Matched,
    /// The acknowledgement names another chunk id; it is carried for
    /// diagnostics.
    Unmatched(String),
    /// The buffer is not an acknowledgement: a protocol violation.
    Malformed,
}

/// Byte equality of a vector and a slice.
fn bytes_eq(a: &Vec<u8>, b: &[u8]) -> (r: bool)
    ensures
        r == (a@ == b@),
{
    let n = a.len();
    if n != b.len() {
        return false;
    }
    let mut i: usize = 0;
    while i < n
        invariant
            n == a@.len() == b@.len(),
            i <= n,
            forall|j: int| 0 <= j < i ==> a@[j] == b@[j],
        decreases n - i,
    {
        if a[i] != b[i] {
            return false;
        }
        i += 1;
    }
    proof {
        assert(a@ =~= b@);
    }
    true
}

/// Relies on `String::from_utf8_lossy` (with `Cow::into_owned`): bytes
/// that are valid UTF-8 convert to exactly the string they encode.
#[verifier::external_body]
fn lossy_string(b: &Vec<u8>) -> (r: String)
    ensures
        valid_utf8(b@) ==> encode_utf8(r@) == b@,
{
    String::from_utf8_lossy(b).into_owned()
}

/// Examine the read buffer: a write is successful exactly when a
/// complete acknowledgement naming the expected chunk id has arrived.
pub fn check_ack(buf: &[u8], chunk: &str) -> (r: AckCheck)
    ensures
        r is NeedMore <==> spec_read_ack(buf@) is NeedMore,
        r is Malformed <==> spec_read_ack(buf@) is Malformed,
        r is Matched <==> spec_read_ack(buf@) == AckRead::Ack(encode_utf8(chunk@)),
        r matches AckCheck::Unmatched(rcv) ==> (spec_read_ack(buf@) matches AckRead::Ack(s)
            && s != encode_utf8(chunk@) && (valid_utf8(s) ==> encode_utf8(rcv@) == s)),
{
    match parse_ack(buf) {
        AckParse::NeedMore => AckCheck::NeedMore,
        AckParse::Malformed => AckCheck::Malformed,
        AckParse::Ack(bytes) => {
            if bytes_eq(&bytes, chunk.as_bytes()) {
                AckCheck::Matched
            } else {
                AckCheck::Unmatched(lossy_string(&bytes))
            }
        },
    }
}

/// A write is considered successful only on an acknowledgement whose
/// chunk id is exactly the one that was sent: a buffer acknowledging
/// any other chunk id is never read as a success.
pub proof fn lemma_ack_gating(buf: Seq<u8>, chunk: Seq<char>, other: Seq<u8>)
    requires
        spec_read_ack(buf) == AckRead::Ack(other),
        other != encode_utf8(chunk),
    ensures
        spec_read_ack(buf) != AckRead::Ack(encode_utf8(chunk)),
{
}

/// The worker's state between suspension points.
#[derive(Debug, PartialEq)]
pub enum WorkerState {
    /// Awaiting the next message.
    Idle,
    /// Delivering a record: `attempt` is the 0-based index of the
    /// attempt about to be made.
    Retrying { rec: SerializedRecord, attempt: u32 },
    /// The worker is done; final.
    Terminated,
}

/// The worker's state with the record abstracted to its bytes and
/// chunk id.
pub enum GState {
    /// Awaiting the next message.
    Idle,
    /// Delivering a record.
    Retrying { bytes: Seq<u8>, chunk: Seq<char>, attempt: nat },
    /// Final.
    Terminated,
}

/// The abstraction of a worker state.
pub open spec fn gstate_of(s: WorkerState) -> GState {
    match s {
        WorkerState::Idle => GState::Idle,
        WorkerState::Retrying { rec, attempt } => GState::Retrying {
            bytes: rec.record@,
            chunk: rec.chunk@,
            attempt: attempt as nat,
        },
        WorkerState::Terminated => GState::Terminated,
    }
}

/// What the worker observed: a channel message (`None` when the
/// channel is closed), or the outcome of a delivery attempt.
pub enum Event {
    /// The next message, or channel closure.
    Msg(Option<Message>),
    /// How the attempt the worker asked for went.
    Attempt(AttemptOutcome),
}

/// The outcome of one delivery attempt, as the host loop classified
/// it.
#[derive(Debug, PartialEq)]
pub enum AttemptOutcome {
    /// The acknowledgement matched: the record is delivered.
    Acked,
    /// The connection is gone: the worker cannot continue.
    ConnectionClosed,
    /// A transient failure: a failed write, a failed read, a mismatched
    /// acknowledgement or a malformed one.
    Transient(Error),
}

/// What the host loop must do next.
#[derive(Debug, PartialEq)]
pub enum Action {
    /// Await the next channel message.
    Recv,
    /// Sleep `wait_ms` milliseconds, then write the record and await
    /// its acknowledgement.
    Attempt { wait_ms: u64 },
    /// Drop the current record (log as appropriate), then await the
    /// next channel message.
    DiscardAndRecv,
    /// Exit the worker loop.
    Exit,
}

/// One step of the worker, on the abstracted state.
pub open spec fn spec_step(cfg: RetryConfig, st: GState, ev: Event) -> (GState, Action) {
    match st {
        GState::Terminated => (GState::Terminated, Action::Exit),
        GState::Idle => match ev {
            Event::Msg(None) => (GState::Terminated, Action::Exit),
            Event::Msg(Some(Message::Terminate)) => (GState::Terminated, Action::Exit),
            Event::Msg(Some(Message::Record(r))) => if spec_encodable(r) {
                (
                    GState::Retrying {
                        bytes: enc_record(r.tag@, r.timestamp, r.record@, r.options.chunk@),
                        chunk: r.options.chunk@,
                        attempt: 0,
                    },
                    Action::Attempt { wait_ms: 0 },
                )
            } else {
                (GState::Idle, Action::DiscardAndRecv)
            },
            Event::Attempt(_) => (GState::Idle, Action::Recv),
        },
        GState::Retrying { bytes, chunk, attempt } => match ev {
            Event::Attempt(AttemptOutcome::Acked) => (GState::Idle, Action::Recv),
            Event::Attempt(AttemptOutcome::ConnectionClosed) => (
                GState::Terminated,
                Action::Exit,
            ),
            Event::Attempt(AttemptOutcome::Transient(_)) => if attempt + 1 < cfg.max {
                (
                    GState::Retrying { bytes, chunk, attempt: attempt + 1 },
                    Action::Attempt { wait_ms: spec_wait_ms(cfg, attempt + 1) as u64 },
                )
            } else {
                (GState::Idle, Action::DiscardAndRecv)
            },
            Event::Msg(_) => (
                GState::Retrying { bytes, chunk, attempt },
                Action::Attempt { wait_ms: spec_wait_ms(cfg, attempt) as u64 },
            ),
        },
    }
}

/// One step of the worker: consume the state and the event, produce
/// the next state and the action the host loop must perform.
pub fn worker_step(cfg: &RetryConfig, state: WorkerState, event: Event) -> (r: (
    WorkerState,
    Action,
))
    requires
        cfg.wf(),
    ensures
        (gstate_of(r.0), r.1) == spec_step(*cfg, gstate_of(state), event),
{
    match state {
        WorkerState::Terminated => (WorkerState::Terminated, Action::Exit),
        WorkerState::Idle => match event {
            Event::Msg(None) => (WorkerState::Terminated, Action::Exit),
            Event::Msg(Some(Message::Terminate)) => (WorkerState::Terminated, Action::Exit),
            Event::Msg(Some(Message::Record(r))) => match encode(&r) {
                Ok(sr) => (
                    WorkerState::Retrying { rec: sr, attempt: 0 },
                    Action::Attempt { wait_ms: 0 },
                ),
                Err(_) => (WorkerState::Idle, Action::DiscardAndRecv),
            },
            Event::Attempt(_) => (WorkerState::Idle, Action::Recv),
        },
        WorkerState::Retrying { rec, attempt } => match event {
            Event::Attempt(AttemptOutcome::Acked) => (WorkerState::Idle, Action::Recv),
            Event::Attempt(AttemptOutcome::ConnectionClosed) => (
                WorkerState::Terminated,
                Action::Exit,
            ),
            Event::Attempt(AttemptOutcome::Transient(_)) => {
                if attempt < cfg.max - 1 {
                    let wait = wait_before_attempt(cfg, attempt + 1);
                    (
                        WorkerState::Retrying { rec, attempt: attempt + 1 },
                        Action::Attempt { wait_ms: wait },
                    )
                } else {
                    (WorkerState::Idle, Action::DiscardAndRecv)
                }
            },
            Event::Msg(_) => {
                let wait = wait_before_attempt(cfg, attempt);
                (WorkerState::Retrying { rec, attempt }, Action::Attempt { wait_ms: wait })
            },
        },
    }
}

/// Once terminated, the worker stays terminated and only ever asks the
/// host loop to exit: late `Terminate` messages, channel closure or
/// stray attempt outcomes are all tolerated.
pub proof fn lemma_terminate_idempotent(cfg: RetryConfig, ev: Event)
    ensures
        spec_step(cfg, GState::Terminated, ev) == (GState::Terminated, Action::Exit),
{
}

/// The abstract state after `n` transient failures in a row, starting
/// from the first attempt of a record.
pub open spec fn run_transient(cfg: RetryConfig, st: GState, e: Error, n: nat) -> GState
    decreases n,
{
    if n == 0 {
        st
    } else {
        run_transient(
            cfg,
            spec_step(cfg, st, Event::Attempt(AttemptOutcome::Transient(e))).0,
            e,
            (n - 1) as nat,
        )
    }
}

/// The retry budget: when every attempt fails with a transient error,
/// the worker is still delivering (at attempt `n`) after `n` failures
/// short of the budget, and has discarded the record and returned to
/// `Idle` after exactly `max` failures. Each state `Retrying(k)` asks
/// the host loop for exactly one write, so exactly `max` writes are
/// attempted per record.
pub proof fn lemma_retry_budget(
    cfg: RetryConfig,
    bytes: Seq<u8>,
    chunk: Seq<char>,
    e: Error,
    n: nat,
)
    requires
        cfg.max >= 1,
        n <= cfg.max,
    ensures
        run_transient(cfg, (GState::Retrying { bytes, chunk, attempt: 0 }), e, n) == if n
            < cfg.max {
            (GState::Retrying { bytes, chunk, attempt: n })
        } else {
            GState::Idle
        },
    decreases n,
{
    lemma_retry_budget_from(cfg, bytes, chunk, e, 0, n);
}

proof fn lemma_retry_budget_from(
    cfg: RetryConfig,
    bytes: Seq<u8>,
    chunk: Seq<char>,
    e: Error,
    k: nat,
    n: nat,
)
    requires
        cfg.max >= 1,
        k < cfg.max,
        k + n <= cfg.max,
    ensures
        run_transient(cfg, (GState::Retrying { bytes, chunk, attempt: k }), e, n) == if k + n
            < cfg.max {
            (GState::Retrying { bytes, chunk, attempt: (k + n) as nat })
        } else {
            GState::Idle
        },
    decreases n,
{
    if n > 0 {
        let st1 = spec_step(
            cfg,
            (GState::Retrying { bytes, chunk, attempt: k }),
            Event::Attempt(AttemptOutcome::Transient(e)),
        ).0;
        if k + 1 < cfg.max {
            lemma_retry_budget_from(cfg, bytes, chunk, e, (k + 1) as nat, (n - 1) as nat);
        } else {
            assert(st1 == GState::Idle);
            lemma_run_transient_idle(cfg, e, (n - 1) as nat);
        }
    }
}

/// After a record is discarded the worker sits in `Idle`; stray
/// attempt outcomes leave it there.
proof fn lemma_run_transient_idle(cfg: RetryConfig, e: Error, n: nat)
    ensures
        run_transient(cfg, GState::Idle, e, n) == GState::Idle,
    decreases n,
{
    if n > 0 {
        lemma_run_transient_idle(cfg, e, (n - 1) as nat);
    }
}

/// The wire bytes the worker sends, in order, when every attempt is
/// acknowledged at once, for the queue `msgs` — as the step function
/// walks it.
pub open spec fn run_queue(cfg: RetryConfig, msgs: Seq<Message>) -> Seq<Seq<u8>>
    decreases msgs.len(),
{
    if msgs.len() == 0 {
        Seq::empty()
    } else {
        let step1 = spec_step(cfg, GState::Idle, Event::Msg(Some(msgs[0])));
        match step1.0 {
            GState::Terminated => Seq::empty(),
            GState::Idle => run_queue(cfg, msgs.drop_first()),
            GState::Retrying { bytes, chunk, attempt } => seq![bytes] + run_queue(
                cfg,
                msgs.drop_first(),
            ),
        }
    }
}

/// The encodings of the records of `msgs` that precede the first
/// `Terminate`, in submission order.
pub open spec fn submitted_records(msgs: Seq<Message>) -> Seq<Seq<u8>>
    decreases msgs.len(),
{
    if msgs.len() == 0 {
        Seq::empty()
    } else {
        match msgs[0] {
            Message::Terminate => Seq::empty(),
            Message::Record(r) => if spec_encodable(r) {
                seq![enc_record(r.tag@, r.timestamp, r.record@, r.options.chunk@)]
                    + submitted_records(msgs.drop_first())
            } else {
                submitted_records(msgs.drop_first())
            },
        }
    }
}

/// First-in, first-out: when every write is acknowledged, the worker
/// sends exactly the encodable records submitted before the first
/// `Terminate`, in submission order.
pub proof fn lemma_fifo(cfg: RetryConfig, msgs: Seq<Message>)
    ensures
        run_queue(cfg, msgs) == submitted_records(msgs),
    decreases msgs.len(),
{
    if msgs.len() > 0 {
        lemma_fifo(cfg, msgs.drop_first());
    }
}

} // verus!
