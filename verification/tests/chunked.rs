use std::sync::{Arc, Mutex};

use bytes::Bytes;
use selector4nix::fault::{FailSchedule, PIECE_LEN};
use selector4nix::stream::chunked::{ChunkedStream, ChunkedStreamArgs};
use selector4nix::stream::interface::{
    ChunkConnector, ChunkTrottler, ConnectEvent, PollAction, TransferEvent,
};

/// The number of polls for which a delayed connection stays pending.
const DELAY_POLLS: u32 = 3;

fn make_bytes(len: usize) -> Bytes {
    Bytes::from((0..len).map(|i| (i % 251) as u8).collect::<Vec<u8>>())
}

#[derive(Clone)]
struct MockConnector {
    data: Bytes,
    chunk_max_len: usize,
    schedule: Arc<Mutex<FailSchedule>>,
    requests: Arc<Mutex<Vec<(usize, usize)>>>,
}

impl ChunkConnector for MockConnector {
    type Future = MockFuture;
    type Stream = MockStream;
    type Error = String;

    fn get(&self, offset: usize, len: usize) -> MockFuture {
        self.requests.lock().unwrap().push((offset, len));
        MockFuture {
            idx: offset / self.chunk_max_len,
            slice: self.data.slice(offset..offset + len),
            schedule: Arc::clone(&self.schedule),
            polls_left: 0,
        }
    }
}

struct MockFuture {
    idx: usize,
    slice: Bytes,
    schedule: Arc<Mutex<FailSchedule>>,
    polls_left: u32,
}

impl MockFuture {
    fn poll(&mut self) -> ConnectEvent<MockStream, String> {
        if self.polls_left > 0 {
            self.polls_left -= 1;
            return ConnectEvent::Pending;
        }
        let mut schedule = self.schedule.lock().unwrap();
        if schedule.connect_should_fail(self.idx) {
            return ConnectEvent::Failed {
                error: format!("connect error at chunk {}", self.idx),
            };
        }
        let fail_at = schedule.stream_fail_at(self.idx, self.slice.len());
        ConnectEvent::Connected {
            stream: MockStream::new(self.slice.clone(), fail_at),
        }
    }
}

struct MockStream {
    data: Bytes,
    pos: usize,
    yielded_this_poll: bool,
    fail_at: Option<usize>,
}

impl MockStream {
    fn new(data: Bytes, fail_at: Option<usize>) -> Self {
        Self {
            data,
            pos: 0,
            yielded_this_poll: false,
            fail_at,
        }
    }

    fn poll(&mut self) -> TransferEvent<String> {
        if let Some(fail_at) = self.fail_at {
            if self.pos >= fail_at {
                return TransferEvent::Failed {
                    error: "stream error after partial data".to_string(),
                };
            }
        }
        if self.pos >= self.data.len() {
            return TransferEvent::End;
        }
        if self.yielded_this_poll {
            self.yielded_this_poll = false;
            return TransferEvent::Pending;
        }
        let end = (self.pos + PIECE_LEN).min(self.data.len());
        let bytes = self.data.slice(self.pos..end);
        self.pos = end;
        self.yielded_this_poll = true;
        TransferEvent::Piece { bytes }
    }
}

/// A number of permits, and others who wait in line for one.
struct Pool {
    free: usize,
    waiting: usize,
    held: usize,
    most_held: usize,
}

#[derive(Clone)]
struct MockThrottler {
    pool: Arc<Mutex<Pool>>,
}

struct MockPermit {
    pool: Arc<Mutex<Pool>>,
}

impl MockThrottler {
    fn new(permits: usize) -> Self {
        Self {
            pool: Arc::new(Mutex::new(Pool {
                free: permits,
                waiting: 0,
                held: 0,
                most_held: 0,
            })),
        }
    }
}

impl ChunkTrottler for MockThrottler {
    type Permit = MockPermit;

    fn try_acquire(&self) -> Option<MockPermit> {
        let mut pool = self.pool.lock().unwrap();
        if pool.free == 0 {
            return None;
        }
        pool.free -= 1;
        pool.held += 1;
        pool.most_held = pool.most_held.max(pool.held);
        Some(MockPermit {
            pool: Arc::clone(&self.pool),
        })
    }
}

impl Drop for MockPermit {
    fn drop(&mut self) {
        let mut pool = self.pool.lock().unwrap();
        pool.held -= 1;
        if pool.waiting > 0 {
            pool.waiting -= 1;
        } else {
            pool.free += 1;
        }
    }
}

struct Driver {
    stream: ChunkedStream<MockConnector, MockThrottler>,
    requests: Arc<Mutex<Vec<(usize, usize)>>>,
    throttler: MockThrottler,
    backoffs: Vec<u64>,
}

impl Driver {
    /// One poll: the item, nothing at the end of the stream, or an outer `None` while pending.
    fn poll(&mut self) -> Option<Option<Result<Bytes, String>>> {
        let mut action = self.stream.poll_next();
        loop {
            action = match action {
                PollAction::PollConnecting { index } => {
                    let event = self.stream.future_mut(index).unwrap().poll();
                    self.stream.poll_connecting_chunk(index, event)
                }
                PollAction::PollReconnecting { index } => {
                    let event = self.stream.future_mut(index).unwrap().poll();
                    self.stream.poll_reconnecting_chunk(index, event)
                }
                PollAction::PollTransferring { index } => {
                    let event = self.stream.stream_mut(index).unwrap().poll();
                    self.stream.poll_transferring_chunk(index, event)
                }
                PollAction::Delay { index, backoff_ms } => {
                    self.backoffs.push(backoff_ms);
                    self.stream.future_mut(index).unwrap().polls_left = DELAY_POLLS;
                    self.stream.resume(index)
                }
                PollAction::Yield { bytes } => return Some(Some(Ok(bytes))),
                PollAction::Fail { error } => return Some(Some(Err(error))),
                PollAction::Wait => return None,
                PollAction::Complete => return Some(None),
            }
        }
    }

    fn next(&mut self) -> Option<Result<Bytes, String>> {
        for _ in 0..10_000 {
            if let Some(item) = self.poll() {
                return item;
            }
        }
        panic!("the stream has stalled");
    }
}

fn make_stream(
    data_len: usize,
    chunk_max_len: usize,
    window_max_len: usize,
    max_concurrent_requests: usize,
    schedule: FailSchedule,
    retry_attempts: usize,
) -> (Driver, Bytes) {
    let data = make_bytes(data_len);
    let schedule = Arc::new(Mutex::new(schedule));
    let requests = Arc::new(Mutex::new(Vec::new()));
    let connector = MockConnector {
        data: data.clone(),
        chunk_max_len,
        schedule: Arc::clone(&schedule),
        requests: Arc::clone(&requests),
    };
    let throttler = MockThrottler::new(max_concurrent_requests);
    let initial_permit = throttler
        .try_acquire()
        .expect("a permit must be available at startup");

    let chunk0_len = chunk_max_len.min(data.len());
    let initial_fail_at = schedule.lock().unwrap().stream_fail_at(0, chunk0_len);
    let initial_chunk_stream = MockStream::new(data.slice(0..chunk0_len), initial_fail_at);

    let stream = ChunkedStream::new(ChunkedStreamArgs {
        chunk_max_len,
        bytes_total: data.len(),
        window_max_len,
        max_retries: retry_attempts,
        connector,
        throttler: throttler.clone(),
        initial_permit,
        initial_chunk_stream,
    });
    let driver = Driver {
        stream,
        requests,
        throttler,
        backoffs: Vec::new(),
    };
    (driver, data)
}

fn collect_ok(driver: &mut Driver) -> Vec<u8> {
    let mut out = Vec::new();
    while let Some(item) = driver.next() {
        match item {
            Ok(bytes) => out.extend_from_slice(&bytes),
            Err(err) => panic!("unexpected error: {err}"),
        }
    }
    out
}

fn collect_result(driver: &mut Driver) -> (Vec<u8>, Option<String>) {
    let mut out = Vec::new();
    let mut err = None;
    while let Some(item) = driver.next() {
        match item {
            Ok(bytes) => out.extend_from_slice(&bytes),
            Err(e) => {
                err = Some(e);
                break;
            }
        }
    }
    (out, err)
}

#[test]
fn single_chunk_when_chunk_larger_than_total() {
    let (mut stream, data) = make_stream(100, 256, 4, 8, FailSchedule::default(), 3);

    let out = collect_ok(&mut stream);
    assert_eq!(out, data.to_vec());
}

#[test]
fn multi_chunk_reassembles_in_order() {
    let (mut stream, data) = make_stream(100000, 100, 4, 8, FailSchedule::default(), 3);

    let out = collect_ok(&mut stream);
    assert_eq!(out, data.to_vec());
}

#[test]
fn last_chunk_is_partial() {
    let (mut stream, data) = make_stream(997, 100, 4, 8, FailSchedule::default(), 3);

    let out = collect_ok(&mut stream);
    assert_eq!(out.len(), 997);
    assert_eq!(out, data.to_vec());
}

#[test]
fn window_of_one() {
    let (mut stream, data) = make_stream(500, 50, 1, 8, FailSchedule::default(), 3);

    let out = collect_ok(&mut stream);
    assert_eq!(out, data.to_vec());
}

#[test]
fn single_permit() {
    let (mut stream, data) = make_stream(500, 50, 8, 1, FailSchedule::default(), 3);

    let out = collect_ok(&mut stream);
    assert_eq!(out, data.to_vec());
}

#[test]
fn connect_error_propagates_and_terminates() {
    let (mut stream, data) =
        make_stream(500, 50, 8, 8, FailSchedule::connect_fail(2, u32::MAX), 0);

    let (out, err) = collect_result(&mut stream);
    assert!(err.is_some());
    assert!(data.starts_with(&out));
    assert!(stream.next().is_none());
}

#[test]
fn stream_error_propagates_partial_then_terminates() {
    let (mut stream, data) =
        make_stream(500, 50, 8, 8, FailSchedule::stream_fail(3, u32::MAX, 1), 0);

    let (out, err) = collect_result(&mut stream);
    assert!(err.is_some());
    assert!(data.starts_with(&out));
    assert!(stream.next().is_none());
}

#[test]
fn connect_error_retries_then_succeeds() {
    let (mut stream, data) = make_stream(500, 50, 8, 8, FailSchedule::connect_fail(2, 2), 3);

    let out = collect_ok(&mut stream);
    assert_eq!(out, data.to_vec());
}

#[test]
fn connect_error_exhausts_retries_then_terminates() {
    let (mut stream, data) =
        make_stream(500, 50, 8, 8, FailSchedule::connect_fail(2, u32::MAX), 2);

    let (out, err) = collect_result(&mut stream);
    assert!(err.is_some());
    assert!(data.starts_with(&out));
    assert!(stream.next().is_none());
}

#[test]
fn stream_error_midway_retries_then_succeeds() {
    let (mut stream, data) = make_stream(500, 50, 8, 8, FailSchedule::stream_fail(3, 1, 30), 3);

    let out = collect_ok(&mut stream);
    assert_eq!(out, data.to_vec());
}

#[test]
fn stream_error_exhausts_retries_then_terminates() {
    let (mut stream, data) =
        make_stream(500, 50, 8, 8, FailSchedule::stream_fail(3, u32::MAX, 30), 2);

    let (out, err) = collect_result(&mut stream);
    assert!(err.is_some());
    assert!(data.starts_with(&out));
    assert!(stream.next().is_none());
}

#[test]
fn initial_chunk_stream_error_retries_then_succeeds() {
    let (mut stream, data) = make_stream(500, 50, 8, 8, FailSchedule::stream_fail(0, 1, 10), 3);

    let out = collect_ok(&mut stream);
    assert_eq!(out, data.to_vec());
}

#[test]
fn connect_failure_then_stream_failure_still_succeeds() {
    let schedule = FailSchedule::default()
        .add_stream_fail(3, 1, 30)
        .add_connect_fail(3, 1);

    let (mut stream, data) = make_stream(500, 50, 8, 8, schedule, 3);

    let out = collect_ok(&mut stream);
    assert_eq!(out, data.to_vec());
}

#[test]
fn serial_window_retries_each_chunk_independently() {
    let schedule = FailSchedule::default()
        .add_connect_fail(1, 1)
        .add_stream_fail(2, 1, 40)
        .add_connect_fail(3, 1)
        .add_stream_fail(3, 1, 10);

    let (mut stream, data) = make_stream(500, 50, 1, 8, schedule, 3);

    let out = collect_ok(&mut stream);
    assert_eq!(out, data.to_vec());
}

// Under a saturated throttler, a stream whose window momentarily holds only finished chunks must
// not release its last permit: another stream that waits in line would take it, and this one
// would end early.
#[test]
fn last_permit_retained_while_other_streams_wait() {
    const DATA_LEN: usize = 500;
    const CHUNK_LEN: usize = 50;

    let (mut stream, data) = make_stream(DATA_LEN, CHUNK_LEN, 8, 1, FailSchedule::default(), 0);
    stream.throttler.pool.lock().unwrap().waiting = 1;

    let out = collect_ok(&mut stream);
    assert_eq!(out.len(), DATA_LEN);
    assert_eq!(out, data.to_vec());
    // The permit went to the one who waits once everything had arrived.
    assert_eq!(stream.throttler.pool.lock().unwrap().waiting, 0);
}

#[test]
fn an_empty_file_ends_at_once_and_gives_its_permit_back() {
    let (mut stream, _) = make_stream(0, 50, 8, 2, FailSchedule::default(), 0);

    assert!(stream.next().is_none());
    assert!(stream.next().is_none());
    assert_eq!(stream.throttler.pool.lock().unwrap().free, 2);
    assert!(stream.requests.lock().unwrap().is_empty());
}

#[test]
fn every_chunk_but_the_first_is_requested_once_and_in_order() {
    let (mut stream, data) = make_stream(25, 10, 4, 8, FailSchedule::default(), 0);

    let out = collect_ok(&mut stream);
    assert_eq!(out, data.to_vec());
    assert_eq!(*stream.requests.lock().unwrap(), vec![(10, 10), (20, 5)]);
    assert_eq!(stream.stream.bytes_received(), 25);
}

#[test]
fn a_retry_asks_only_for_what_has_not_arrived() {
    let (mut stream, data) = make_stream(100, 50, 4, 8, FailSchedule::stream_fail(1, 1, 30), 1);

    let out = collect_ok(&mut stream);
    assert_eq!(out, data.to_vec());
    // Four pieces of eight bytes arrive before the failure is noticed.
    assert_eq!(*stream.requests.lock().unwrap(), vec![(50, 50), (82, 18)]);
    assert_eq!(stream.backoffs, vec![100]);
}

#[test]
fn retries_of_a_chunk_back_off_longer_and_longer() {
    let (mut stream, data) = make_stream(20, 10, 4, 8, FailSchedule::connect_fail(1, 8), 8);

    let out = collect_ok(&mut stream);
    assert_eq!(out, data.to_vec());
    assert_eq!(
        stream.backoffs,
        vec![100, 200, 400, 800, 1600, 3200, 3200, 3200]
    );
}

#[test]
fn a_stream_fails_with_the_error_of_the_connection_that_is_not_retried() {
    let (mut stream, _) = make_stream(500, 50, 8, 8, FailSchedule::connect_fail(2, 3), 2);

    let (_, err) = collect_result(&mut stream);
    assert_eq!(err, Some("connect error at chunk 2".to_string()));
    assert_eq!(stream.backoffs, vec![100, 200]);
    // All permits have been given back.
    assert_eq!(stream.throttler.pool.lock().unwrap().free, 8);
    assert_eq!(stream.stream.bytes_received(), 0);
}

#[test]
fn no_more_connections_are_open_than_the_window_and_the_throttler_allow() {
    let (mut narrow, data) = make_stream(500, 50, 3, 8, FailSchedule::default(), 0);
    assert_eq!(collect_ok(&mut narrow), data.to_vec());
    assert_eq!(narrow.throttler.pool.lock().unwrap().most_held, 3);

    let (mut throttled, data) = make_stream(500, 50, 8, 2, FailSchedule::default(), 0);
    assert_eq!(collect_ok(&mut throttled), data.to_vec());
    assert_eq!(throttled.throttler.pool.lock().unwrap().most_held, 2);
}

fn small_stream(max_retries: usize) -> ChunkedStream<MockConnector, MockThrottler> {
    make_stream(20, 10, 1, 1, FailSchedule::default(), max_retries)
        .0
        .stream
}

#[test]
fn an_error_after_everything_has_arrived_is_dropped() {
    let mut stream = small_stream(0);
    assert!(matches!(
        stream.poll_next(),
        PollAction::PollTransferring { index: 0 }
    ));
    let piece = make_bytes(10);
    assert!(matches!(
        stream.poll_transferring_chunk(0, TransferEvent::Piece { bytes: piece.clone() }),
        PollAction::PollTransferring { index: 0 }
    ));
    let action = stream.poll_transferring_chunk(
        0,
        TransferEvent::Failed {
            error: "reset".to_string(),
        },
    );
    assert!(matches!(action, PollAction::Yield { bytes } if bytes == piece));
}

#[test]
fn pieces_are_handed_out_while_a_chunk_waits_to_be_retried() {
    let mut stream = small_stream(1);
    stream.poll_next();
    let piece = make_bytes(4);
    stream.poll_transferring_chunk(0, TransferEvent::Piece { bytes: piece.clone() });
    let action = stream.poll_transferring_chunk(
        0,
        TransferEvent::Failed {
            error: "reset".to_string(),
        },
    );
    assert!(matches!(
        action,
        PollAction::Delay {
            index: 0,
            backoff_ms: 100
        }
    ));
    assert!(matches!(
        stream.resume(0),
        PollAction::PollReconnecting { index: 0 }
    ));
    assert!(stream.stream_mut(0).is_none());
    assert_eq!(stream.future_mut(0).unwrap().slice.len(), 6);
    let action = stream.poll_reconnecting_chunk(0, ConnectEvent::Pending);
    assert!(matches!(action, PollAction::Yield { bytes } if bytes == piece));

    // Nothing is left to hand out, and the chunk is still being retried.
    assert!(matches!(
        stream.poll_next(),
        PollAction::PollReconnecting { index: 0 }
    ));
    assert!(matches!(
        stream.poll_reconnecting_chunk(0, ConnectEvent::Pending),
        PollAction::Wait
    ));
    let action = stream.poll_reconnecting_chunk(
        0,
        ConnectEvent::Failed {
            error: "refused".to_string(),
        },
    );
    assert!(matches!(action, PollAction::Fail { error } if error == "refused"));
    assert!(matches!(stream.poll_next(), PollAction::Complete));
}

#[test]
fn the_range_of_each_chunk_of_the_window_is_known() {
    let stream = make_stream(25, 10, 4, 1, FailSchedule::default(), 0).0.stream;
    let first = stream.chunk_range(0);
    assert_eq!((first.offset, first.len), (0, 10));
    let last = stream.chunk_range(2);
    assert_eq!((last.offset, last.len), (20, 5));
    let (future, backoff_ms) = stream.chunk_retry_future(3, 7, 3);
    assert_eq!(future.slice, make_bytes(25).slice(3..10));
    assert_eq!(backoff_ms, 400);
}

#[test]
fn a_chunk_that_would_begin_where_the_file_ends_is_empty() {
    let stream = make_stream(20, 10, 4, 1, FailSchedule::default(), 0).0.stream;
    let beyond = stream.chunk_range(2);
    assert_eq!((beyond.offset, beyond.len), (20, 0));
}

#[test]
fn a_completed_stream_stays_complete() {
    let (mut stream, data) = make_stream(25, 10, 2, 2, FailSchedule::default(), 0);

    assert_eq!(collect_ok(&mut stream), data.to_vec());
    for _ in 0..3 {
        assert!(matches!(stream.stream.poll_next(), PollAction::Complete));
        assert!(matches!(stream.stream.resume(0), PollAction::Complete));
    }
    assert_eq!(stream.stream.bytes_received(), 25);
    assert_eq!(stream.requests.lock().unwrap().len(), 2);
    assert_eq!(stream.throttler.pool.lock().unwrap().free, 2);
}

#[test]
fn a_failed_stream_reports_one_error_and_holds_nothing() {
    let (mut stream, _) = make_stream(500, 50, 8, 8, FailSchedule::connect_fail(1, u32::MAX), 1);

    let (_, err) = collect_result(&mut stream);
    assert_eq!(err, Some("connect error at chunk 1".to_string()));
    let requested = stream.requests.lock().unwrap().len();
    for _ in 0..3 {
        assert!(matches!(stream.stream.poll_next(), PollAction::Complete));
    }
    assert_eq!(stream.requests.lock().unwrap().len(), requested);
    assert_eq!(stream.throttler.pool.lock().unwrap().held, 0);
}

#[test]
fn pieces_are_handed_out_as_they_arrived() {
    let (mut stream, data) = make_stream(25, 10, 4, 8, FailSchedule::default(), 0);

    let mut items = Vec::new();
    while let Some(item) = stream.next() {
        items.push(item.unwrap());
    }
    let expected: Vec<Bytes> = [(0, 8), (8, 10), (10, 18), (18, 20), (20, 25)]
        .iter()
        .map(|(from, to)| data.slice(*from..*to))
        .collect();
    assert_eq!(items, expected);
}

#[test]
fn a_chunk_may_fail_as_often_as_it_is_retried() {
    // Each of three chunks fails twice, which adds up to more than the retries of one.
    let schedule = FailSchedule::connect_fail(1, 2)
        .add_connect_fail(2, 2)
        .add_stream_fail(0, 2, 1);
    let (mut stream, data) = make_stream(60, 20, 4, 8, schedule, 2);
    assert_eq!(collect_ok(&mut stream), data.to_vec());

    let schedule = FailSchedule::connect_fail(1, 3);
    let (mut stream, _) = make_stream(60, 20, 4, 8, schedule, 2);
    let (_, err) = collect_result(&mut stream);
    assert_eq!(err, Some("connect error at chunk 1".to_string()));
}

#[test]
fn a_poll_asks_every_connection_before_it_is_over() {
    let mut stream = make_stream(20, 10, 2, 2, FailSchedule::default(), 1).0.stream;
    assert!(matches!(
        stream.poll_next(),
        PollAction::PollTransferring { index: 0 }
    ));
    assert!(matches!(
        stream.poll_transferring_chunk(0, TransferEvent::Pending),
        PollAction::PollConnecting { index: 1 }
    ));
    // The connection that is opened for the retry is polled in the same poll.
    let action = stream.poll_connecting_chunk(
        1,
        ConnectEvent::Failed {
            error: "refused".to_string(),
        },
    );
    assert!(matches!(
        action,
        PollAction::Delay {
            index: 1,
            backoff_ms: 100
        }
    ));
    assert!(matches!(
        stream.resume(1),
        PollAction::PollReconnecting { index: 1 }
    ));
    assert!(matches!(
        stream.poll_reconnecting_chunk(1, ConnectEvent::Pending),
        PollAction::Wait
    ));
    // The next poll begins with the first chunk again.
    assert!(matches!(
        stream.poll_next(),
        PollAction::PollTransferring { index: 0 }
    ));
}
