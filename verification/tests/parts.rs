use std::collections::VecDeque;

use bytes::Bytes;
use selector4nix::fault::FailSchedule;
use selector4nix::stream::chunk::Chunk;
use selector4nix::stream::range::count_chunks;
use selector4nix::stream::retry::retry_backoff_ms;

#[test]
fn chunks_cover_the_file() {
    assert_eq!(count_chunks(0, 10), 0);
    assert_eq!(count_chunks(1, 10), 1);
    assert_eq!(count_chunks(10, 10), 1);
    assert_eq!(count_chunks(11, 10), 2);
    assert_eq!(count_chunks(100000, 100), 1000);
    assert_eq!(count_chunks(usize::MAX, 1), usize::MAX);
    assert_eq!(count_chunks(usize::MAX, usize::MAX), 1);
}

#[test]
fn backoff_doubles_and_stops_doubling() {
    assert_eq!(retry_backoff_ms(1), 100);
    assert_eq!(retry_backoff_ms(2), 200);
    assert_eq!(retry_backoff_ms(5), 1600);
    assert_eq!(retry_backoff_ms(6), 3200);
    assert_eq!(retry_backoff_ms(7), 3200);
    assert_eq!(retry_backoff_ms(usize::MAX), 3200);
}

fn buffer(pieces: &[&'static str]) -> VecDeque<Bytes> {
    pieces
        .iter()
        .map(|piece| Bytes::from_static(piece.as_bytes()))
        .collect()
}

#[test]
fn a_chunk_hands_out_its_pieces_in_order() {
    let mut chunk: Chunk<(), ()> = Chunk::Finished {
        buffer: buffer(&["ab", "c"]),
    };
    assert!(chunk.is_finished());
    assert!(!chunk.is_exhausted());
    assert_eq!(chunk.consume(), Some(Bytes::from_static(b"ab")));
    assert_eq!(chunk.consume(), Some(Bytes::from_static(b"c")));
    assert!(chunk.is_exhausted());
    assert_eq!(chunk.consume(), None);
}

#[test]
fn only_a_finished_chunk_is_exhausted() {
    let mut connecting: Chunk<u8, u8> = Chunk::Connecting { future: 1 };
    assert!(!connecting.is_finished());
    assert!(!connecting.is_exhausted());
    assert_eq!(connecting.consume(), None);

    let mut reconnecting: Chunk<u8, u8> = Chunk::Reconnecting {
        future: 1,
        buffer: buffer(&["x"]),
        bytes_received: 1,
        retries_used: 1,
    };
    assert_eq!(reconnecting.consume(), Some(Bytes::from_static(b"x")));
    assert!(!reconnecting.is_exhausted());

    let mut transferring: Chunk<u8, u8> = Chunk::Transferring {
        buffer: buffer(&["y"]),
        stream: 1,
        bytes_received: 1,
        retries_used: 0,
    };
    transferring.receive(Bytes::from_static(b"zz"));
    assert!(matches!(
        transferring,
        Chunk::Transferring {
            bytes_received: 3,
            ..
        }
    ));
    assert_eq!(transferring.take_buffer(), buffer(&["y", "zz"]));
    assert!(!transferring.is_exhausted());
}

#[test]
fn failures_run_out_unless_they_are_endless() {
    let mut schedule = FailSchedule::connect_fail(2, 2).add_connect_fail(3, u32::MAX);
    assert!(!schedule.connect_should_fail(0));
    assert!(schedule.connect_should_fail(2));
    assert!(schedule.connect_should_fail(2));
    assert!(!schedule.connect_should_fail(2));
    for _ in 0..5 {
        assert!(schedule.connect_should_fail(3));
    }
    assert_eq!(schedule.stream_fail_at(2, 50), None);
}

#[test]
fn transfers_fail_at_the_planned_byte_or_a_piece_before_the_end() {
    let mut schedule = FailSchedule::stream_fail(1, 3, 30).add_stream_fail(2, u32::MAX, 1);
    assert_eq!(schedule.stream_fail_at(0, 50), None);
    assert_eq!(schedule.stream_fail_at(1, 50), Some(30));
    assert_eq!(schedule.stream_fail_at(1, 20), Some(12));
    assert_eq!(schedule.stream_fail_at(1, 5), Some(0));
    assert_eq!(schedule.stream_fail_at(1, 50), None);
    for _ in 0..5 {
        assert_eq!(schedule.stream_fail_at(2, 50), Some(1));
    }
    assert!(!schedule.connect_should_fail(1));
}

#[test]
fn what_is_planned_last_counts() {
    let mut schedule = FailSchedule::connect_fail(1, 5)
        .add_connect_fail(2, 1)
        .add_stream_fail(1, 4, 3)
        .add_connect_fail(1, 1)
        .add_stream_fail(1, 1, 6);
    assert!(schedule.connect_should_fail(1));
    assert!(!schedule.connect_should_fail(1));
    assert!(schedule.connect_should_fail(2));
    assert_eq!(schedule.stream_fail_at(1, 50), Some(6));
    assert_eq!(schedule.stream_fail_at(1, 50), None);

    let mut swapped = FailSchedule::stream_fail(1, 1, 6).add_connect_fail(1, 1);
    assert!(swapped.connect_should_fail(1));
    assert!(!swapped.connect_should_fail(1));
    assert_eq!(swapped.stream_fail_at(1, 50), Some(6));
}
