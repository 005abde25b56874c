//! What each step makes of a stream, field by field.
use bytes::Bytes;
use vstd::arithmetic::power2;
use vstd::prelude::*;

use crate::stream::chunk::ChunkView;
use crate::stream::chunked::ChunkedStreamArgs;
use crate::stream::interface::{
    ChunkConnector, ChunkTrottler, ConnectEvent, PollAction, TransferEvent,
};
use crate::stream::model::StreamView;
use crate::stream::piece;
use crate::stream::preserve;
use crate::stream::range;
use crate::stream::window;

verus! {

/// A stream begins with the file, the limits and the connector it was made with, and has neither
/// received nor handed out anything. The first chunk is being transferred, over the connection
/// and under the permit that came with it; a file without bytes needs neither.
pub proof fn law_a_stream_begins_with_its_first_chunk<C: ChunkConnector, T: ChunkTrottler>(
    args: ChunkedStreamArgs<C, T>,
)
    ensures
        args.initial().chunk_max_len == args.chunk_max_len,
        args.initial().bytes_total == args.bytes_total,
        args.initial().window_max_len == args.window_max_len,
        args.initial().max_retries == args.max_retries,
        args.initial().connector == args.connector,
        args.initial().throttler == args.throttler,
        args.initial().bytes_consumed == 0,
        args.initial().bytes_received == 0,
        args.initial().window_offset == 0,
        args.bytes_total == 0 ==> args.initial().window.len() == 0
            && args.initial().permits.len() == 0,
        args.bytes_total > 0 ==> {
            &&& args.initial().permits == seq![args.initial_permit]
            &&& args.initial().window.len() == 1
            &&& args.initial().window[0] matches ChunkView::Transferring {
                buffer,
                stream,
                bytes_received,
                retries_used,
            } && {
                &&& buffer.len() == 0
                &&& stream == args.initial_chunk_stream
                &&& bytes_received == 0
                &&& retries_used == 0
            }
        },
{
}

/// The chunks that hold a connection are those that are not finished.
proof fn lemma_in_flight<F, S>(chunks: Seq<ChunkView<F, S>>)
    ensures
        window::in_flight_in(chunks) == chunks.filter(
            |c: ChunkView<F, S>| !(c is Finished),
        ).len(),
    decreases chunks.len(),
{
    reveal(Seq::filter);
    let n = chunks.map_values(|c: ChunkView<F, S>| c.in_flight());
    if chunks.len() > 0 {
        lemma_in_flight(chunks.drop_last());
        assert(n.drop_last() =~= chunks.drop_last().map_values(
            |c: ChunkView<F, S>| c.in_flight(),
        ));
    } else {
        assert(n.len() == 0);
    }
}

/// What is the same in the stream with the chunks launched and in the stream at the end of the
/// step: everything but the pieces of the first chunk.
proof fn lemma_resumed<C: ChunkConnector, T: ChunkTrottler>(
    launched: StreamView<C, T>,
    from: int,
    after: StreamView<C, T>,
    action: PollAction<C::Error>,
)
    requires
        launched.resumes(from, after, action),
    ensures
        after.window.len() == launched.window.len(),
        after.window_offset == launched.window_offset,
        after.permits == launched.permits,
        window::in_flight_in(after.window) == window::in_flight_in(launched.window),
        forall|i: int|
            1 <= i < after.window.len() ==> #[trigger] after.window[i] == launched.window[i],
        forall|i: int|
            0 <= i < after.window.len() && launched.window[i] is Connecting
                ==> #[trigger] after.window[i] == launched.window[i],
{
    if action is Yield {
        window::lemma_update(launched.window, 0, after.window[0]);
    }
}

/// After a poll every chunk of the file has been launched, or the window is as long as it may be,
/// or the throttler refused a permit while every permit held covered a connection.
pub proof fn law_a_poll_launches_all_it_can<C: ChunkConnector, T: ChunkTrottler>(
    s: StreamView<C, T>,
    after: StreamView<C, T>,
    action: PollAction<C::Error>,
)
    requires
        s.wf(),
        s.polls(after, action),
    ensures
        ({
            let connections = after.window.filter(
                |c: ChunkView<C::Future, C::Stream>| !(c is Finished),
            ).len();
            ||| (after.window_offset + after.window.len()) * s.chunk_max_len >= s.bytes_total
            ||| after.window.len() == s.window_max_len
            ||| {
                &&& after.permits.len() == connections
                &&& call_ensures(T::try_acquire, (&s.throttler,), None::<T::Permit>)
            }
        }),
{
    let stripped = s.stripped();
    let launched = choose|launched: StreamView<C, T>| #[trigger]
        stripped.launches(launched) && launched.resumes(0, after, action);
    preserve::lemma_stripped(s);
    preserve::lemma_launches_some(stripped, launched);
    lemma_resumed(launched, 0, after, action);
    lemma_in_flight(after.window);
    range::lemma_chunk_count(
        s.bytes_total,
        s.chunk_max_len,
        after.window_offset + after.window.len(),
    );
}

/// A poll keeps the permits held and takes as many more as connections are without one: a permit
/// is asked for only when none is free.
pub proof fn law_a_poll_takes_no_permit_it_does_not_need<C: ChunkConnector, T: ChunkTrottler>(
    s: StreamView<C, T>,
    after: StreamView<C, T>,
    action: PollAction<C::Error>,
)
    requires
        s.wf(),
        s.polls(after, action),
    ensures
        s.permits.is_prefix_of(after.permits),
        ({
            let connections = after.window.filter(
                |c: ChunkView<C::Future, C::Stream>| !(c is Finished),
            ).len();
            after.permits.len() == if connections <= s.permits.len() {
                s.permits.len()
            } else {
                connections
            }
        }),
        forall|i: int|
            s.permits.len() <= i < after.permits.len() ==> call_ensures(
                T::try_acquire,
                (&s.throttler,),
                Some(#[trigger] after.permits[i]),
            ),
{
    let stripped = s.stripped();
    let launched = choose|launched: StreamView<C, T>| #[trigger]
        stripped.launches(launched) && launched.resumes(0, after, action);
    preserve::lemma_stripped(s);
    preserve::lemma_launches_some(stripped, launched);
    lemma_resumed(launched, 0, after, action);
    lemma_in_flight(after.window);
    assert(s.permits =~= after.permits.subrange(0, s.permits.len() as int));
}

/// A poll asks the connector, for each chunk that it launches, for the bytes of the file from
/// where the chunk begins: as many as a chunk may have, or those that are left of the file.
pub proof fn law_a_launched_chunk_asks_for_its_bytes<C: ChunkConnector, T: ChunkTrottler>(
    s: StreamView<C, T>,
    after: StreamView<C, T>,
    action: PollAction<C::Error>,
    i: int,
)
    requires
        s.wf(),
        s.polls(after, action),
        0 <= i < after.window.len(),
        after.window_offset + i >= s.window_offset + s.window.len(),
    ensures
        ({
            let offset = (after.window_offset + i) * s.chunk_max_len;
            let left = s.bytes_total - offset;
            let len = if left < s.chunk_max_len {
                left
            } else {
                s.chunk_max_len as int
            };
            &&& 0 <= offset <= usize::MAX
            &&& 0 < len <= usize::MAX
            &&& after.window[i] matches ChunkView::Connecting { future } && call_ensures(
                C::get,
                (&s.connector, offset as usize, len as usize),
                future,
            )
        }),
{
    let stripped = s.stripped();
    let launched = choose|launched: StreamView<C, T>| #[trigger]
        stripped.launches(launched) && launched.resumes(0, after, action);
    preserve::lemma_stripped(s);
    preserve::lemma_stripped_window(s);
    preserve::lemma_launches_some(stripped, launched);
    lemma_resumed(launched, 0, after, action);
    assert(launched.is_launched(i));
    range::lemma_chunk_count(
        s.bytes_total,
        s.chunk_max_len,
        (after.window_offset + i) as nat,
    );
}

/// A poll takes chunks out of the window from its start, just those that are finished and have no
/// piece left. It changes no other chunk, except that it takes the piece that it hands out, and
/// nothing else of the stream but the permits.
pub proof fn law_a_poll_takes_exhausted_chunks_out<C: ChunkConnector, T: ChunkTrottler>(
    s: StreamView<C, T>,
    after: StreamView<C, T>,
    action: PollAction<C::Error>,
)
    requires
        s.wf(),
        s.polls(after, action),
    ensures
        after.chunk_max_len == s.chunk_max_len,
        after.bytes_total == s.bytes_total,
        after.bytes_received == s.bytes_received,
        after.window_max_len == s.window_max_len,
        after.max_retries == s.max_retries,
        after.connector == s.connector,
        after.throttler == s.throttler,
        s.window_offset <= after.window_offset <= s.window_offset + s.window.len(),
        s.window_offset + s.window.len() <= after.window_offset + after.window.len(),
        forall|i: int|
            0 <= i < after.window_offset - s.window_offset ==> (#[trigger] s.window[i] matches
                ChunkView::Finished { buffer } && buffer.len() == 0),
        after.window_offset < s.window_offset + s.window.len() ==> !(s.window[after.window_offset
            - s.window_offset] matches ChunkView::Finished { buffer } && buffer.len() == 0),
        forall|i: int|
            1 <= i < s.window_offset + s.window.len() - after.window_offset
                ==> #[trigger] after.window[i] == s.window[after.window_offset - s.window_offset
                + i],
        !(action is Yield) ==> after.bytes_consumed == s.bytes_consumed && (after.window_offset
            < s.window_offset + s.window.len() ==> after.window[0]
            == s.window[after.window_offset - s.window_offset]),
{
    let stripped = s.stripped();
    let launched = choose|launched: StreamView<C, T>| #[trigger]
        stripped.launches(launched) && launched.resumes(0, after, action);
    preserve::lemma_stripped(s);
    preserve::lemma_stripped_window(s);
    lemma_stripped_exhausted(s);
    lemma_resumed(launched, 0, after, action);
    assert forall|i: int| 0 <= i < stripped.window.len() implies #[trigger] launched.window[i]
        == s.window[after.window_offset - s.window_offset + i] by {
        assert(launched.window[i] == launched.window.take(stripped.window.len() as int)[i]);
    }
}

/// The chunks that are taken out are finished and have no piece left.
proof fn lemma_stripped_exhausted<C: ChunkConnector, T: ChunkTrottler>(s: StreamView<C, T>)
    ensures
        forall|i: int|
            0 <= i < s.stripped().window_offset - s.window_offset ==> (#[trigger] s.window[i]
                matches ChunkView::Finished { buffer } && buffer.len() == 0),
    decreases s.window.len(),
{
    if s.window.len() > 0 && s.window[0].is_exhausted() {
        let next = StreamView {
            window: s.window.drop_first(),
            window_offset: s.window_offset + 1,
            ..s
        };
        lemma_stripped_exhausted(next);
        preserve::lemma_stripped_window(s);
        assert forall|i: int| 0 <= i < s.stripped().window_offset - s.window_offset implies (
        #[trigger] s.window[i] matches ChunkView::Finished { buffer } && buffer.len() == 0) by {
            if i > 0 {
                assert(next.window[i - 1] == s.window[i]);
            }
        }
    }
}

/// The chunks that are passed over are finished.
proof fn lemma_next_in_flight<C: ChunkConnector, T: ChunkTrottler>(
    s: StreamView<C, T>,
    from: int,
)
    requires
        0 <= from,
    ensures
        s.next_in_flight(from) <= s.window.len(),
        s.next_in_flight(from) < s.window.len() ==> from <= s.next_in_flight(from) && !(
        s.window[s.next_in_flight(from)] is Finished),
        forall|i: int| from <= i < s.next_in_flight(from) ==> #[trigger] s.window[i] is Finished,
    decreases s.window.len() - from,
{
    if from < s.window.len() && s.window[from] is Finished {
        lemma_next_in_flight(s, from + 1);
    }
}

/// Going on from a chunk asks for the connection of the first chunk from there on that has one.
/// When there is none the poll is over: the stream has ended if the window is empty, and the
/// first piece that waits in the first chunk is handed out, whatever the state of that chunk. The
/// stream waits only if there is no such piece.
pub proof fn law_a_poll_hands_out_what_waits_first<C: ChunkConnector, T: ChunkTrottler>(
    s: StreamView<C, T>,
    from: int,
    after: StreamView<C, T>,
    action: PollAction<C::Error>,
)
    requires
        0 <= from,
        s.resumes(from, after, action),
    ensures
        ({
            let none_left = forall|i: int|
                from <= i < s.window.len() ==> #[trigger] s.window[i] is Finished;
            let waiting: Seq<Bytes> = match s.window[0] {
                ChunkView::Connecting { .. } => Seq::empty(),
                ChunkView::Reconnecting { buffer, .. } => buffer,
                ChunkView::Transferring { buffer, .. } => buffer,
                ChunkView::Finished { buffer } => buffer,
            };
            match action {
                PollAction::PollConnecting { index } => {
                    &&& from <= index < s.window.len()
                    &&& s.window[index as int] is Connecting
                    &&& forall|i: int| from <= i < index ==> #[trigger] s.window[i] is Finished
                    &&& after == s
                },
                PollAction::PollReconnecting { index } => {
                    &&& from <= index < s.window.len()
                    &&& s.window[index as int] is Reconnecting
                    &&& forall|i: int| from <= i < index ==> #[trigger] s.window[i] is Finished
                    &&& after == s
                },
                PollAction::PollTransferring { index } => {
                    &&& from <= index < s.window.len()
                    &&& s.window[index as int] is Transferring
                    &&& forall|i: int| from <= i < index ==> #[trigger] s.window[i] is Finished
                    &&& after == s
                },
                PollAction::Yield { bytes } => {
                    &&& none_left
                    &&& s.window.len() > 0
                    &&& waiting.len() > 0
                    &&& bytes == waiting[0]
                    &&& after.bytes_consumed == s.bytes_consumed + piece::bytes_contents(
                        bytes,
                    ).len()
                    &&& after == (StreamView {
                        bytes_consumed: after.bytes_consumed,
                        window: s.window.update(0, after.window[0]),
                        ..s
                    })
                    &&& match s.window[0] {
                        ChunkView::Connecting { .. } => false,
                        ChunkView::Reconnecting { future, bytes_received, retries_used, .. } => {
                            after.window[0] == (ChunkView::<C::Future, C::Stream>::Reconnecting {
                                future,
                                buffer: waiting.drop_first(),
                                bytes_received,
                                retries_used,
                            })
                        },
                        ChunkView::Transferring { stream, bytes_received, retries_used, .. } => {
                            after.window[0] == (ChunkView::<C::Future, C::Stream>::Transferring {
                                buffer: waiting.drop_first(),
                                stream,
                                bytes_received,
                                retries_used,
                            })
                        },
                        ChunkView::Finished { .. } => after.window[0] == (ChunkView::<
                            C::Future,
                            C::Stream,
                        >::Finished { buffer: waiting.drop_first() }),
                    }
                },
                PollAction::Wait => {
                    &&& none_left
                    &&& s.window.len() > 0
                    &&& waiting.len() == 0
                    &&& after == s
                },
                PollAction::Complete => s.window.len() == 0 && after == s,
                PollAction::Delay { .. } => false,
                PollAction::Fail { .. } => false,
            }
        }),
{
    lemma_next_in_flight(s, from);
}

/// A connection that is open takes the place of the one being opened, and is polled at once. The
/// chunk keeps what has arrived and the count of its retries; no other chunk changes.
pub proof fn law_an_open_connection_is_polled_at_once<C: ChunkConnector, T: ChunkTrottler>(
    s: StreamView<C, T>,
    index: int,
    opened: C::Stream,
    after: StreamView<C, T>,
    action: PollAction<C::Error>,
)
    requires
        0 <= index < s.window.len(),
        s.window[index] is Connecting || s.window[index] is Reconnecting,
        s.connects(index, ConnectEvent::Connected { stream: opened }, after, action),
    ensures
        action matches PollAction::PollTransferring { index: next } && next == index,
        after == (StreamView { window: s.window.update(index, after.window[index]), ..s }),
        after.window[index] matches ChunkView::Transferring {
            buffer,
            stream,
            bytes_received,
            retries_used,
        } && stream == opened && match s.window[index] {
            ChunkView::Reconnecting {
                buffer: kept,
                bytes_received: received,
                retries_used: used,
                ..
            } => buffer == kept && bytes_received == received && retries_used == used,
            _ => buffer.len() == 0 && bytes_received == 0 && retries_used == 0,
        },
{
}

/// A piece that arrives is put behind the others of its chunk and counted, for the chunk and for
/// the stream. The connection is polled again, and no other chunk changes.
pub proof fn law_a_piece_is_kept_and_counted<C: ChunkConnector, T: ChunkTrottler>(
    s: StreamView<C, T>,
    index: int,
    bytes: Bytes,
    after: StreamView<C, T>,
    action: PollAction<C::Error>,
)
    requires
        0 <= index < s.window.len(),
        s.window[index] is Transferring,
        s.transfers(index, TransferEvent::Piece { bytes }, after, action),
    ensures
        action matches PollAction::PollTransferring { index: next } && next == index,
        after.bytes_received == s.bytes_received + piece::bytes_contents(bytes).len(),
        after == (StreamView {
            bytes_received: after.bytes_received,
            window: s.window.update(index, after.window[index]),
            ..s
        }),
        s.window[index] matches ChunkView::Transferring {
            buffer,
            stream,
            bytes_received,
            retries_used,
        } && after.window[index] == (ChunkView::<C::Future, C::Stream>::Transferring {
            buffer: buffer.push(bytes),
            stream,
            bytes_received: bytes_received + piece::bytes_contents(bytes).len(),
            retries_used,
        }),
{
}

/// A connection that is pending leaves everything as it is, and the chunks after it are polled.
pub proof fn law_a_pending_connection_changes_nothing<C: ChunkConnector, T: ChunkTrottler>(
    s: StreamView<C, T>,
    index: int,
    after: StreamView<C, T>,
    action: PollAction<C::Error>,
)
    requires
        0 <= index < s.window.len(),
        s.connects(index, ConnectEvent::Pending, after, action) || s.transfers(
            index,
            TransferEvent::Pending,
            after,
            action,
        ),
    ensures
        s.resumes(index + 1, after, action),
{
}

/// A connection that ends leaves its chunk finished, with the pieces that wait. A permit is given
/// back with it, unless it is the only one and bytes of the file are missing. Then the chunks
/// after it are polled.
pub proof fn law_an_ended_connection_gives_its_permit_back<C: ChunkConnector, T: ChunkTrottler>(
    s: StreamView<C, T>,
    index: int,
    after: StreamView<C, T>,
    action: PollAction<C::Error>,
    finished: StreamView<C, T>,
)
    requires
        s.wf(),
        0 <= index < s.window.len(),
        s.window[index] is Transferring,
        s.transfers(index, TransferEvent::End, after, action),
        finished.window == s.window.update(index, finished.window[index]),
        s.window[index] matches ChunkView::Transferring { buffer, .. } && finished.window[index]
            == (ChunkView::<C::Future, C::Stream>::Finished { buffer }),
        finished.permits == if s.permits.len() == 1 && s.bytes_received < s.bytes_total {
            s.permits
        } else {
            s.permits.take(s.permits.len() - 1)
        },
        finished == (StreamView { window: finished.window, permits: finished.permits, ..s }),
    ensures
        finished.resumes(index + 1, after, action),
        s.permits.len() >= 1,
{
    window::lemma_update(s.window, index, s.window[index]);
    assert(finished.window =~= s.ended(index).window);
    assert(finished.permits =~= s.ended(index).permits);
}

/// When a connection fails there are three cases. If the chunk lacks nothing, it is finished with
/// the pieces that wait, and the chunks after it are polled. If it lacks bytes and has used up
/// its retries, the error is reported and the stream holds nothing any more. Else a connection is
/// opened for just the bytes that are missing, after a wait that doubles with each retry from a
/// tenth of a second to 3.2 seconds, and what has arrived is kept.
pub proof fn law_a_failed_connection_is_resumed_where_it_stopped<
    C: ChunkConnector,
    T: ChunkTrottler,
>(
    s: StreamView<C, T>,
    index: int,
    error: C::Error,
    after: StreamView<C, T>,
    action: PollAction<C::Error>,
    finished: StreamView<C, T>,
)
    requires
        s.wf(),
        0 <= index < s.window.len(),
        !(s.window[index] is Finished),
        s.connects(index, ConnectEvent::Failed { error }, after, action) || s.transfers(
            index,
            TransferEvent::Failed { error },
            after,
            action,
        ),
        finished == (StreamView {
            window: s.window.update(index, finished.window[index]),
            ..s
        }),
        finished.window[index] == (ChunkView::<C::Future, C::Stream>::Finished {
            buffer: match s.window[index] {
                ChunkView::Reconnecting { buffer, .. } => buffer,
                ChunkView::Transferring { buffer, .. } => buffer,
                _ => Seq::empty(),
            },
        }),
    ensures
        ({
            let (waiting, received, used): (Seq<Bytes>, nat, nat) = match s.window[index] {
                ChunkView::Reconnecting { buffer, bytes_received, retries_used, .. } => (
                    buffer,
                    bytes_received,
                    retries_used,
                ),
                ChunkView::Transferring { buffer, bytes_received, retries_used, .. } => (
                    buffer,
                    bytes_received,
                    retries_used,
                ),
                _ => (Seq::empty(), 0, 0),
            };
            let start = (s.window_offset + index) * s.chunk_max_len;
            let left = s.bytes_total - start;
            let len = if left < s.chunk_max_len {
                left
            } else {
                s.chunk_max_len as int
            };
            if received >= len {
                finished.resumes(index + 1, after, action)
            } else if used >= s.max_retries {
                &&& action == (PollAction::Fail { error })
                &&& after.window.len() == 0
                &&& after.permits.len() == 0
                &&& after.bytes_total == 0
                &&& after.bytes_consumed == 0
                &&& after.bytes_received == 0
                &&& after.window_offset == 0
                &&& after.chunk_max_len == s.chunk_max_len
                &&& after.window_max_len == s.window_max_len
                &&& after.max_retries == s.max_retries
                &&& after.connector == s.connector
                &&& after.throttler == s.throttler
            } else {
                &&& 0 <= start + received <= usize::MAX
                &&& 0 < len - received <= usize::MAX
                &&& after == (StreamView {
                    window: s.window.update(index, after.window[index]),
                    ..s
                })
                &&& after.window[index] matches ChunkView::Reconnecting {
                    future,
                    buffer,
                    bytes_received,
                    retries_used,
                } && {
                    &&& buffer == waiting
                    &&& bytes_received == received
                    &&& retries_used == used + 1
                    &&& call_ensures(
                        C::get,
                        (&s.connector, (start + received) as usize, (len - received) as usize),
                        future,
                    )
                }
                &&& action matches PollAction::Delay { index: delayed, backoff_ms } && {
                    &&& delayed == index
                    &&& backoff_ms == if used < 5 {
                        100 * power2::pow2(used)
                    } else {
                        3200
                    }
                }
            }
        }),
{
    range::lemma_chunk_count(
        s.bytes_total,
        s.chunk_max_len,
        (s.window_offset + index) as nat,
    );
    assert(s.chunk_wf(index));
    assert(finished.window =~= s.finished(index).window);
    power2::lemma2_to64();
}

/// What a poll says first goes by what it leaves in the window. The connection that it asks for
/// is the first one of the window. If there is none, the poll is over: the stream has ended if
/// the window is empty, and waits only if no piece waits in the first chunk. Else it hands out
/// the first piece that waited there.
pub proof fn law_a_poll_begins_with_the_first_connection<C: ChunkConnector, T: ChunkTrottler>(
    s: StreamView<C, T>,
    after: StreamView<C, T>,
    action: PollAction<C::Error>,
)
    requires
        s.wf(),
        s.polls(after, action),
    ensures
        ({
            let none_left = forall|i: int|
                0 <= i < after.window.len() ==> #[trigger] after.window[i] is Finished;
            match action {
                PollAction::PollConnecting { index } => {
                    &&& index < after.window.len()
                    &&& after.window[index as int] is Connecting
                    &&& forall|i: int| 0 <= i < index ==> #[trigger] after.window[i] is Finished
                },
                PollAction::PollReconnecting { index } => {
                    &&& index < after.window.len()
                    &&& after.window[index as int] is Reconnecting
                    &&& forall|i: int| 0 <= i < index ==> #[trigger] after.window[i] is Finished
                },
                PollAction::PollTransferring { index } => {
                    &&& index < after.window.len()
                    &&& after.window[index as int] is Transferring
                    &&& forall|i: int| 0 <= i < index ==> #[trigger] after.window[i] is Finished
                },
                PollAction::Yield { bytes } => {
                    &&& none_left
                    &&& after.window_offset < s.window_offset + s.window.len()
                    &&& after.bytes_consumed == s.bytes_consumed + piece::bytes_contents(
                        bytes,
                    ).len()
                    &&& s.window[after.window_offset - s.window_offset] matches
                        ChunkView::Finished { buffer } && {
                        &&& buffer.len() > 0
                        &&& bytes == buffer[0]
                        &&& after.window[0] == (ChunkView::<C::Future, C::Stream>::Finished {
                            buffer: buffer.drop_first(),
                        })
                    }
                },
                PollAction::Wait => {
                    &&& none_left
                    &&& after.window.len() > 0
                    &&& after.window[0] matches ChunkView::Finished { buffer } && buffer.len()
                        == 0
                },
                PollAction::Complete => after.window.len() == 0,
                PollAction::Delay { .. } => false,
                PollAction::Fail { .. } => false,
            }
        }),
{
    let stripped = s.stripped();
    let launched = choose|launched: StreamView<C, T>| #[trigger]
        stripped.launches(launched) && launched.resumes(0, after, action);
    preserve::lemma_stripped(s);
    preserve::lemma_stripped_window(s);
    law_a_poll_hands_out_what_waits_first(launched, 0, after, action);
    if action is Yield {
        assert(launched.window[0] is Finished);
        if stripped.window.len() == 0 {
            assert(launched.is_launched(0));
        }
        assert(launched.window[0] == launched.window.take(stripped.window.len() as int)[0]);
        assert forall|i: int| 0 <= i < after.window.len() implies #[trigger] after.window[i]
            is Finished by {
            assert(launched.window[i] is Finished);
        }
    }
}

/// Replacing a chunk of the window changes nothing else.
pub proof fn law_one_chunk_is_replaced<C: ChunkConnector, T: ChunkTrottler>(
    s: StreamView<C, T>,
    index: int,
    chunk: ChunkView<C::Future, C::Stream>,
)
    requires
        0 <= index < s.window.len(),
    ensures
        s.with_chunk(index, chunk).window[index] == chunk,
        s.with_chunk(index, chunk) == (StreamView {
            window: s.window.update(index, chunk),
            ..s
        }),
{
}

/// What is done to a connection changes nothing else of its chunk, and a connection is reached
/// just in the states in which the chunk has one of that kind.
pub proof fn law_handles_reach_the_connection<F, S>(
    chunk: ChunkView<F, S>,
    new_future: F,
    new_stream: S,
)
    ensures
        match chunk {
            ChunkView::Connecting { future } => {
                &&& chunk.future() == Some(future)
                &&& chunk.stream() is None
                &&& chunk.with_future(new_future) == (ChunkView::<F, S>::Connecting {
                    future: new_future,
                })
            },
            ChunkView::Reconnecting { future, buffer, bytes_received, retries_used } => {
                &&& chunk.future() == Some(future)
                &&& chunk.stream() is None
                &&& chunk.with_future(new_future) == (ChunkView::<F, S>::Reconnecting {
                    future: new_future,
                    buffer,
                    bytes_received,
                    retries_used,
                })
            },
            ChunkView::Transferring { buffer, stream, bytes_received, retries_used } => {
                &&& chunk.future() is None
                &&& chunk.stream() == Some(stream)
                &&& chunk.with_stream(new_stream) == (ChunkView::<F, S>::Transferring {
                    buffer,
                    stream: new_stream,
                    bytes_received,
                    retries_used,
                })
            },
            ChunkView::Finished { .. } => chunk.future() is None && chunk.stream() is None,
        },
{
}

} // verus!
