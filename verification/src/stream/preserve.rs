//! Every operation leaves a stream well-formed.
use bytes::Bytes;
use vstd::prelude::*;

use crate::stream::chunk::ChunkView;
use crate::stream::model::StreamView;
use crate::stream::piece;
use crate::stream::interface::{
    ChunkConnector, ChunkTrottler, ConnectEvent, PollAction, TransferEvent,
};
use crate::stream::range;
use crate::stream::window;

verus! {

/// A stream without its first chunk, where that is exhausted, is well-formed.
pub proof fn lemma_strip_one<C: ChunkConnector, T: ChunkTrottler>(s: StreamView<C, T>)
    requires
        s.wf(),
        s.window.len() > 0,
        s.window[0].is_exhausted(),
    ensures
        ({
            let next = StreamView {
                window: s.window.drop_first(),
                window_offset: s.window_offset + 1,
                ..s
            };
            next.wf() && next.in_flight() == s.in_flight()
        }),
{
    let next = StreamView {
        window: s.window.drop_first(),
        window_offset: s.window_offset + 1,
        ..s
    };
    window::lemma_drop_first(s.window);
    assert(s.window[0].buffered() == 0);
    assert forall|i: int| 0 <= i < next.window.len() implies #[trigger] next.chunk_wf(i) by {
        assert(s.chunk_wf(i + 1));
    }
}

/// Stripping changes the window only at its start, and leaves no exhausted chunk there.
pub proof fn lemma_stripped<C: ChunkConnector, T: ChunkTrottler>(s: StreamView<C, T>)
    requires
        s.wf(),
    ensures
        s.stripped().wf(),
        s.stripped() == (StreamView {
            window: s.stripped().window,
            window_offset: s.stripped().window_offset,
            ..s
        }),
        s.stripped().window.len() > 0 ==> !s.stripped().window[0].is_exhausted(),
        s.stripped().in_flight() == s.in_flight(),
    decreases s.window.len(),
{
    if s.window.len() > 0 && s.window[0].is_exhausted() {
        let next = StreamView {
            window: s.window.drop_first(),
            window_offset: s.window_offset + 1,
            ..s
        };
        lemma_strip_one(s);
        lemma_stripped(next);
    }
}

/// The chunks that stripping leaves in the window are the last ones, unchanged.
pub proof fn lemma_stripped_window<C: ChunkConnector, T: ChunkTrottler>(s: StreamView<C, T>)
    ensures
        s.stripped().window_offset >= s.window_offset,
        s.stripped().window_offset - s.window_offset <= s.window.len(),
        s.stripped().window == s.window.skip(s.stripped().window_offset - s.window_offset),
    decreases s.window.len(),
{
    if s.window.len() > 0 && s.window[0].is_exhausted() {
        let next = StreamView {
            window: s.window.drop_first(),
            window_offset: s.window_offset + 1,
            ..s
        };
        lemma_stripped_window(next);
        assert(next.window.skip(s.stripped().window_offset - next.window_offset)
            =~= s.window.skip(s.stripped().window_offset - s.window_offset));
    } else {
        assert(s.window.skip(0) =~= s.window);
    }
}

/// Launching keeps a stream well-formed.
pub proof fn lemma_launches_some<C: ChunkConnector, T: ChunkTrottler>(
    s: StreamView<C, T>,
    after: StreamView<C, T>,
)
    requires
        s.wf(),
        s.launches_some(after),
    ensures
        after.wf(),
        after.in_flight() == s.in_flight() + after.window.len() - s.window.len(),
{
    assert forall|i: int| s.window.len() <= i < after.window.len() implies (
    #[trigger] after.window[i]) is Connecting by {
        assert(after.is_launched(i));
    }
    window::lemma_extend_connecting(s.window, after.window);
    assert forall|i: int| 0 <= i < after.window.len() implies #[trigger] after.chunk_wf(i) by {
        if i < s.window.len() {
            assert(s.chunk_wf(i));
            assert(after.window[i] == after.window.take(s.window.len() as int)[i]);
        } else {
            assert(after.is_launched(i));
        }
    }
}

/// A chunk launched under a free permit keeps a stream well-formed.
pub proof fn lemma_launches_one<C: ChunkConnector, T: ChunkTrottler>(
    s: StreamView<C, T>,
    after: StreamView<C, T>,
)
    requires
        s.wf(),
        s.room() > 0,
        s.free_permits() > 0,
        s.launches_one(after),
    ensures
        after.wf(),
        after.in_flight() == s.in_flight() + 1,
{
    assert(after.window.take(s.window.len() as int) =~= s.window);
    assert(after.permits.take(s.permits.len() as int) =~= s.permits);
    lemma_launches_some(s, after);
}

/// A launch after others adds to them. `covered` is the stream `middle`, with the permit that
/// the throttler gave for the launch where none was free.
pub proof fn lemma_launches_next<C: ChunkConnector, T: ChunkTrottler>(
    s: StreamView<C, T>,
    middle: StreamView<C, T>,
    covered: StreamView<C, T>,
    after: StreamView<C, T>,
)
    requires
        s.wf(),
        s.launches_some(middle),
        middle.room() > 0,
        covered.launches_one(after),
        ({
            ||| covered == middle && middle.window.len() - s.window.len() < s.free_permits()
            ||| {
                &&& middle.window.len() - s.window.len() >= s.free_permits()
                &&& covered.permits.len() == middle.permits.len() + 1
                &&& covered.permits.drop_last() == middle.permits
                &&& covered == (StreamView { permits: covered.permits, ..middle })
                &&& call_ensures(T::try_acquire, (&s.throttler,), Some(covered.permits.last()))
            }
        }),
    ensures
        s.launches_some(after),
{
    let n = s.window.len() as int;
    let p = s.permits.len() as int;
    assert(after.window.take(n) =~= s.window) by {
        assert(after.window.drop_last().take(n) =~= after.window.take(n));
    }
    assert forall|i: int| n <= i < after.window.len() implies #[trigger] after.is_launched(i) by {
        if i < middle.window.len() {
            assert(middle.is_launched(i));
            assert(after.window[i] == after.window.drop_last()[i]);
        }
    }
    assert(after.permits.take(p) =~= s.permits) by {
        assert(middle.permits.take(p) =~= s.permits);
        if covered != middle {
            assert(covered.permits.drop_last().take(p) =~= after.permits.take(p));
        }
    }
    assert forall|i: int| p <= i < after.permits.len() implies call_ensures(
        T::try_acquire,
        (&s.throttler,),
        Some(#[trigger] after.permits[i]),
    ) by {
        if i < middle.permits.len() {
            assert(after.permits[i] == middle.permits[i]) by {
                if covered != middle {
                    assert(covered.permits.drop_last()[i] == middle.permits[i]);
                }
            }
        }
    }
}

/// A further permit keeps a stream well-formed.
pub proof fn lemma_more_permits<C: ChunkConnector, T: ChunkTrottler>(
    s: StreamView<C, T>,
    after: StreamView<C, T>,
)
    requires
        s.wf(),
        after == (StreamView { permits: after.permits, ..s }),
        after.permits.len() >= s.permits.len(),
    ensures
        after.wf(),
{
    assert forall|i: int| 0 <= i < after.window.len() implies #[trigger] after.chunk_wf(i) by {
        assert(s.chunk_wf(i));
    }
}

/// Putting another chunk in place of one keeps a stream well-formed, where the counts follow.
pub proof fn lemma_with_chunk<C: ChunkConnector, T: ChunkTrottler>(
    s: StreamView<C, T>,
    index: int,
    chunk: ChunkView<C::Future, C::Stream>,
    after: StreamView<C, T>,
)
    requires
        s.wf(),
        0 <= index < s.window.len(),
        after == (StreamView {
            bytes_consumed: after.bytes_consumed,
            bytes_received: after.bytes_received,
            permits: after.permits,
            ..s.with_chunk(index, chunk)
        }),
        s.bytes_received <= after.bytes_received <= usize::MAX,
        after.bytes_consumed - s.bytes_consumed + chunk.buffered() - s.window[index].buffered()
            == after.bytes_received - s.bytes_received,
        after.permits.len() - s.permits.len() >= chunk.in_flight() - s.window[index].in_flight(),
        after.bytes_received < after.bytes_total ==> after.permits.len() >= 1,
        after.chunk_wf(index),
    ensures
        after.wf(),
{
    window::lemma_update(s.window, index, chunk);
    assert forall|i: int| 0 <= i < after.window.len() implies #[trigger] after.chunk_wf(i) by {
        assert(s.chunk_wf(i));
    }
}

/// Handing out a piece keeps a stream well-formed.
pub proof fn lemma_consumed<C: ChunkConnector, T: ChunkTrottler>(s: StreamView<C, T>)
    requires
        s.wf(),
        s.window.len() > 0,
        s.window[0].buffer().len() > 0,
    ensures
        s.consumed().wf(),
{
    let front = s.window[0];
    let chunk = front.with_buffer(front.buffer().drop_first());
    piece::lemma_joined_drop_first(front.buffer());
    assert(s.chunk_wf(0));
    lemma_with_chunk(s, 0, chunk, s.consumed());
}

/// Going on to the next chunk keeps a stream well-formed.
pub proof fn lemma_resumes<C: ChunkConnector, T: ChunkTrottler>(
    s: StreamView<C, T>,
    from: int,
    after: StreamView<C, T>,
    action: PollAction<C::Error>,
)
    requires
        s.wf(),
        s.resumes(from, after, action),
    ensures
        after.wf(),
{
    if s.window.len() > 0 && s.window[0].buffer().len() > 0 {
        lemma_consumed(s);
    }
}

/// Opening a connection keeps a stream well-formed.
pub proof fn lemma_connected<C: ChunkConnector, T: ChunkTrottler>(
    s: StreamView<C, T>,
    index: int,
    stream: C::Stream,
)
    requires
        s.wf(),
        0 <= index < s.window.len(),
        s.window[index].future() is Some,
    ensures
        s.connected(index, stream).wf(),
{
    assert(s.chunk_wf(index));
    let after = s.connected(index, stream);
    lemma_with_chunk(s, index, after.window[index], after);
}

/// The arrival of a piece keeps a stream well-formed.
pub proof fn lemma_received<C: ChunkConnector, T: ChunkTrottler>(
    s: StreamView<C, T>,
    index: int,
    bytes: Bytes,
)
    requires
        s.wf(),
        0 <= index < s.window.len(),
        s.window[index] is Transferring,
        s.bytes_received + piece::bytes_contents(bytes).len() <= usize::MAX,
    ensures
        s.received(index, bytes).wf(),
{
    assert(s.chunk_wf(index));
    let after = s.received(index, bytes);
    piece::lemma_joined_push(s.window[index].buffer(), bytes);
    lemma_with_chunk(s, index, after.window[index], after);
}

/// Finishing a chunk keeps a stream well-formed, with or without giving a permit back.
pub proof fn lemma_finished<C: ChunkConnector, T: ChunkTrottler>(s: StreamView<C, T>, index: int)
    requires
        s.wf(),
        0 <= index < s.window.len(),
        !(s.window[index] is Finished),
    ensures
        s.finished(index).wf(),
        s.ended(index).wf(),
        s.permits.len() >= 1,
{
    assert(s.chunk_wf(index));
    let chunk = ChunkView::Finished { buffer: s.window[index].buffer() };
    window::lemma_update(s.window, index, chunk);
    lemma_with_chunk(s, index, chunk, s.finished(index));
    lemma_with_chunk(s, index, chunk, s.ended(index));
}

/// Retrying a chunk keeps a stream well-formed.
pub proof fn lemma_retrying<C: ChunkConnector, T: ChunkTrottler>(
    s: StreamView<C, T>,
    index: int,
    future: C::Future,
)
    requires
        s.wf(),
        0 <= index < s.window.len(),
        !(s.window[index] is Finished),
        s.window[index].bytes_received() < s.len_of(index),
        s.window[index].retries_used() < s.max_retries,
    ensures
        s.retrying(index, future).wf(),
{
    assert(s.chunk_wf(index));
    let after = s.retrying(index, future);
    lemma_with_chunk(s, index, after.window[index], after);
}

/// Polling a connection, which changes nothing else, keeps a stream well-formed.
pub proof fn lemma_handles<C: ChunkConnector, T: ChunkTrottler>(s: StreamView<C, T>, index: int)
    requires
        s.wf(),
        0 <= index < s.window.len(),
    ensures
        forall|future: C::Future|
            s.with_chunk(index, #[trigger] s.window[index].with_future(future)).wf(),
        forall|stream: C::Stream|
            s.with_chunk(index, #[trigger] s.window[index].with_stream(stream)).wf(),
{
    assert(s.chunk_wf(index));
    assert forall|future: C::Future| s.with_chunk(
        index,
        #[trigger] s.window[index].with_future(future),
    ).wf() by {
        let chunk = s.window[index].with_future(future);
        lemma_with_chunk(s, index, chunk, s.with_chunk(index, chunk));
    }
    assert forall|stream: C::Stream| s.with_chunk(
        index,
        #[trigger] s.window[index].with_stream(stream),
    ).wf() by {
        let chunk = s.window[index].with_stream(stream);
        lemma_with_chunk(s, index, chunk, s.with_chunk(index, chunk));
    }
}

/// Giving everything up keeps a stream well-formed.
pub proof fn lemma_cleared<C: ChunkConnector, T: ChunkTrottler>(s: StreamView<C, T>)
    requires
        s.wf(),
    ensures
        s.cleared().wf(),
{
    range::lemma_chunk_count(0, s.chunk_max_len, 0);
    let none = Seq::<ChunkView<C::Future, C::Stream>>::empty();
    assert(none.map_values(|c: ChunkView<C::Future, C::Stream>| c.buffered()).len() == 0);
    assert(none.map_values(|c: ChunkView<C::Future, C::Stream>| c.in_flight()).len() == 0);
}

/// The failure of a connection keeps a stream well-formed.
pub proof fn lemma_retries<C: ChunkConnector, T: ChunkTrottler>(
    s: StreamView<C, T>,
    index: int,
    error: C::Error,
    after: StreamView<C, T>,
    action: PollAction<C::Error>,
)
    requires
        s.wf(),
        0 <= index < s.window.len(),
        !(s.window[index] is Finished),
        s.retries(index, error, after, action),
    ensures
        after.wf(),
{
    let c = s.window[index];
    if c.bytes_received() >= s.len_of(index) {
        lemma_finished(s, index);
        lemma_resumes(s.finished(index), index + 1, after, action);
    } else if c.retries_used() >= s.max_retries {
        lemma_cleared(s);
    } else {
        lemma_retrying(s, index, after.window[index].future()->0);
    }
}

/// A new poll keeps a stream well-formed.
pub proof fn lemma_polls<C: ChunkConnector, T: ChunkTrottler>(
    s: StreamView<C, T>,
    after: StreamView<C, T>,
    action: PollAction<C::Error>,
)
    requires
        s.wf(),
        s.polls(after, action),
    ensures
        after.wf(),
{
    lemma_stripped(s);
    let launched = choose|launched: StreamView<C, T>| #[trigger]
        s.stripped().launches(launched) && launched.resumes(0, after, action);
    lemma_launches_some(s.stripped(), launched);
    lemma_resumes(launched, 0, after, action);
}

/// What comes of a connection being opened keeps a stream well-formed.
pub proof fn lemma_connects<C: ChunkConnector, T: ChunkTrottler>(
    s: StreamView<C, T>,
    index: int,
    event: ConnectEvent<C::Stream, C::Error>,
    after: StreamView<C, T>,
    action: PollAction<C::Error>,
)
    requires
        s.wf(),
        0 <= index < s.window.len(),
        s.window[index].future() is Some,
        s.connects(index, event, after, action),
    ensures
        after.wf(),
{
    match event {
        ConnectEvent::Pending => lemma_resumes(s, index + 1, after, action),
        ConnectEvent::Connected { stream } => lemma_connected(s, index, stream),
        ConnectEvent::Failed { error } => lemma_retries(s, index, error, after, action),
    }
}

/// What comes of an open connection keeps a stream well-formed.
pub proof fn lemma_transfers<C: ChunkConnector, T: ChunkTrottler>(
    s: StreamView<C, T>,
    index: int,
    event: TransferEvent<C::Error>,
    after: StreamView<C, T>,
    action: PollAction<C::Error>,
)
    requires
        s.wf(),
        0 <= index < s.window.len(),
        s.window[index] is Transferring,
        event matches TransferEvent::Piece { bytes } ==> s.bytes_received + piece::bytes_contents(
            bytes,
        ).len() <= usize::MAX,
        s.transfers(index, event, after, action),
    ensures
        after.wf(),
{
    match event {
        TransferEvent::Pending => lemma_resumes(s, index + 1, after, action),
        TransferEvent::Piece { bytes } => lemma_received(s, index, bytes),
        TransferEvent::Failed { error } => lemma_retries(s, index, error, after, action),
        TransferEvent::End => {
            lemma_finished(s, index);
            lemma_resumes(s.ended(index), index + 1, after, action);
        },
    }
}

} // verus!
