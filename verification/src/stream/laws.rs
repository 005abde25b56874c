//! What holds of every stream at every moment.
use vstd::prelude::*;

use crate::stream::chunk::ChunkView;
use crate::stream::model::StreamView;
use crate::stream::interface::{ChunkConnector, ChunkTrottler, PollAction};
use crate::stream::preserve;
use crate::stream::window;

verus! {

proof fn lemma_in_flight_in_window<F, S>(chunks: Seq<ChunkView<F, S>>)
    ensures
        window::in_flight_in(chunks) <= chunks.len(),
    decreases chunks.len(),
{
    if chunks.len() > 0 {
        window::lemma_drop_first(chunks);
        lemma_in_flight_in_window(chunks.drop_first());
    } else {
        assert(chunks.map_values(|c: ChunkView<F, S>| c.in_flight()).len() == 0);
    }
}

/// There are never more connections than permits, nor more than the window is long, and every
/// byte that has arrived has been handed out or waits to be.
pub proof fn law_connections_and_bytes_are_accounted_for<C: ChunkConnector, T: ChunkTrottler>(
    s: StreamView<C, T>,
)
    requires
        s.wf(),
    ensures
        s.in_flight() <= s.permits.len(),
        s.in_flight() <= s.window_max_len,
        s.bytes_received == s.bytes_consumed + s.buffered(),
{
    lemma_in_flight_in_window(s.window);
}

/// A stream that lacks bytes of the file keeps a permit, so that a poll ends it only once all
/// of its chunks have been launched and have left the window, or as many bytes as the file has
/// have arrived.
pub proof fn law_a_kept_permit_lets_the_stream_go_on<C: ChunkConnector, T: ChunkTrottler>(
    s: StreamView<C, T>,
    after: StreamView<C, T>,
    action: PollAction<C::Error>,
)
    requires
        s.wf(),
        s.polls(after, action),
        action is Complete,
    ensures
        after.window.len() == 0,
        after.window_offset == after.chunks_total() || after.bytes_received >= after.bytes_total,
{
    let stripped = s.stripped();
    let launched = choose|launched: StreamView<C, T>| #[trigger]
        stripped.launches(launched) && launched.resumes(0, after, action);
    preserve::lemma_stripped(s);
    preserve::lemma_launches_some(stripped, launched);
    assert(stripped.window.map_values(
        |c: ChunkView<C::Future, C::Stream>| c.in_flight(),
    ).len() == 0);
}

/// A poll launches the chunks that follow those launched before it, in the order of the file,
/// and asks for each just the bytes of that chunk. So no chunk is left out, and none is launched
/// twice.
pub proof fn law_chunks_are_launched_in_order<C: ChunkConnector, T: ChunkTrottler>(
    s: StreamView<C, T>,
    after: StreamView<C, T>,
    action: PollAction<C::Error>,
)
    requires
        s.wf(),
        s.polls(after, action),
    ensures
        s.window_offset + s.window.len() <= after.window_offset + after.window.len()
            <= after.chunks_total(),
        forall|i: int|
            0 <= i < after.window.len() && after.window_offset + i >= s.window_offset
                + s.window.len() ==> #[trigger] after.is_launched(i),
        forall|i: int|
            0 <= i < after.window.len() && after.window_offset + i < s.window_offset
                + s.window.len() ==> #[trigger] after.window[i].with_buffer(Seq::empty())
                == s.window[after.window_offset + i - s.window_offset].with_buffer(Seq::empty()),
{
    let stripped = s.stripped();
    let launched = choose|launched: StreamView<C, T>| #[trigger]
        stripped.launches(launched) && launched.resumes(0, after, action);
    preserve::lemma_stripped(s);
    preserve::lemma_stripped_window(s);
    preserve::lemma_launches_some(stripped, launched);
    preserve::lemma_polls(s, after, action);
    assert forall|i: int|
        0 <= i < after.window.len() && after.window_offset + i >= s.window_offset
            + s.window.len() implies #[trigger] after.is_launched(i) by {
        assert(launched.is_launched(i));
    }
    assert forall|i: int|
        0 <= i < after.window.len() && after.window_offset + i < s.window_offset
            + s.window.len() implies #[trigger] after.window[i].with_buffer(Seq::empty())
        == s.window[after.window_offset + i - s.window_offset].with_buffer(Seq::empty()) by {
        assert(launched.window[i] == launched.window.take(stripped.window.len() as int)[i]);
        assert(stripped.window[i] == s.window[stripped.window_offset + i - s.window_offset]);
    }
}

/// A stream waits only while no piece waits in the first chunk of the window, and only while that
/// chunk still holds a connection, or has just been exhausted and leaves the window with the next
/// poll.
pub proof fn law_waits_for_the_first_chunk<C: ChunkConnector, T: ChunkTrottler>(
    s: StreamView<C, T>,
    from: int,
    after: StreamView<C, T>,
    action: PollAction<C::Error>,
)
    requires
        s.resumes(from, after, action),
        action is Wait,
    ensures
        after == s,
        s.window.len() > 0,
        !(s.window[0] is Finished) || s.window[0].is_exhausted(),
        match s.window[0] {
            ChunkView::Connecting { .. } => true,
            ChunkView::Reconnecting { buffer, .. } => buffer.len() == 0,
            ChunkView::Transferring { buffer, .. } => buffer.len() == 0,
            ChunkView::Finished { buffer } => buffer.len() == 0,
        },
{
}

/// Retrying a chunk leaves all the others alone, and loses nothing that has arrived.
pub proof fn law_each_chunk_is_retried_alone<C: ChunkConnector, T: ChunkTrottler>(
    s: StreamView<C, T>,
    index: int,
    error: C::Error,
    after: StreamView<C, T>,
    action: PollAction<C::Error>,
)
    requires
        s.wf(),
        0 <= index < s.window.len(),
        !(s.window[index] is Finished),
        s.retries(index, error, after, action),
        action is Delay,
    ensures
        after.window.len() == s.window.len(),
        forall|i: int|
            0 <= i < s.window.len() && i != index ==> #[trigger] after.window[i] == s.window[i],
        after.window[index].buffer() == s.window[index].buffer(),
        after.window[index].bytes_received() == s.window[index].bytes_received(),
        after.window[index].retries_used() == s.window[index].retries_used() + 1,
        after.permits == s.permits,
        after.bytes_received == s.bytes_received,
        after.bytes_consumed == s.bytes_consumed,
{
}

/// A stream gives up only over a chunk that lacks bytes and has used up all of its retries.
pub proof fn law_gives_up_only_when_no_retry_is_left<C: ChunkConnector, T: ChunkTrottler>(
    s: StreamView<C, T>,
    index: int,
    error: C::Error,
    after: StreamView<C, T>,
    action: PollAction<C::Error>,
)
    requires
        s.wf(),
        0 <= index < s.window.len(),
        !(s.window[index] is Finished),
        s.retries(index, error, after, action),
    ensures
        action is Fail <==> s.window[index].bytes_received() < s.len_of(index)
            && s.window[index].retries_used() == s.max_retries,
        action is Fail ==> action == (PollAction::Fail { error }) && after == s.cleared(),
{
    assert(s.chunk_wf(index));
}

} // verus!
