//! Whatever the order in which the chunks of a file arrive, the file is handed out in order.
use bytes::Bytes;
use vstd::prelude::*;

use crate::stream::chunk::ChunkView;
use crate::stream::model::StreamView;
use crate::stream::piece;
use crate::stream::interface::{
    ChunkConnector, ChunkTrottler, ConnectEvent, PollAction, TransferEvent,
};
use crate::stream::preserve;
use crate::stream::range;

verus! {

impl<C: ChunkConnector, T: ChunkTrottler> StreamView<C, T> {
    /// Where in the file the data begins that the chunk at `index` holds for the reader.
    pub open spec fn held_from(self, index: int) -> int {
        if index == 0 {
            self.bytes_consumed as int
        } else {
            self.start_of(index) as int
        }
    }

    /// Where in the file the data ends that has arrived for the chunk at `index`.
    pub open spec fn held_to(self, index: int) -> int {
        let arrived = if self.window[index] is Finished {
            self.len_of(index)
        } else {
            self.window[index].bytes_received()
        };
        (self.start_of(index) + arrived) as int
    }

    /// Whether the chunk at `index` holds the data of `file` that belongs there.
    pub open spec fn chunk_carries(self, file: Seq<u8>, index: int) -> bool {
        let from = self.held_from(index);
        let to = self.held_to(index);
        &&& self.start_of(index) <= from <= to <= self.start_of(index) + self.len_of(index)
        &&& piece::joined(self.window[index].buffer()) == file.subrange(from, to)
    }

    /// Where in the file the first chunk that was not launched begins when the window is empty.
    pub open spec fn reached(self) -> nat {
        if self.window_offset < self.chunks_total() {
            self.start_of(0)
        } else {
            self.bytes_total
        }
    }

    /// Whether the stream has handed out a part of `file` from its start, and holds the data
    /// that has arrived in its place.
    pub open spec fn carries(self, file: Seq<u8>) -> bool {
        &&& file.len() == self.bytes_total
        &&& self.window.len() == 0 ==> self.bytes_consumed == self.reached()
        &&& forall|i: int| 0 <= i < self.window.len() ==> #[trigger] self.chunk_carries(file, i)
    }

    /// Whether the window is empty only once everything has been handed out.
    pub open spec fn settled(self) -> bool {
        self.window.len() == 0 ==> self.bytes_consumed == self.bytes_total
    }

    /// Whether `bytes` are the next bytes of `file` after those that have arrived for the chunk
    /// at `index`, and belong to that chunk.
    pub open spec fn is_next_piece(self, file: Seq<u8>, index: int, bytes: Bytes) -> bool {
        let from = self.held_to(index);
        let to = from + piece::bytes_contents(bytes).len();
        &&& to <= self.start_of(index) + self.len_of(index)
        &&& piece::bytes_contents(bytes) == file.subrange(from, to)
    }

    /// Whether `event` is true to `file`: a connection delivers what was asked for, piece by
    /// piece, and does not end before. It may fail at any time.
    pub open spec fn is_true_to(
        self,
        file: Seq<u8>,
        index: int,
        event: TransferEvent<C::Error>,
    ) -> bool {
        match event {
            TransferEvent::Piece { bytes } => self.is_next_piece(file, index, bytes),
            TransferEvent::End => self.window[index].bytes_received() == self.len_of(index),
            _ => true,
        }
    }

    /// What a poll that ends with `action` hands out is the next part of `file`, and a poll that
    /// ends the stream comes after all of it.
    pub open spec fn hands_out_in_order(
        self,
        file: Seq<u8>,
        after: Self,
        action: PollAction<C::Error>,
    ) -> bool {
        match action {
            PollAction::Yield { bytes } => {
                let to = self.bytes_consumed + piece::bytes_contents(bytes).len();
                &&& to <= file.len()
                &&& after.bytes_consumed == to
                &&& piece::bytes_contents(bytes) == file.subrange(
                    self.bytes_consumed as int,
                    to as int,
                )
            },
            PollAction::Complete => {
                after.bytes_consumed == self.bytes_consumed == self.bytes_total
            },
            _ => after.bytes_consumed == self.bytes_consumed,
        }
    }
}

proof fn lemma_ranges<C: ChunkConnector, T: ChunkTrottler>(s: StreamView<C, T>, index: int)
    requires
        s.wf(),
        0 <= index,
        s.window_offset + index < s.chunks_total(),
    ensures
        s.len_of(index) > 0,
        s.start_of(index) + s.len_of(index) <= s.bytes_total,
        s.window_offset + index + 1 < s.chunks_total() ==> s.start_of(index) + s.len_of(index)
            == s.start_of(index + 1),
        s.window_offset + index + 1 == s.chunks_total() ==> s.start_of(index) + s.len_of(index)
            == s.bytes_total,
{
    range::law_chunks_tile(s.bytes_total, s.chunk_max_len, (s.window_offset + index) as nat);
}

proof fn lemma_stripped_carries<C: ChunkConnector, T: ChunkTrottler>(
    s: StreamView<C, T>,
    file: Seq<u8>,
)
    requires
        s.wf(),
        s.carries(file),
    ensures
        s.stripped().carries(file),
    decreases s.window.len(),
{
    if s.window.len() > 0 && s.window[0].is_exhausted() {
        let next = StreamView {
            window: s.window.drop_first(),
            window_offset: s.window_offset + 1,
            ..s
        };
        preserve::lemma_strip_one(s);
        lemma_ranges(s, 0);
        assert(s.chunk_carries(file, 0));
        assert(piece::joined(s.window[0].buffer()).len() == 0);
        assert(s.bytes_consumed == s.start_of(0) + s.len_of(0));
        assert forall|i: int| 0 <= i < next.window.len() implies #[trigger] next.chunk_carries(
            file,
            i,
        ) by {
            assert(s.chunk_carries(file, i + 1));
        }
        lemma_stripped_carries(next, file);
    }
}

proof fn lemma_launches_carries<C: ChunkConnector, T: ChunkTrottler>(
    s: StreamView<C, T>,
    file: Seq<u8>,
    after: StreamView<C, T>,
)
    requires
        s.wf(),
        s.carries(file),
        s.launches_some(after),
    ensures
        after.carries(file),
{
    preserve::lemma_launches_some(s, after);
    assert forall|i: int| 0 <= i < after.window.len() implies #[trigger] after.chunk_carries(
        file,
        i,
    ) by {
        lemma_ranges(after, i);
        if i < s.window.len() {
            assert(s.chunk_carries(file, i));
            assert(after.window[i] == after.window.take(s.window.len() as int)[i]);
        } else {
            assert(after.is_launched(i));
            assert(file.subrange(after.held_from(i), after.held_to(i)) =~= Seq::<u8>::empty());
        }
    }
}

proof fn lemma_with_chunk_carries<C: ChunkConnector, T: ChunkTrottler>(
    s: StreamView<C, T>,
    file: Seq<u8>,
    index: int,
    chunk: ChunkView<C::Future, C::Stream>,
    after: StreamView<C, T>,
)
    requires
        s.carries(file),
        0 <= index < s.window.len(),
        after == (StreamView {
            bytes_consumed: after.bytes_consumed,
            bytes_received: after.bytes_received,
            permits: after.permits,
            ..s.with_chunk(index, chunk)
        }),
        index != 0 ==> after.bytes_consumed == s.bytes_consumed,
        after.chunk_carries(file, index),
    ensures
        after.carries(file),
{
    assert forall|i: int| 0 <= i < after.window.len() implies #[trigger] after.chunk_carries(
        file,
        i,
    ) by {
        assert(s.chunk_carries(file, i));
    }
}

/// Going on with the next chunk keeps the order.
pub proof fn law_resume_in_order<C: ChunkConnector, T: ChunkTrottler>(
    s: StreamView<C, T>,
    file: Seq<u8>,
    from: int,
    after: StreamView<C, T>,
    action: PollAction<C::Error>,
)
    requires
        s.wf(),
        s.carries(file),
        s.settled(),
        s.resumes(from, after, action),
    ensures
        after.carries(file),
        after.settled(),
        s.hands_out_in_order(file, after, action),
{
    if action is Yield {
        let front = s.window[0];
        let piece_len = piece::bytes_contents(front.buffer()[0]).len() as int;
        piece::lemma_joined_drop_first(front.buffer());
        lemma_ranges(s, 0);
        assert(s.chunk_carries(file, 0));
        let whole = file.subrange(s.held_from(0), s.held_to(0));
        let rest = piece::joined(front.buffer().drop_first());
        assert(piece::bytes_contents(front.buffer()[0]) =~= whole.take(piece_len));
        assert(rest =~= whole.skip(piece_len));
        assert(whole.take(piece_len) =~= file.subrange(
            s.bytes_consumed as int,
            s.bytes_consumed + piece_len,
        ));
        assert(whole.skip(piece_len) =~= file.subrange(
            s.bytes_consumed + piece_len,
            s.held_to(0),
        ));
        assert(after.chunk_carries(file, 0));
        lemma_with_chunk_carries(s, file, 0, after.window[0], after);
    }
}

proof fn lemma_finished_carries<C: ChunkConnector, T: ChunkTrottler>(
    s: StreamView<C, T>,
    file: Seq<u8>,
    index: int,
)
    requires
        s.wf(),
        s.carries(file),
        0 <= index < s.window.len(),
        !(s.window[index] is Finished),
        s.window[index].bytes_received() >= s.len_of(index),
    ensures
        s.finished(index).carries(file),
        s.ended(index).carries(file),
{
    assert(s.chunk_carries(file, index));
    let chunk = ChunkView::Finished { buffer: s.window[index].buffer() };
    assert(s.finished(index).chunk_carries(file, index));
    assert(s.ended(index).chunk_carries(file, index));
    lemma_with_chunk_carries(s, file, index, chunk, s.finished(index));
    lemma_with_chunk_carries(s, file, index, chunk, s.ended(index));
}

proof fn lemma_retries_carries<C: ChunkConnector, T: ChunkTrottler>(
    s: StreamView<C, T>,
    file: Seq<u8>,
    index: int,
    error: C::Error,
    after: StreamView<C, T>,
    action: PollAction<C::Error>,
)
    requires
        s.wf(),
        s.carries(file),
        0 <= index < s.window.len(),
        !(s.window[index] is Finished),
        s.retries(index, error, after, action),
        !(action is Fail),
    ensures
        after.carries(file),
        after.settled(),
        s.hands_out_in_order(file, after, action),
{
    let c = s.window[index];
    if c.bytes_received() >= s.len_of(index) {
        preserve::lemma_finished(s, index);
        lemma_finished_carries(s, file, index);
        law_resume_in_order(s.finished(index), file, index + 1, after, action);
    } else {
        assert(s.chunk_carries(file, index));
        assert(after.chunk_carries(file, index));
        lemma_with_chunk_carries(s, file, index, after.window[index], after);
    }
}

/// A new poll goes on where the last one stopped, and does not end the stream before
/// everything has been handed out: the permit that is kept lets it go on, whoever else waits
/// for one.
pub proof fn law_poll_in_order<C: ChunkConnector, T: ChunkTrottler>(
    s: StreamView<C, T>,
    file: Seq<u8>,
    after: StreamView<C, T>,
    action: PollAction<C::Error>,
)
    requires
        s.wf(),
        s.carries(file),
        s.polls(after, action),
    ensures
        after.carries(file),
        after.settled(),
        s.hands_out_in_order(file, after, action),
{
    let stripped = s.stripped();
    let launched = choose|launched: StreamView<C, T>| #[trigger]
        stripped.launches(launched) && launched.resumes(0, after, action);
    preserve::lemma_stripped(s);
    lemma_stripped_carries(s, file);
    preserve::lemma_launches_some(stripped, launched);
    lemma_launches_carries(stripped, file, launched);
    assert(launched.settled()) by {
        if launched.window.len() == 0 && stripped.window_offset < stripped.chunks_total() {
            let none = stripped.window;
            assert(none.map_values(|c: ChunkView<C::Future, C::Stream>| c.buffered()).len() == 0);
            assert(none.map_values(|c: ChunkView<C::Future, C::Stream>| c.in_flight()).len() == 0);
            lemma_ranges(stripped, 0);
        }
    }
    law_resume_in_order(launched, file, 0, after, action);
}

/// What comes of a connection being opened keeps the order, unless the stream gives up.
pub proof fn law_connect_in_order<C: ChunkConnector, T: ChunkTrottler>(
    s: StreamView<C, T>,
    file: Seq<u8>,
    index: int,
    event: ConnectEvent<C::Stream, C::Error>,
    after: StreamView<C, T>,
    action: PollAction<C::Error>,
)
    requires
        s.wf(),
        s.carries(file),
        0 <= index < s.window.len(),
        s.window[index].future() is Some,
        s.connects(index, event, after, action),
        !(action is Fail),
    ensures
        after.carries(file),
        after.settled(),
        s.hands_out_in_order(file, after, action),
{
    match event {
        ConnectEvent::Pending => law_resume_in_order(s, file, index + 1, after, action),
        ConnectEvent::Connected { stream } => {
            assert(s.chunk_carries(file, index));
            assert(after.chunk_carries(file, index));
            lemma_with_chunk_carries(s, file, index, after.window[index], after);
        },
        ConnectEvent::Failed { error } => lemma_retries_carries(
            s,
            file,
            index,
            error,
            after,
            action,
        ),
    }
}

/// What comes of an open connection keeps the order, if it is true to the file and unless the
/// stream gives up.
pub proof fn law_transfer_in_order<C: ChunkConnector, T: ChunkTrottler>(
    s: StreamView<C, T>,
    file: Seq<u8>,
    index: int,
    event: TransferEvent<C::Error>,
    after: StreamView<C, T>,
    action: PollAction<C::Error>,
)
    requires
        s.wf(),
        s.carries(file),
        0 <= index < s.window.len(),
        s.window[index] is Transferring,
        s.is_true_to(file, index, event),
        s.transfers(index, event, after, action),
        !(action is Fail),
    ensures
        after.carries(file),
        after.settled(),
        s.hands_out_in_order(file, after, action),
{
    assert(s.chunk_carries(file, index));
    match event {
        TransferEvent::Pending => law_resume_in_order(s, file, index + 1, after, action),
        TransferEvent::Piece { bytes } => {
            lemma_ranges(s, index);
            piece::lemma_joined_push(s.window[index].buffer(), bytes);
            assert(file.subrange(s.held_from(index), s.held_to(index)) + file.subrange(
                s.held_to(index),
                after.held_to(index),
            ) =~= file.subrange(s.held_from(index), after.held_to(index)));
            assert(after.chunk_carries(file, index));
            lemma_with_chunk_carries(s, file, index, after.window[index], after);
        },
        TransferEvent::Failed { error } => lemma_retries_carries(
            s,
            file,
            index,
            error,
            after,
            action,
        ),
        TransferEvent::End => {
            preserve::lemma_finished(s, index);
            lemma_finished_carries(s, file, index);
            law_resume_in_order(s.ended(index), file, index + 1, after, action);
        },
    }
}

} // verus!
