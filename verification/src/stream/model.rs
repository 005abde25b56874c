//! What a chunked stream is at any moment, and how each operation changes it.
use bytes::Bytes;
use vstd::prelude::*;

use crate::stream::chunk::ChunkView;
use crate::stream::piece;
use crate::stream::interface::{
    ChunkConnector, ChunkTrottler, ConnectEvent, PollAction, TransferEvent,
};
use crate::stream::range;
use crate::stream::retry;
use crate::stream::window;

verus! {

/// The state of a chunked stream.
#[verifier::ext_equal]
pub struct StreamView<C: ChunkConnector, T: ChunkTrottler> {
    /// The length of every chunk but the last.
    pub chunk_max_len: nat,
    /// The length of the file, or zero once the stream has failed.
    pub bytes_total: nat,
    /// The number of bytes handed out.
    pub bytes_consumed: nat,
    /// The number of bytes that have arrived.
    pub bytes_received: nat,
    /// The chunks on their way, in the order of the file.
    pub window: Seq<ChunkView<C::Future, C::Stream>>,
    /// The number of chunks that have left the window.
    pub window_offset: nat,
    /// The largest number of chunks that may be on their way.
    pub window_max_len: nat,
    /// The number of times that each chunk may be retried.
    pub max_retries: nat,
    /// The permits held.
    pub permits: Seq<T::Permit>,
    pub connector: C,
    pub throttler: T,
}

impl<C: ChunkConnector, T: ChunkTrottler> StreamView<C, T> {
    /// The number of chunks of the file.
    pub open spec fn chunks_total(self) -> nat {
        range::chunk_count(self.bytes_total, self.chunk_max_len)
    }

    /// Where in the file the chunk at `index` of the window begins.
    pub open spec fn start_of(self, index: int) -> nat {
        range::chunk_start((self.window_offset + index) as nat, self.chunk_max_len)
    }

    /// The length of the chunk at `index` of the window.
    pub open spec fn len_of(self, index: int) -> nat {
        range::chunk_len(
            (self.window_offset + index) as nat,
            self.bytes_total,
            self.chunk_max_len,
        )
    }

    /// The number of bytes that have arrived and have not been handed out.
    pub open spec fn buffered(self) -> nat {
        window::buffered_in(self.window)
    }

    /// The number of chunks that hold a connection.
    pub open spec fn in_flight(self) -> nat {
        window::in_flight_in(self.window)
    }

    /// What holds of the chunk at `index` of the window.
    pub open spec fn chunk_wf(self, index: int) -> bool {
        let c = self.window[index];
        &&& c.bytes_received() <= self.bytes_received
        &&& c.retries_used() <= self.max_retries
        &&& c is Reconnecting ==> c.retries_used() >= 1 && c.bytes_received() < self.len_of(index)
    }

    /// What holds of every stream.
    pub open spec fn wf(self) -> bool {
        // All counts are those of a machine.
        &&& 0 < self.chunk_max_len <= usize::MAX
        &&& 0 < self.window_max_len <= usize::MAX
        &&& self.bytes_total <= usize::MAX
        &&& self.bytes_received <= usize::MAX
        &&& self.max_retries <= usize::MAX
        // The window is not larger than it may be, and does not reach past the file.
        &&& self.window.len() <= self.window_max_len
        &&& self.window_offset + self.window.len() <= self.chunks_total()
        // No byte is lost.
        &&& self.bytes_consumed + self.buffered() == self.bytes_received
        // Every connection is covered by a permit.
        &&& self.in_flight() <= self.permits.len()
        // The last permit is held until everything has arrived.
        &&& self.bytes_received < self.bytes_total ==> self.permits.len() >= 1
        &&& forall|i: int| 0 <= i < self.window.len() ==> #[trigger] self.chunk_wf(i)
    }

    /// The same stream with `chunk` at `index` of the window.
    pub open spec fn with_chunk(
        self,
        index: int,
        chunk: ChunkView<C::Future, C::Stream>,
    ) -> Self {
        StreamView { window: self.window.update(index, chunk), ..self }
    }

    /// The stream without the chunks at the start of the window that are exhausted.
    pub open spec fn stripped(self) -> Self
        decreases self.window.len(),
    {
        if self.window.len() > 0 && self.window[0].is_exhausted() {
            StreamView {
                window: self.window.drop_first(),
                window_offset: self.window_offset + 1,
                ..self
            }.stripped()
        } else {
            self
        }
    }

    /// The number of chunks that can still be launched.
    pub open spec fn room(self) -> int {
        let ahead = self.chunks_total() - self.window_offset - self.window.len();
        let space = self.window_max_len - self.window.len();
        if ahead < space {
            ahead
        } else {
            space
        }
    }

    /// The number of permits held that cover no connection.
    pub open spec fn free_permits(self) -> int {
        self.permits.len() - self.in_flight()
    }

    /// Whether the chunk at `index` is being connected to for the first time, over a connection
    /// that delivers just that chunk.
    pub open spec fn is_launched(self, index: int) -> bool {
        self.window[index] matches ChunkView::Connecting { future } && call_ensures(
            C::get,
            (&self.connector, self.start_of(index) as usize, self.len_of(index) as usize),
            future,
        )
    }

    /// Whether `after` is this stream with one more chunk launched, and nothing else changed.
    pub open spec fn launches_one(self, after: Self) -> bool {
        &&& after == (StreamView { window: after.window, ..self })
        &&& after.window.len() == self.window.len() + 1
        &&& after.window.drop_last() == self.window
        &&& after.is_launched(self.window.len() as int)
    }

    /// Whether `after` is what becomes of this stream when the throttler, asked for a permit
    /// to launch one more chunk, answers `offered`.
    pub open spec fn admits(self, offered: Option<T::Permit>, after: Self, admitted: bool) -> bool {
        match offered {
            Some(permit) => {
                &&& admitted
                &&& StreamView { permits: self.permits.push(permit), ..self }.launches_one(after)
            },
            None => !admitted && after == self,
        }
    }

    /// Whether `after` is this stream with some chunks launched: first under the permits that
    /// are free, then each under a permit that the throttler gave.
    pub open spec fn launches_some(self, after: Self) -> bool {
        let launched = after.window.len() - self.window.len();
        let acquired = after.permits.len() - self.permits.len();
        &&& after == (StreamView { window: after.window, permits: after.permits, ..self })
        &&& 0 <= launched <= self.room()
        &&& after.window.take(self.window.len() as int) == self.window
        &&& forall|i: int|
            self.window.len() <= i < after.window.len() ==> #[trigger] after.is_launched(i)
        &&& acquired == if launched > self.free_permits() {
            launched - self.free_permits()
        } else {
            0
        }
        &&& after.permits.take(self.permits.len() as int) == self.permits
        &&& forall|i: int|
            self.permits.len() <= i < after.permits.len() ==> call_ensures(
                T::try_acquire,
                (&self.throttler,),
                Some(#[trigger] after.permits[i]),
            )
    }

    /// Whether `after` is this stream with as many chunks launched as there is room for, or as
    /// many as came before the throttler refused a permit.
    pub open spec fn launches(self, after: Self) -> bool {
        &&& self.launches_some(after)
        &&& after.window.len() - self.window.len() < self.room() ==> {
            &&& after.window.len() - self.window.len() >= self.free_permits()
            &&& call_ensures(T::try_acquire, (&self.throttler,), None::<T::Permit>)
        }
    }

    /// The first chunk at or after `from` that holds a connection, or the end of the window.
    pub open spec fn next_in_flight(self, from: int) -> int
        decreases self.window.len() - from,
    {
        if 0 <= from < self.window.len() && self.window[from] is Finished {
            self.next_in_flight(from + 1)
        } else if from < self.window.len() {
            from
        } else {
            self.window.len() as int
        }
    }

    /// The stream once the first piece of the first chunk has been handed out.
    pub open spec fn consumed(self) -> Self {
        let front = self.window[0];
        StreamView {
            bytes_consumed: self.bytes_consumed + piece::bytes_contents(front.buffer()[0]).len(),
            ..self.with_chunk(0, front.with_buffer(front.buffer().drop_first()))
        }
    }

    /// Whether the stream, with all the chunks before `from` polled, becomes `after` and says
    /// `action`: the next chunk that holds a connection is polled, and when there is none the
    /// poll is over and the first piece that waits is handed out.
    pub open spec fn resumes(self, from: int, after: Self, action: PollAction<C::Error>) -> bool {
        let next = self.next_in_flight(from);
        if next < self.window.len() {
            &&& after == self
            &&& match self.window[next] {
                ChunkView::Connecting { .. } => {
                    action matches PollAction::PollConnecting { index } && index == next
                },
                ChunkView::Reconnecting { .. } => {
                    action matches PollAction::PollReconnecting { index } && index == next
                },
                _ => action matches PollAction::PollTransferring { index } && index == next,
            }
        } else if self.window.len() == 0 {
            after == self && action is Complete
        } else if self.window[0].buffer().len() == 0 {
            after == self && action is Wait
        } else {
            &&& after == self.consumed()
            &&& action matches PollAction::Yield { bytes } && bytes == self.window[0].buffer()[0]
        }
    }

    /// Whether the stream becomes `after` and says `action` when it is polled anew: exhausted
    /// chunks leave the window, further chunks are launched, and the chunks are polled from the
    /// first on.
    pub open spec fn polls(self, after: Self, action: PollAction<C::Error>) -> bool {
        exists|launched: Self| #[trigger]
            self.stripped().launches(launched) && launched.resumes(0, after, action)
    }

    /// The stream once the connection for the chunk at `index` is open.
    pub open spec fn connected(self, index: int, stream: C::Stream) -> Self {
        let c = self.window[index];
        self.with_chunk(
            index,
            ChunkView::Transferring {
                buffer: c.buffer(),
                stream,
                bytes_received: c.bytes_received(),
                retries_used: c.retries_used(),
            },
        )
    }

    /// The stream once `bytes` have arrived for the chunk at `index`.
    pub open spec fn received(self, index: int, bytes: Bytes) -> Self {
        StreamView {
            bytes_received: self.bytes_received + piece::bytes_contents(bytes).len(),
            ..self.with_chunk(index, self.window[index].with_piece(bytes))
        }
    }

    /// The stream once the chunk at `index` has no connection any more.
    pub open spec fn finished(self, index: int) -> Self {
        self.with_chunk(index, ChunkView::Finished { buffer: self.window[index].buffer() })
    }

    /// The stream once the connection of the chunk at `index` has delivered everything. A
    /// permit is given back with it, unless it is the last one and more is to come.
    pub open spec fn ended(self, index: int) -> Self {
        let finished = self.finished(index);
        if self.permits.len() > 1 || self.bytes_received >= self.bytes_total {
            StreamView { permits: self.permits.drop_last(), ..finished }
        } else {
            finished
        }
    }

    /// The stream once another connection is being opened for the chunk at `index`.
    pub open spec fn retrying(self, index: int, future: C::Future) -> Self {
        let c = self.window[index];
        self.with_chunk(
            index,
            ChunkView::Reconnecting {
                future,
                buffer: c.buffer(),
                bytes_received: c.bytes_received(),
                retries_used: c.retries_used() + 1,
            },
        )
    }

    /// The stream once it has given everything up.
    pub open spec fn cleared(self) -> Self {
        StreamView {
            bytes_total: 0,
            bytes_consumed: 0,
            bytes_received: 0,
            window: Seq::empty(),
            window_offset: 0,
            permits: Seq::empty(),
            ..self
        }
    }

    /// Whether the stream becomes `after` and says `action` when the connection of the chunk at
    /// `index` fails with `error`. If everything had arrived, the error is dropped. If the chunk
    /// may not be retried any more, the stream gives up. Else what has not arrived is asked
    /// for again.
    pub open spec fn retries(
        self,
        index: int,
        error: C::Error,
        after: Self,
        action: PollAction<C::Error>,
    ) -> bool {
        let c = self.window[index];
        if c.bytes_received() >= self.len_of(index) {
            self.finished(index).resumes(index + 1, after, action)
        } else if c.retries_used() >= self.max_retries {
            after == self.cleared() && action == (PollAction::Fail { error })
        } else {
            &&& after.window[index] matches ChunkView::Reconnecting { future, .. } && {
                &&& after == self.retrying(index, future)
                &&& call_ensures(
                    C::get,
                    (
                        &self.connector,
                        (self.start_of(index) + c.bytes_received()) as usize,
                        (self.len_of(index) - c.bytes_received()) as usize,
                    ),
                    future,
                )
            }
            &&& action matches PollAction::Delay { index: delayed, backoff_ms } && {
                &&& delayed == index
                &&& backoff_ms == retry::backoff_ms(c.retries_used() + 1)
            }
        }
    }

    /// Whether the stream becomes `after` and says `action` when polling the connection being
    /// opened for the chunk at `index` gave `event`.
    pub open spec fn connects(
        self,
        index: int,
        event: ConnectEvent<C::Stream, C::Error>,
        after: Self,
        action: PollAction<C::Error>,
    ) -> bool {
        match event {
            ConnectEvent::Pending => self.resumes(index + 1, after, action),
            ConnectEvent::Connected { stream } => {
                &&& after == self.connected(index, stream)
                &&& action matches PollAction::PollTransferring { index: next } && next == index
            },
            ConnectEvent::Failed { error } => self.retries(index, error, after, action),
        }
    }

    /// Whether the stream becomes `after` and says `action` when polling the open connection of
    /// the chunk at `index` gave `event`.
    pub open spec fn transfers(
        self,
        index: int,
        event: TransferEvent<C::Error>,
        after: Self,
        action: PollAction<C::Error>,
    ) -> bool {
        match event {
            TransferEvent::Pending => self.resumes(index + 1, after, action),
            TransferEvent::Piece { bytes } => {
                &&& after == self.received(index, bytes)
                &&& action matches PollAction::PollTransferring { index: next } && next == index
            },
            TransferEvent::Failed { error } => self.retries(index, error, after, action),
            TransferEvent::End => self.ended(index).resumes(index + 1, after, action),
        }
    }
}

} // verus!
