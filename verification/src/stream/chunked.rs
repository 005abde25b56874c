//! A stream that fetches a file in chunks and hands it out in order.
use std::collections::VecDeque;

use vstd::arithmetic::power2;
use vstd::prelude::*;

use crate::stream::chunk::{Chunk, ChunkView};
use crate::stream::model::StreamView;
use crate::stream::piece;
use crate::stream::interface::{
    ChunkConnector, ChunkTrottler, ConnectEvent, PollAction, TransferEvent,
};
use crate::stream::preserve;
use crate::stream::range;
use crate::stream::range::{count_chunks, ChunkRange};
use crate::stream::retry;
use crate::stream::retry::retry_backoff_ms;
use crate::stream::window;

verus! {

/// What a [`ChunkedStream`] is made from.
pub struct ChunkedStreamArgs<C: ChunkConnector, T: ChunkTrottler> {
    /// The length of every chunk but the last, which is not zero.
    pub chunk_max_len: usize,
    /// The length of the file.
    pub bytes_total: usize,
    /// The largest number of chunks that may be on their way, which is not zero.
    pub window_max_len: usize,
    /// The number of times that each chunk may be retried.
    pub max_retries: usize,
    pub connector: C,
    pub throttler: T,
    /// The permit that covers the connection of the first chunk.
    pub initial_permit: T::Permit,
    /// The open connection that delivers the first chunk.
    pub initial_chunk_stream: C::Stream,
}

/// A stream that fetches a file in chunks, several at once, and hands it out in order.
///
/// The stream does not poll connections itself. [`ChunkedStream::poll_next`] begins a poll and
/// says what is to be done; what came of it is handed back, and the answer is again what is to
/// be done, until the poll is over.
pub struct ChunkedStream<C: ChunkConnector, T: ChunkTrottler> {
    chunk_max_len: usize,
    bytes_total: usize,
    bytes_consumed: usize,
    bytes_received: usize,
    window: Vec<Chunk<C::Future, C::Stream>>,
    window_offset: usize,
    window_max_len: usize,
    max_retries: usize,
    connector: C,
    throttler: T,
    permits: Vec<T::Permit>,
}

impl<C: ChunkConnector, T: ChunkTrottler> View for ChunkedStream<C, T> {
    type V = StreamView<C, T>;

    closed spec fn view(&self) -> StreamView<C, T> {
        StreamView {
            chunk_max_len: self.chunk_max_len as nat,
            bytes_total: self.bytes_total as nat,
            bytes_consumed: self.bytes_consumed as nat,
            bytes_received: self.bytes_received as nat,
            window: self.window@.map_values(|c: Chunk<C::Future, C::Stream>| c@),
            window_offset: self.window_offset as nat,
            window_max_len: self.window_max_len as nat,
            max_retries: self.max_retries as nat,
            permits: self.permits@,
            connector: self.connector,
            throttler: self.throttler,
        }
    }
}

impl<C: ChunkConnector, T: ChunkTrottler> ChunkedStreamArgs<C, T> {
    /// The stream before anything has arrived: the first chunk is being transferred, unless the
    /// file is empty.
    pub open spec fn initial(self) -> StreamView<C, T> {
        StreamView {
            chunk_max_len: self.chunk_max_len as nat,
            bytes_total: self.bytes_total as nat,
            bytes_consumed: 0,
            bytes_received: 0,
            window: if self.bytes_total > 0 {
                seq![
                    ChunkView::Transferring {
                        buffer: Seq::empty(),
                        stream: self.initial_chunk_stream,
                        bytes_received: 0,
                        retries_used: 0,
                    },
                ]
            } else {
                Seq::empty()
            },
            window_offset: 0,
            window_max_len: self.window_max_len as nat,
            max_retries: self.max_retries as nat,
            permits: if self.bytes_total > 0 {
                seq![self.initial_permit]
            } else {
                Seq::empty()
            },
            connector: self.connector,
            throttler: self.throttler,
        }
    }
}

/// A stream begins well-formed.
pub proof fn lemma_initial<C: ChunkConnector, T: ChunkTrottler>(args: ChunkedStreamArgs<C, T>)
    requires
        args.chunk_max_len > 0,
        args.window_max_len > 0,
    ensures
        args.initial().wf(),
{
    let s = args.initial();
    range::lemma_chunk_count(s.bytes_total, s.chunk_max_len, 0);
    let b = s.window.map_values(|c: ChunkView<C::Future, C::Stream>| c.buffered());
    let n = s.window.map_values(|c: ChunkView<C::Future, C::Stream>| c.in_flight());
    if s.bytes_total > 0 {
        assert(b.drop_last() =~= Seq::<nat>::empty());
        assert(n.drop_last() =~= Seq::<nat>::empty());
        assert(b.last() == 0);
        assert(n.last() == 1);
        reveal_with_fuel(crate::stream::sum::sum, 2);
    } else {
        assert(b.len() == 0 && n.len() == 0);
    }
}

impl<C: ChunkConnector, T: ChunkTrottler> ChunkedStream<C, T> {
    /// Makes the stream of a file whose first chunk is being transferred.
    pub fn new(args: ChunkedStreamArgs<C, T>) -> (stream: Self)
        requires
            args.chunk_max_len > 0,
            args.window_max_len > 0,
        ensures
            stream@ == args.initial(),
            stream@.wf(),
    {
        proof {
            lemma_initial(args);
        }
        let mut window: Vec<Chunk<C::Future, C::Stream>> = Vec::new();
        let mut permits: Vec<T::Permit> = Vec::new();
        if args.bytes_total > 0 {
            window.push(
                Chunk::Transferring {
                    buffer: VecDeque::new(),
                    stream: args.initial_chunk_stream,
                    bytes_received: 0,
                    retries_used: 0,
                },
            );
            permits.push(args.initial_permit);
        }
        let stream = ChunkedStream {
            chunk_max_len: args.chunk_max_len,
            bytes_total: args.bytes_total,
            bytes_consumed: 0,
            bytes_received: 0,
            window,
            window_offset: 0,
            window_max_len: args.window_max_len,
            max_retries: args.max_retries,
            connector: args.connector,
            throttler: args.throttler,
            permits,
        };
        assert(stream@.window =~= args.initial().window);
        assert(stream@.permits =~= args.initial().permits);
        stream
    }

    /// The number of bytes that have arrived.
    pub fn bytes_received(&self) -> (received: usize)
        ensures
            received == self@.bytes_received,
    {
        self.bytes_received
    }

    /// Begins a poll: takes exhausted chunks out of the window, launches further chunks, and
    /// says what is to be done first.
    pub fn poll_next(&mut self) -> (action: PollAction<C::Error>)
        requires
            old(self)@.wf(),
        ensures
            final(self)@.wf(),
            old(self)@.polls(final(self)@, action),
    {
        self.strip_exhausted();
        self.launch_chunks();
        let ghost launched = self@;
        let action = self.resume(0);
        assert(old(self)@.stripped().launches(launched) && launched.resumes(0, self@, action));
        action
    }

    /// Takes exhausted chunks out of the window, from its start.
    fn strip_exhausted(&mut self)
        requires
            old(self)@.wf(),
        ensures
            final(self)@.wf(),
            final(self)@ == old(self)@.stripped(),
    {
        while self.window.len() > 0 && self.window[0].is_exhausted()
            invariant
                self@.wf(),
                self@.stripped() == old(self)@.stripped(),
            decreases self.window.len(),
        {
            let ghost before = self@;
            proof {
                preserve::lemma_strip_one(before);
                range::lemma_chunk_count(before.bytes_total, before.chunk_max_len, 0);
            }
            let _ = self.window.remove(0);
            self.window_offset = self.window_offset + 1;
            assert(self@.window =~= before.window.drop_first());
        }
    }

    /// Counts the chunks that hold a connection.
    fn count_in_flight(&self) -> (count: usize)
        ensures
            count == self@.in_flight(),
    {
        let mut count: usize = 0;
        let mut i: usize = 0;
        assert(self@.window.take(0).map_values(
            |c: ChunkView<C::Future, C::Stream>| c.in_flight(),
        ).len() == 0);
        while i < self.window.len()
            invariant
                i <= self.window.len(),
                count <= i,
                count == window::in_flight_in(self@.window.take(i as int)),
            decreases self.window.len() - i,
        {
            proof {
                let longer = self@.window.take(i + 1).map_values(
                    |c: ChunkView<C::Future, C::Stream>| c.in_flight(),
                );
                assert(longer.drop_last() =~= self@.window.take(i as int).map_values(
                    |c: ChunkView<C::Future, C::Stream>| c.in_flight(),
                ));
            }
            if !self.window[i].is_finished() {
                count = count + 1;
            }
            i = i + 1;
        }
        assert(self@.window.take(i as int) =~= self@.window);
        count
    }

    /// Launches the chunks that there is room for, while there are permits to cover them: first
    /// under permits that were not given back, then under permits asked for one by one. A refusal
    /// is not waited out: under load, other files come before more chunks of this one.
    fn launch_chunks(&mut self)
        requires
            old(self)@.wf(),
        ensures
            final(self)@.wf(),
            old(self)@.launches(final(self)@),
    {
        let chunks_total: usize = count_chunks(self.bytes_total, self.chunk_max_len);
        let mut free_permits: usize = self.permits.len() - self.count_in_flight();
        proof {
            range::lemma_chunk_count(self@.bytes_total, self@.chunk_max_len, 0);
            assert(self@.window.take(self@.window.len() as int) =~= self@.window);
            assert(self@.permits.take(self@.permits.len() as int) =~= self@.permits);
        }
        while self.window_offset + self.window.len() < chunks_total && self.window.len()
            < self.window_max_len
            invariant_except_break
                free_permits == if self@.window.len() - old(self)@.window.len() <= old(
                    self,
                )@.free_permits() {
                    old(self)@.free_permits() - (self@.window.len() - old(self)@.window.len())
                } else {
                    0
                },
            invariant
                old(self)@.wf(),
                self@.wf(),
                old(self)@.launches_some(self@),
                chunks_total == self@.chunks_total(),
                chunks_total <= usize::MAX,
            ensures
                old(self)@.launches(self@),
            decreases self.window_max_len - self.window.len(),
        {
            let ghost before = self@;
            proof {
                preserve::lemma_launches_some(old(self)@, before);
            }
            if free_permits > 0 {
                free_permits = free_permits - 1;
                self.launch_chunk();
                proof {
                    preserve::lemma_launches_next(old(self)@, before, before, self@);
                }
            } else {
                let offered = self.throttler.try_acquire();
                let ghost answer = offered;
                if !self.accept_permit(offered) {
                    break;
                }
                proof {
                    let covered = StreamView {
                        permits: before.permits.push(answer->0),
                        ..before
                    };
                    assert(covered.permits.drop_last() =~= before.permits);
                    preserve::lemma_launches_next(old(self)@, before, covered, self@);
                }
            }
        }
    }

    /// Launches the next chunk if the throttler, asked for a permit to cover it, offered one.
    fn accept_permit(&mut self, offered: Option<T::Permit>) -> (admitted: bool)
        requires
            old(self)@.wf(),
            old(self)@.room() > 0,
        ensures
            final(self)@.wf(),
            old(self)@.admits(offered, final(self)@, admitted),
    {
        match offered {
            Some(permit) => {
                self.permits.push(permit);
                proof {
                    preserve::lemma_more_permits(old(self)@, self@);
                }
                self.launch_chunk();
                true
            },
            None => false,
        }
    }

    /// Launches the next chunk, under a permit that is free.
    fn launch_chunk(&mut self)
        requires
            old(self)@.wf(),
            old(self)@.room() > 0,
            old(self)@.free_permits() > 0,
        ensures
            final(self)@.wf(),
            old(self)@.launches_one(final(self)@),
    {
        let ghost before = self@;
        proof {
            range::lemma_chunk_count(
                before.bytes_total,
                before.chunk_max_len,
                before.window_offset + before.window.len(),
            );
        }
        let range = self.chunk_range(self.window.len());
        let future = self.connector.get(range.offset, range.len);
        self.window.push(Chunk::Connecting { future });
        assert(self@.window.drop_last() =~= before.window);
        proof {
            assert(self@.is_launched(before.window.len() as int));
            preserve::lemma_launches_one(before, self@);
        }
    }

    /// Goes on with the chunk at `from`, once all the chunks before it have been polled.
    pub fn resume(&mut self, from: usize) -> (action: PollAction<C::Error>)
        requires
            old(self)@.wf(),
        ensures
            final(self)@.wf(),
            old(self)@.resumes(from as int, final(self)@, action),
    {
        let mut index: usize = from;
        while index < self.window.len() && self.window[index].is_finished()
            invariant
                self@ == old(self)@,
                self@.next_in_flight(from as int) == self@.next_in_flight(index as int),
            decreases self.window.len() - index,
        {
            index = index + 1;
        }
        if index < self.window.len() {
            match &self.window[index] {
                Chunk::Connecting { .. } => PollAction::PollConnecting { index },
                Chunk::Reconnecting { .. } => PollAction::PollReconnecting { index },
                _ => PollAction::PollTransferring { index },
            }
        } else if self.window.len() > 0 {
            // A chunk that waits out a backoff still hands out what it has.
            let ghost before = self@;
            let consumed = self.window[0].consume();
            match consumed {
                Some(bytes) => {
                    proof {
                        window::lemma_update(before.window, 0, before.window[0]);
                        piece::lemma_joined_drop_first(before.window[0].buffer());
                        preserve::lemma_consumed(before);
                    }
                    self.bytes_consumed = self.bytes_consumed + bytes.len();
                    assert(self@.window =~= before.consumed().window);
                    PollAction::Yield { bytes }
                },
                None => {
                    assert(self@.window =~= before.window);
                    PollAction::Wait
                },
            }
        } else {
            PollAction::Complete
        }
    }

    /// The bytes of the file that the chunk at `index` of the window holds: none if it would
    /// begin where the file ends.
    pub fn chunk_range(&self, index: usize) -> (range: ChunkRange)
        requires
            self@.wf(),
            self@.start_of(index as int) <= self@.bytes_total,
        ensures
            range.offset == self@.start_of(index as int),
            range.len == self@.len_of(index as int),
            range.offset == (self@.window_offset + index) * self@.chunk_max_len,
            range.len == if self@.bytes_total - range.offset < self@.chunk_max_len {
                self@.bytes_total - range.offset
            } else {
                self@.chunk_max_len as int
            },
            range.len > 0 <==> self@.window_offset + index < self@.chunks_total(),
            range.len <= self@.chunk_max_len,
            range.offset + range.len <= self@.bytes_total,
    {
        proof {
            let k = (self@.window_offset + index) as nat;
            let max_len = self@.chunk_max_len;
            range::lemma_chunk_count(self@.bytes_total, max_len, k);
            assert(k <= k * max_len) by (nonlinear_arith)
                requires
                    max_len > 0,
            ;
        }
        let offset: usize = (self.window_offset + index) * self.chunk_max_len;
        let left: usize = self.bytes_total - offset;
        let len: usize = if left < self.chunk_max_len {
            left
        } else {
            self.chunk_max_len
        };
        ChunkRange { offset, len }
    }

    /// Begins to open a connection for the `retries_used`-th retry of a chunk, and says for how
    /// many milliseconds it is to be held back.
    pub fn chunk_retry_future(&self, offset: usize, len: usize, retries_used: usize) -> (retry: (
        C::Future,
        u64,
    ))
        requires
            retries_used >= 1,
        ensures
            call_ensures(C::get, (&self@.connector, offset, len), retry.0),
            retry.1 == retry::backoff_ms(retries_used as nat),
            retries_used <= 5 ==> retry.1 == 100 * power2::pow2((retries_used - 1) as nat),
            retries_used >= 6 ==> retry.1 == 3200,
    {
        proof {
            retry::law_backoff_in_milliseconds(retries_used as nat);
        }
        let future = self.connector.get(offset, len);
        let backoff: u64 = retry_backoff_ms(retries_used);
        (future, backoff)
    }

    /// Acts on the failure of the connection of the chunk at `index`.
    fn retry_chunk(&mut self, index: usize, error: C::Error) -> (action: PollAction<C::Error>)
        requires
            old(self)@.wf(),
            index < old(self)@.window.len(),
            !(old(self)@.window[index as int] is Finished),
        ensures
            final(self)@.wf(),
            old(self)@.retries(index as int, error, final(self)@, action),
    {
        let ghost before = self@;
        assert(before.chunk_wf(index as int));
        proof {
            let k = (before.window_offset + index) as nat;
            range::lemma_chunk_count(before.bytes_total, before.chunk_max_len, k);
        }
        let range = self.chunk_range(index);
        let (bytes_received, retries_used): (usize, usize) = match &self.window[index] {
            Chunk::Reconnecting { bytes_received, retries_used, .. } => (
                *bytes_received,
                *retries_used,
            ),
            Chunk::Transferring { bytes_received, retries_used, .. } => (
                *bytes_received,
                *retries_used,
            ),
            _ => (0, 0),
        };
        if bytes_received >= range.len {
            // Everything has already arrived, so the trailing error is dropped instead of
            // healthy data.
            let buffer = self.window[index].take_buffer();
            self.window[index] = Chunk::Finished { buffer };
            assert(self@.window =~= before.finished(index as int).window);
            proof {
                preserve::lemma_finished(before, index as int);
            }
            return self.resume(index + 1);
        }
        if retries_used >= self.max_retries {
            // Everything is released, and the stream ends even for a consumer that goes on
            // polling it.
            self.clear();
            return PollAction::Fail { error };
        }
        let retries_used: usize = retries_used + 1;
        let retry_offset: usize = range.offset + bytes_received;
        let retry_len: usize = range.len - bytes_received;
        let (future, backoff_ms): (C::Future, u64) = self.chunk_retry_future(
            retry_offset,
            retry_len,
            retries_used,
        );
        let buffer = self.window[index].take_buffer();
        let ghost reopened = future;
        self.window[index] = Chunk::Reconnecting { future, buffer, bytes_received, retries_used };
        assert(self@.window =~= before.retrying(index as int, reopened).window);
        proof {
            preserve::lemma_retrying(before, index as int, reopened);
        }
        PollAction::Delay { index, backoff_ms }
    }

    /// Acts on what came of polling the connection being opened for the chunk at `index`.
    pub fn poll_connecting_chunk(
        &mut self,
        index: usize,
        event: ConnectEvent<C::Stream, C::Error>,
    ) -> (action: PollAction<C::Error>)
        requires
            old(self)@.wf(),
            index < old(self)@.window.len(),
            old(self)@.window[index as int] is Connecting,
        ensures
            final(self)@.wf(),
            old(self)@.connects(index as int, event, final(self)@, action),
    {
        let ghost before = self@;
        match event {
            ConnectEvent::Pending => self.resume(index + 1),
            ConnectEvent::Connected { stream } => {
                let ghost opened = stream;
                self.window[index] = Chunk::Transferring {
                    buffer: VecDeque::new(),
                    stream,
                    bytes_received: 0,
                    retries_used: 0,
                };
                assert(self@.window =~= before.connected(index as int, opened).window);
                proof {
                    preserve::lemma_connected(before, index as int, opened);
                }
                PollAction::PollTransferring { index }
            },
            ConnectEvent::Failed { error } => self.retry_chunk(index, error),
        }
    }

    /// Acts on what came of polling the connection being opened to retry the chunk at `index`.
    pub fn poll_reconnecting_chunk(
        &mut self,
        index: usize,
        event: ConnectEvent<C::Stream, C::Error>,
    ) -> (action: PollAction<C::Error>)
        requires
            old(self)@.wf(),
            index < old(self)@.window.len(),
            old(self)@.window[index as int] is Reconnecting,
        ensures
            final(self)@.wf(),
            old(self)@.connects(index as int, event, final(self)@, action),
    {
        let ghost before = self@;
        match event {
            ConnectEvent::Pending => self.resume(index + 1),
            ConnectEvent::Connected { stream } => {
                let ghost opened = stream;
                let (bytes_received, retries_used): (usize, usize) = match &self.window[index] {
                    Chunk::Reconnecting { bytes_received, retries_used, .. } => (
                        *bytes_received,
                        *retries_used,
                    ),
                    _ => (0, 0),
                };
                let buffer = self.window[index].take_buffer();
                self.window[index] = Chunk::Transferring {
                    buffer,
                    stream,
                    bytes_received,
                    retries_used,
                };
                assert(self@.window =~= before.connected(index as int, opened).window);
                proof {
                    preserve::lemma_connected(before, index as int, opened);
                }
                PollAction::PollTransferring { index }
            },
            ConnectEvent::Failed { error } => self.retry_chunk(index, error),
        }
    }

    /// Acts on what came of polling the open connection of the chunk at `index`.
    pub fn poll_transferring_chunk(
        &mut self,
        index: usize,
        event: TransferEvent<C::Error>,
    ) -> (action: PollAction<C::Error>)
        requires
            old(self)@.wf(),
            index < old(self)@.window.len(),
            old(self)@.window[index as int] is Transferring,
            event matches TransferEvent::Piece { bytes } ==> old(self)@.bytes_received
                + piece::bytes_contents(bytes).len() <= usize::MAX,
        ensures
            final(self)@.wf(),
            old(self)@.transfers(index as int, event, final(self)@, action),
    {
        let ghost before = self@;
        assert(before.chunk_wf(index as int));
        match event {
            TransferEvent::Pending => self.resume(index + 1),
            TransferEvent::Piece { bytes } => {
                let ghost arrived = bytes;
                self.bytes_received = self.bytes_received + bytes.len();
                self.window[index].receive(bytes);
                assert(self@.window =~= before.received(index as int, arrived).window);
                proof {
                    preserve::lemma_received(before, index as int, arrived);
                }
                PollAction::PollTransferring { index }
            },
            TransferEvent::Failed { error } => self.retry_chunk(index, error),
            TransferEvent::End => {
                let buffer = self.window[index].take_buffer();
                self.window[index] = Chunk::Finished { buffer };
                proof {
                    preserve::lemma_finished(before, index as int);
                }
                // The last permit is kept while more is to come. Were it given back, another
                // stream might take it, and this one could not go on.
                if self.permits.len() > 1 || self.bytes_received >= self.bytes_total {
                    let _ = self.permits.pop();
                }
                assert(self@.window =~= before.ended(index as int).window);
                self.resume(index + 1)
            },
        }
    }

    /// The connection being opened for the chunk at `index`.
    pub fn future_mut(&mut self, index: usize) -> (future: Option<&mut C::Future>)
        requires
            old(self)@.wf(),
            index < old(self)@.window.len(),
        ensures
            match future {
                Some(future) => {
                    let chunk = old(self)@.window[index as int];
                    &&& chunk.future() == Some(*future)
                    &&& final(self)@ == old(self)@.with_chunk(
                        index as int,
                        chunk.with_future(*final(future)),
                    )
                    &&& final(self)@.wf()
                },
                None => {
                    &&& old(self)@.window[index as int].future() is None
                    &&& final(self)@ == old(self)@
                },
            },
    {
        proof {
            preserve::lemma_handles(self@, index as int);
        }
        match &mut self.window[index] {
            Chunk::Connecting { future } => Some(future),
            Chunk::Reconnecting { future, .. } => Some(future),
            _ => None,
        }
    }

    /// The open connection of the chunk at `index`.
    pub fn stream_mut(&mut self, index: usize) -> (stream: Option<&mut C::Stream>)
        requires
            old(self)@.wf(),
            index < old(self)@.window.len(),
        ensures
            match stream {
                Some(stream) => {
                    let chunk = old(self)@.window[index as int];
                    &&& chunk.stream() == Some(*stream)
                    &&& final(self)@ == old(self)@.with_chunk(
                        index as int,
                        chunk.with_stream(*final(stream)),
                    )
                    &&& final(self)@.wf()
                },
                None => {
                    &&& old(self)@.window[index as int].stream() is None
                    &&& final(self)@ == old(self)@
                },
            },
    {
        proof {
            preserve::lemma_handles(self@, index as int);
        }
        match &mut self.window[index] {
            Chunk::Transferring { stream, .. } => Some(stream),
            _ => None,
        }
    }

    /// Gives everything up. The stream has ended.
    fn clear(&mut self)
        requires
            old(self)@.wf(),
        ensures
            final(self)@.wf(),
            final(self)@ == old(self)@.cleared(),
    {
        let ghost before = self@;
        self.bytes_total = 0;
        self.bytes_consumed = 0;
        self.bytes_received = 0;
        self.window_offset = 0;
        self.window.clear();
        self.permits.clear();
        assert(self@.window =~= before.cleared().window);
        proof {
            preserve::lemma_cleared(before);
        }
    }
}

} // verus!
