//! One chunk of the window: a connection being opened, a transfer, or data that has arrived.
use std::collections::VecDeque;

use bytes::Bytes;
use vstd::prelude::*;

use crate::stream::piece;

verus! {

/// A chunk on its way. `F` is a connection being opened, `S` the stream of pieces that an open
/// connection delivers.
pub enum Chunk<F, S> {
    /// The first connection for the chunk is being opened.
    Connecting { future: F },
    /// Waiting out a backoff and opening another connection, which resumes after the bytes
    /// that have been received.
    Reconnecting {
        future: F,
        buffer: VecDeque<Bytes>,
        bytes_received: usize,
        retries_used: usize,
    },
    /// Pieces are arriving.
    Transferring {
        buffer: VecDeque<Bytes>,
        stream: S,
        bytes_received: usize,
        retries_used: usize,
    },
    /// Everything has arrived. What has not been handed out is in `buffer`.
    Finished { buffer: VecDeque<Bytes> },
}

/// What a [`Chunk`] is.
#[verifier::ext_equal]
pub enum ChunkView<F, S> {
    Connecting { future: F },
    Reconnecting { future: F, buffer: Seq<Bytes>, bytes_received: nat, retries_used: nat },
    Transferring { buffer: Seq<Bytes>, stream: S, bytes_received: nat, retries_used: nat },
    Finished { buffer: Seq<Bytes> },
}

impl<F, S> View for Chunk<F, S> {
    type V = ChunkView<F, S>;

    open spec fn view(&self) -> ChunkView<F, S> {
        match *self {
            Chunk::Connecting { future } => ChunkView::Connecting { future },
            Chunk::Reconnecting { future, buffer, bytes_received, retries_used } => {
                ChunkView::Reconnecting {
                    future,
                    buffer: buffer@,
                    bytes_received: bytes_received as nat,
                    retries_used: retries_used as nat,
                }
            },
            Chunk::Transferring { buffer, stream, bytes_received, retries_used } => {
                ChunkView::Transferring {
                    buffer: buffer@,
                    stream,
                    bytes_received: bytes_received as nat,
                    retries_used: retries_used as nat,
                }
            },
            Chunk::Finished { buffer } => ChunkView::Finished { buffer: buffer@ },
        }
    }
}

impl<F, S> ChunkView<F, S> {
    /// The pieces that have arrived and have not been handed out.
    pub open spec fn buffer(self) -> Seq<Bytes> {
        match self {
            ChunkView::Connecting { .. } => Seq::empty(),
            ChunkView::Reconnecting { buffer, .. } => buffer,
            ChunkView::Transferring { buffer, .. } => buffer,
            ChunkView::Finished { buffer } => buffer,
        }
    }

    /// The number of bytes that have arrived and have not been handed out.
    pub open spec fn buffered(self) -> nat {
        piece::joined(self.buffer()).len()
    }

    /// The number of bytes that have arrived since the chunk was launched. A finished chunk
    /// does not keep count.
    pub open spec fn bytes_received(self) -> nat {
        match self {
            ChunkView::Reconnecting { bytes_received, .. } => bytes_received,
            ChunkView::Transferring { bytes_received, .. } => bytes_received,
            _ => 0,
        }
    }

    /// The number of retries that the chunk has used up.
    pub open spec fn retries_used(self) -> nat {
        match self {
            ChunkView::Reconnecting { retries_used, .. } => retries_used,
            ChunkView::Transferring { retries_used, .. } => retries_used,
            _ => 0,
        }
    }

    /// One for a chunk that still holds a connection, zero for a finished one.
    pub open spec fn in_flight(self) -> nat {
        if self is Finished {
            0
        } else {
            1
        }
    }

    /// Whether everything has arrived and been handed out.
    pub open spec fn is_exhausted(self) -> bool {
        self is Finished && self.buffer().len() == 0
    }

    /// The connection being opened, if one is.
    pub open spec fn future(self) -> Option<F> {
        match self {
            ChunkView::Connecting { future } => Some(future),
            ChunkView::Reconnecting { future, .. } => Some(future),
            _ => None,
        }
    }

    /// The stream of pieces, if a connection is open.
    pub open spec fn stream(self) -> Option<S> {
        match self {
            ChunkView::Transferring { stream, .. } => Some(stream),
            _ => None,
        }
    }

    /// The same chunk with `new_future` in place of the connection being opened.
    pub open spec fn with_future(self, new_future: F) -> Self {
        match self {
            ChunkView::Connecting { .. } => ChunkView::Connecting { future: new_future },
            ChunkView::Reconnecting { buffer, bytes_received, retries_used, .. } => {
                ChunkView::Reconnecting { future: new_future, buffer, bytes_received, retries_used }
            },
            _ => self,
        }
    }

    /// The same chunk with `new_stream` in place of the stream of pieces.
    pub open spec fn with_stream(self, new_stream: S) -> Self {
        match self {
            ChunkView::Transferring { buffer, bytes_received, retries_used, .. } => {
                ChunkView::Transferring {
                    buffer,
                    stream: new_stream,
                    bytes_received,
                    retries_used,
                }
            },
            _ => self,
        }
    }

    /// The same chunk with `new_buffer` in place of the pieces that wait to be handed out.
    pub open spec fn with_buffer(self, new_buffer: Seq<Bytes>) -> Self {
        match self {
            ChunkView::Connecting { .. } => self,
            ChunkView::Reconnecting { future, bytes_received, retries_used, .. } => {
                ChunkView::Reconnecting { future, buffer: new_buffer, bytes_received, retries_used }
            },
            ChunkView::Transferring { stream, bytes_received, retries_used, .. } => {
                ChunkView::Transferring { buffer: new_buffer, stream, bytes_received, retries_used }
            },
            ChunkView::Finished { .. } => ChunkView::Finished { buffer: new_buffer },
        }
    }

    /// The same chunk with `bytes` arrived over its open connection.
    pub open spec fn with_piece(self, bytes: Bytes) -> Self {
        match self {
            ChunkView::Transferring { buffer, stream, bytes_received, retries_used } => {
                ChunkView::Transferring {
                    buffer: buffer.push(bytes),
                    stream,
                    bytes_received: bytes_received + piece::bytes_contents(bytes).len(),
                    retries_used,
                }
            },
            _ => self,
        }
    }
}

/// The pieces of a chunk are a queue: one that arrives is put at the end, those that are left
/// when one is taken keep their order, and nothing else of the chunk changes. A chunk is
/// exhausted when it is finished and the queue is empty.
pub proof fn law_pieces_are_a_queue<F, S>(
    chunk: ChunkView<F, S>,
    bytes: Bytes,
    new_buffer: Seq<Bytes>,
)
    ensures
        match chunk {
            ChunkView::Connecting { .. } => {
                &&& chunk.buffer().len() == 0
                &&& chunk.with_buffer(new_buffer) == chunk
                &&& !chunk.is_exhausted()
            },
            ChunkView::Reconnecting { future, buffer, bytes_received, retries_used } => {
                &&& chunk.buffer() == buffer
                &&& chunk.with_buffer(new_buffer) == (ChunkView::<F, S>::Reconnecting {
                    future,
                    buffer: new_buffer,
                    bytes_received,
                    retries_used,
                })
                &&& !chunk.is_exhausted()
            },
            ChunkView::Transferring { buffer, stream, bytes_received, retries_used } => {
                &&& chunk.buffer() == buffer
                &&& chunk.with_buffer(new_buffer) == (ChunkView::<F, S>::Transferring {
                    buffer: new_buffer,
                    stream,
                    bytes_received,
                    retries_used,
                })
                &&& chunk.with_piece(bytes) == (ChunkView::<F, S>::Transferring {
                    buffer: buffer.push(bytes),
                    stream,
                    bytes_received: bytes_received + piece::bytes_contents(bytes).len(),
                    retries_used,
                })
                &&& !chunk.is_exhausted()
            },
            ChunkView::Finished { buffer } => {
                &&& chunk.buffer() == buffer
                &&& chunk.with_buffer(new_buffer) == (ChunkView::<F, S>::Finished {
                    buffer: new_buffer,
                })
                &&& chunk.is_exhausted() <==> buffer.len() == 0
            },
        },
{
}

impl<F, S> Chunk<F, S> {
    /// Whether everything has arrived.
    pub fn is_finished(&self) -> (finished: bool)
        ensures
            finished == (self@ is Finished),
    {
        matches!(self, Chunk::Finished { .. })
    }

    /// Whether everything has arrived and been handed out.
    pub fn is_exhausted(&self) -> (exhausted: bool)
        ensures
            exhausted == self@.is_exhausted(),
    {
        match self {
            Chunk::Connecting { .. } => false,
            Chunk::Reconnecting { .. } => false,
            Chunk::Transferring { .. } => false,
            Chunk::Finished { buffer } => buffer.len() == 0,
        }
    }

    /// Hands out the first piece that waits, if there is one.
    pub fn consume(&mut self) -> (consumed: Option<Bytes>)
        ensures
            match consumed {
                Some(bytes) => {
                    &&& old(self)@.buffer().len() > 0
                    &&& bytes == old(self)@.buffer()[0]
                    &&& final(self)@ == old(self)@.with_buffer(old(self)@.buffer().drop_first())
                },
                None => old(self)@.buffer().len() == 0 && final(self)@ == old(self)@,
            },
    {
        match self {
            Chunk::Connecting { .. } => None,
            Chunk::Reconnecting { buffer, .. } => buffer.pop_front(),
            Chunk::Transferring { buffer, .. } => buffer.pop_front(),
            Chunk::Finished { buffer } => buffer.pop_front(),
        }
    }

    /// Takes all the pieces that wait to be handed out.
    pub fn take_buffer(&mut self) -> (buffer: VecDeque<Bytes>)
        ensures
            buffer@ == old(self)@.buffer(),
            final(self)@ == old(self)@.with_buffer(Seq::empty()),
    {
        let mut taken: VecDeque<Bytes> = VecDeque::new();
        match self {
            Chunk::Connecting { .. } => {},
            Chunk::Reconnecting { buffer, .. } => std::mem::swap(buffer, &mut taken),
            Chunk::Transferring { buffer, .. } => std::mem::swap(buffer, &mut taken),
            Chunk::Finished { buffer } => std::mem::swap(buffer, &mut taken),
        }
        taken
    }

    /// Adds a piece that has arrived.
    pub fn receive(&mut self, bytes: Bytes)
        requires
            old(self)@ is Transferring,
            old(self)@.bytes_received() + piece::bytes_contents(bytes).len() <= usize::MAX,
        ensures
            final(self)@ == old(self)@.with_piece(bytes),
    {
        match self {
            Chunk::Transferring { buffer, bytes_received, .. } => {
                *bytes_received = *bytes_received + bytes.len();
                buffer.push_back(bytes);
            },
            _ => {},
        }
    }
}

} // verus!
