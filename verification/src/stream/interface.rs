//! What a chunked stream needs from its surroundings, and what it tells them.
use bytes::Bytes;
use vstd::prelude::*;

verus! {

/// Opens connections to the source of a file.
pub trait ChunkConnector: Send + Sync + Unpin {
    /// A connection being opened: once polled to completion it has become a `Stream`, or has
    /// failed with an `Error`.
    type Future;

    /// An open connection: polled again and again it delivers pieces of the requested bytes,
    /// until it ends or fails with an `Error`.
    type Stream;

    /// Why a connection failed.
    type Error;

    /// Begins to open a connection that delivers the `len` bytes of the file from `offset`.
    fn get(&self, offset: usize, len: usize) -> Self::Future;
}

/// Limits how many connections are open at once.
pub trait ChunkTrottler: Send + Sync + Unpin {
    /// The right to hold one connection. It is given back when it is dropped.
    type Permit;

    /// Asks for a permit and does not wait for one.
    fn try_acquire(&self) -> Option<Self::Permit>;
}

/// What came of polling a connection being opened.
#[derive(Debug)]
pub enum ConnectEvent<S, E> {
    /// It is not open yet, and the task will be woken.
    Pending,
    /// It is open.
    Connected { stream: S },
    /// It failed.
    Failed { error: E },
}

/// What came of polling an open connection.
#[derive(Debug)]
pub enum TransferEvent<E> {
    /// Nothing has arrived, and the task will be woken.
    Pending,
    /// The next bytes have arrived.
    Piece { bytes: Bytes },
    /// It failed.
    Failed { error: E },
    /// It has delivered everything.
    End,
}

/// What whoever drives the stream is to do next.
#[derive(Debug)]
pub enum PollAction<E> {
    /// Poll the connection being opened for the chunk at `index`, for the first time round.
    PollConnecting { index: usize },
    /// Poll the connection being opened for the chunk at `index`, to retry it.
    PollReconnecting { index: usize },
    /// Poll the open connection of the chunk at `index`.
    PollTransferring { index: usize },
    /// Put a wait of `backoff_ms` milliseconds before the connection being opened for the chunk
    /// at `index`, then go on with that chunk.
    Delay { index: usize, backoff_ms: u64 },
    /// The poll is over: hand out `bytes`.
    Yield { bytes: Bytes },
    /// The poll is over: report `error`.
    Fail { error: E },
    /// The poll is over: nothing can be handed out yet.
    Wait,
    /// The poll is over: the stream has ended.
    Complete,
}

} // verus!
