//! A stream does not end before it has asked for every chunk, as long as no connection delivers
//! more than was asked of it.
use vstd::prelude::*;

use crate::stream::chunk::ChunkView;
use crate::stream::chunked::ChunkedStreamArgs;
use crate::stream::interface::{
    ChunkConnector, ChunkTrottler, ConnectEvent, PollAction, TransferEvent,
};
use crate::stream::model::StreamView;
use crate::stream::piece;
use crate::stream::preserve;
use crate::stream::range;
use crate::stream::run;
use crate::stream::run::{Call, Exchange};
use crate::stream::sum;

verus! {

impl<C: ChunkConnector, T: ChunkTrottler> StreamView<C, T> {
    /// The number of chunks that have been launched.
    pub open spec fn launched_count(self) -> nat {
        self.window_offset + self.window.len()
    }

    /// Where in the file the launched chunks end.
    pub open spec fn launched_end(self) -> nat {
        if self.launched_count() < self.chunks_total() {
            self.start_of(self.window.len() as int)
        } else {
            self.bytes_total
        }
    }

    /// The number of bytes that the connection of the chunk at `index` has still to deliver.
    pub open spec fn missing(self, index: int) -> nat {
        if self.window[index] is Finished || self.window[index].bytes_received() >= self.len_of(
            index,
        ) {
            0
        } else {
            (self.len_of(index) - self.window[index].bytes_received()) as nat
        }
    }

    /// What each chunk of the window has still to deliver.
    pub open spec fn all_missing(self) -> Seq<nat> {
        Seq::new(self.window.len(), |i: int| self.missing(i))
    }

    /// Whether what has arrived, and what is still to come over the connections, are bytes of
    /// the chunks that have been launched.
    pub open spec fn is_covered(self) -> bool {
        self.bytes_received + sum::sum(self.all_missing()) <= self.launched_end()
    }

    /// Whether what `call` reports does not go beyond the bytes that a connection was asked for.
    pub open spec fn is_bounded_call(self, call: Call<C>) -> bool {
        call matches Call::Transferring { index, arrival: TransferEvent::Piece { bytes } }
            ==> self.window[index as int].bytes_received() + piece::bytes_contents(bytes).len()
            <= self.len_of(index as int)
    }
}

/// Whether no connection delivers more, in the course of `run`, than it was asked for.
pub open spec fn is_bounded_run<C: ChunkConnector, T: ChunkTrottler>(
    first: StreamView<C, T>,
    run: Seq<Exchange<C, T>>,
) -> bool
    decreases run.len(),
{
    run.len() > 0 ==> {
        &&& is_bounded_run(first, run.drop_last())
        &&& run::state_after(first, run.drop_last()).is_bounded_call(run.last().call)
    }
}

/// A chunk whose place in the window is taken by another one.
proof fn lemma_with_chunk<C: ChunkConnector, T: ChunkTrottler>(
    s: StreamView<C, T>,
    index: int,
    chunk: ChunkView<C::Future, C::Stream>,
)
    requires
        0 <= index < s.window.len(),
    ensures
        sum::sum(s.with_chunk(index, chunk).all_missing()) + s.missing(index) == sum::sum(
            s.all_missing(),
        ) + s.with_chunk(index, chunk).missing(index),
{
    let after = s.with_chunk(index, chunk);
    sum::lemma_sum_update(s.all_missing(), index, after.missing(index));
    assert(after.all_missing() =~= s.all_missing().update(index, after.missing(index)));
}

proof fn lemma_stripped_covered<C: ChunkConnector, T: ChunkTrottler>(s: StreamView<C, T>)
    requires
        s.is_covered(),
    ensures
        s.stripped().is_covered(),
    decreases s.window.len(),
{
    if s.window.len() > 0 && s.window[0].is_exhausted() {
        let next = StreamView {
            window: s.window.drop_first(),
            window_offset: s.window_offset + 1,
            ..s
        };
        sum::lemma_sum_drop_first(s.all_missing());
        assert(next.all_missing() =~= s.all_missing().drop_first());
        lemma_stripped_covered(next);
    }
}

proof fn lemma_launches_covered<C: ChunkConnector, T: ChunkTrottler>(
    s: StreamView<C, T>,
    after: StreamView<C, T>,
)
    requires
        s.chunk_max_len > 0,
        s.is_covered(),
        after == (StreamView { window: after.window, permits: after.permits, ..s }),
        s.window.len() <= after.window.len(),
        after.launched_count() <= after.chunks_total(),
        after.window.take(s.window.len() as int) == s.window,
        forall|i: int|
            s.window.len() <= i < after.window.len() ==> #[trigger] after.is_launched(i),
    ensures
        after.is_covered(),
    decreases after.window.len(),
{
    let last = after.window.len() - 1;
    if last < s.window.len() {
        assert(after.window =~= s.window);
        assert(after.all_missing() =~= s.all_missing());
    } else {
        let before = StreamView { window: after.window.drop_last(), ..after };
        assert(before.window.take(s.window.len() as int) =~= s.window);
        assert forall|i: int| s.window.len() <= i < before.window.len() implies #[trigger]
            before.is_launched(i) by {
            assert(after.is_launched(i));
        }
        lemma_launches_covered(s, before);
        assert(after.is_launched(last));
        assert(after.all_missing().drop_last() =~= before.all_missing());
        range::law_chunks_tile(
            s.bytes_total,
            s.chunk_max_len,
            (s.window_offset + last) as nat,
        );
    }
}

proof fn lemma_resumes_covered<C: ChunkConnector, T: ChunkTrottler>(
    s: StreamView<C, T>,
    from: int,
    after: StreamView<C, T>,
    action: PollAction<C::Error>,
)
    requires
        s.is_covered(),
        s.resumes(from, after, action),
    ensures
        after.is_covered(),
        after.window.len() == s.window.len(),
        after.window_offset == s.window_offset,
        after.bytes_total == s.bytes_total,
        after.chunk_max_len == s.chunk_max_len,
{
    assert(after.all_missing() =~= s.all_missing());
}

proof fn lemma_retries_covered<C: ChunkConnector, T: ChunkTrottler>(
    s: StreamView<C, T>,
    index: int,
    error: C::Error,
    after: StreamView<C, T>,
    action: PollAction<C::Error>,
)
    requires
        s.is_covered(),
        0 <= index < s.window.len(),
        !(s.window[index] is Finished),
        s.retries(index, error, after, action),
        !(action is Fail),
    ensures
        after.is_covered(),
        after.window.len() == s.window.len(),
{
    let c = s.window[index];
    if c.bytes_received() >= s.len_of(index) {
        lemma_with_chunk(s, index, ChunkView::Finished { buffer: c.buffer() });
        lemma_resumes_covered(s.finished(index), index + 1, after, action);
    } else {
        assert(after.all_missing() =~= s.all_missing());
    }
}

proof fn lemma_exchange_covered<C: ChunkConnector, T: ChunkTrottler>(
    s: StreamView<C, T>,
    exchange: Exchange<C, T>,
)
    requires
        s.wf(),
        s.is_covered(),
        s.window.len() == 0 ==> s.has_ended(),
        s.allows(exchange),
        s.is_bounded_call(exchange.call),
        !(exchange.action matches Some(action) && action is Fail),
    ensures
        exchange.after.is_covered(),
        exchange.after.window.len() == 0 ==> exchange.after.has_ended(),
{
    let after = exchange.after;
    match exchange.call {
        Call::Poll => {
            let action = exchange.action->0;
            let stripped = s.stripped();
            let launched = choose|launched: StreamView<C, T>| #[trigger]
                stripped.launches(launched) && launched.resumes(0, after, action);
            preserve::lemma_stripped(s);
            preserve::lemma_launches_some(stripped, launched);
            lemma_stripped_covered(s);
            lemma_launches_covered(stripped, launched);
            lemma_resumes_covered(launched, 0, after, action);
            if launched.window.len() == 0 {
                assert(launched.in_flight() == 0) by {
                    assert(launched.window.map_values(
                        |c: ChunkView<C::Future, C::Stream>| c.in_flight(),
                    ).len() == 0);
                }
                range::lemma_chunk_count(
                    launched.bytes_total,
                    launched.chunk_max_len,
                    launched.window_offset,
                );
            }
        },
        Call::Resume { from } => {
            lemma_resumes_covered(s, from as int, after, exchange.action->0);
        },
        Call::Connecting { index, event } | Call::Reconnecting { index, event } => {
            let action = exchange.action->0;
            match event {
                ConnectEvent::Pending => {
                    lemma_resumes_covered(s, index + 1, after, action);
                },
                ConnectEvent::Connected { .. } => {
                    assert(after.all_missing() =~= s.all_missing());
                },
                ConnectEvent::Failed { error } => {
                    lemma_retries_covered(s, index as int, error, after, action);
                },
            }
        },
        Call::Transferring { index, arrival } => {
            let action = exchange.action->0;
            let chunk = s.window[index as int];
            match arrival {
                TransferEvent::Pending => {
                    lemma_resumes_covered(s, index + 1, after, action);
                },
                TransferEvent::Piece { bytes } => {
                    lemma_with_chunk(s, index as int, chunk.with_piece(bytes));
                    let updated = s.with_chunk(index as int, chunk.with_piece(bytes));
                    assert(after.all_missing() =~= updated.all_missing());
                },
                TransferEvent::Failed { error } => {
                    lemma_retries_covered(s, index as int, error, after, action);
                },
                TransferEvent::End => {
                    let ended = s.ended(index as int);
                    lemma_with_chunk(
                        s,
                        index as int,
                        ChunkView::Finished { buffer: chunk.buffer() },
                    );
                    assert(ended.all_missing() =~= s.finished(index as int).all_missing());
                    lemma_resumes_covered(ended, index + 1, after, action);
                },
            }
        },
        Call::Future { .. } => {
            assert(after.all_missing() =~= s.all_missing());
        },
        Call::Stream { .. } => {
            assert(after.all_missing() =~= s.all_missing());
        },
    }
}

/// The window of a stream is empty only once it has ended, as long as no connection delivers
/// more than it was asked for.
pub proof fn lemma_run_covered<C: ChunkConnector, T: ChunkTrottler>(
    args: ChunkedStreamArgs<C, T>,
    run: Seq<Exchange<C, T>>,
)
    requires
        args.chunk_max_len > 0,
        args.window_max_len > 0,
        run::is_run(args.initial(), run),
        is_bounded_run(args.initial(), run),
    ensures
        !run::has_failed(run) ==> run::state_after(args.initial(), run).is_covered(),
        run::state_after(args.initial(), run).window.len() == 0 ==> run::state_after(
            args.initial(),
            run,
        ).has_ended(),
    decreases run.len(),
{
    let first = args.initial();
    run::lemma_run_wf(args, run);
    if run.len() == 0 {
        range::lemma_chunk_count(first.bytes_total, first.chunk_max_len, 0);
        if first.bytes_total > 0 {
            range::law_chunks_tile(first.bytes_total, first.chunk_max_len, 0);
            assert(sum::sum(first.all_missing()) == first.len_of(0)) by {
                reveal_with_fuel(sum::sum, 2);
                assert(first.missing(0) == first.len_of(0));
            }
            assert(first.start_of(1) == range::chunk_start(0 + 1, first.chunk_max_len));
        } else {
            assert(sum::sum(first.all_missing()) == 0);
        }
    } else {
        let shorter = run.drop_last();
        let s = run::state_after(first, shorter);
        lemma_run_covered(args, shorter);
        run::lemma_run_wf(args, shorter);
        run::lemma_has_failed(run);
        if run::has_failed(run) {
            run::lemma_given_up(run.last().after);
        } else {
            lemma_exchange_covered(s, run.last());
        }
    }
}

/// Connections that deliver what was asked of them, byte for byte, deliver no more than that.
pub proof fn law_true_connections_are_bounded<C: ChunkConnector, T: ChunkTrottler>(
    first: StreamView<C, T>,
    run: Seq<Exchange<C, T>>,
    file: Seq<u8>,
)
    requires
        run::is_run(first, run),
        run::is_true_run(first, run, file),
    ensures
        is_bounded_run(first, run),
    decreases run.len(),
{
    if run.len() > 0 {
        law_true_connections_are_bounded(first, run.drop_last(), file);
    }
}

} // verus!
