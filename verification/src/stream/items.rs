//! The pieces that a stream hands out are those that arrived, chunk after chunk.
use bytes::Bytes;
use vstd::prelude::*;

use crate::stream::chunked::ChunkedStreamArgs;
use crate::stream::coverage;
use crate::stream::interface::{
    ChunkConnector, ChunkTrottler, ConnectEvent, PollAction, TransferEvent,
};
use crate::stream::model::StreamView;
use crate::stream::preserve;
use crate::stream::run;
use crate::stream::run::{Call, Exchange};

verus! {

impl<C: ChunkConnector, T: ChunkTrottler> StreamView<C, T> {
    /// The piece that `call` brings for the `k`-th chunk of the file, if it brings one.
    pub open spec fn piece_for(self, call: Call<C>, k: int) -> Option<Bytes> {
        match call {
            Call::Transferring { index, arrival: TransferEvent::Piece { bytes } } => {
                if self.window_offset + index == k {
                    Some(bytes)
                } else {
                    None
                }
            },
            _ => None,
        }
    }

    /// Whether `handed` and the pieces in the window are all those of `arrived`, in their order.
    spec fn keeps(self, handed: Seq<Bytes>, arrived: spec_fn(int) -> Seq<Bytes>) -> bool {
        let offset = self.window_offset as int;
        &&& self.window.len() == 0 ==> handed == lined_up(arrived, self.window_offset)
        &&& self.window.len() > 0 ==> handed + self.window[0].buffer() == lined_up(
            arrived,
            self.window_offset + 1,
        )
        &&& forall|i: int|
            1 <= i < self.window.len() ==> #[trigger] self.window[i].buffer() == arrived(
                offset + i,
            )
        &&& forall|k: int| k >= self.launched_count() ==> (#[trigger] arrived(k)).len() == 0
    }
}

/// The pieces that arrived for the `k`-th chunk of the file in the course of `run`.
pub open spec fn pieces_of<C: ChunkConnector, T: ChunkTrottler>(
    first: StreamView<C, T>,
    run: Seq<Exchange<C, T>>,
    k: int,
) -> Seq<Bytes>
    decreases run.len(),
{
    if run.len() == 0 {
        Seq::empty()
    } else {
        let before = pieces_of(first, run.drop_last(), k);
        match run::state_after(first, run.drop_last()).piece_for(run.last().call, k) {
            Some(bytes) => before.push(bytes),
            None => before,
        }
    }
}

/// What `arrived` gives for each of the first `count` chunks, one chunk after the other.
pub open spec fn lined_up(arrived: spec_fn(int) -> Seq<Bytes>, count: nat) -> Seq<Bytes>
    decreases count,
{
    if count == 0 {
        Seq::empty()
    } else {
        lined_up(arrived, (count - 1) as nat) + arrived(count - 1)
    }
}

/// The pieces that arrived in the course of `run` for the first `count` chunks of the file, one
/// chunk after the other.
pub open spec fn pieces_in_order<C: ChunkConnector, T: ChunkTrottler>(
    first: StreamView<C, T>,
    run: Seq<Exchange<C, T>>,
    count: nat,
) -> Seq<Bytes> {
    lined_up(|k: int| pieces_of(first, run, k), count)
}

/// The pieces handed out in the course of `run`.
pub open spec fn items<C: ChunkConnector, T: ChunkTrottler>(
    run: Seq<Exchange<C, T>>,
) -> Seq<Bytes>
    decreases run.len(),
{
    if run.len() == 0 {
        Seq::empty()
    } else {
        let before = items(run.drop_last());
        match run.last().action {
            Some(PollAction::Yield { bytes }) => before.push(bytes),
            _ => before,
        }
    }
}

proof fn lemma_lined_up_same(
    a: spec_fn(int) -> Seq<Bytes>,
    b: spec_fn(int) -> Seq<Bytes>,
    count: nat,
)
    requires
        forall|k: int| 0 <= k < count ==> #[trigger] a(k) == b(k),
    ensures
        lined_up(a, count) == lined_up(b, count),
    decreases count,
{
    if count > 0 {
        lemma_lined_up_same(a, b, (count - 1) as nat);
        assert(a(count - 1) == b(count - 1));
    }
}

proof fn lemma_lined_up_prefix(arrived: spec_fn(int) -> Seq<Bytes>, fewer: nat, count: nat)
    requires
        fewer <= count,
    ensures
        lined_up(arrived, fewer).is_prefix_of(lined_up(arrived, count)),
    decreases count,
{
    if fewer < count {
        lemma_lined_up_prefix(arrived, fewer, (count - 1) as nat);
    }
}

proof fn lemma_stripped_keeps<C: ChunkConnector, T: ChunkTrottler>(
    s: StreamView<C, T>,
    handed: Seq<Bytes>,
    arrived: spec_fn(int) -> Seq<Bytes>,
)
    requires
        s.keeps(handed, arrived),
    ensures
        s.stripped().keeps(handed, arrived),
    decreases s.window.len(),
{
    if s.window.len() > 0 && s.window[0].is_exhausted() {
        let next = StreamView {
            window: s.window.drop_first(),
            window_offset: s.window_offset + 1,
            ..s
        };
        assert(handed + s.window[0].buffer() =~= handed);
        if next.window.len() > 0 {
            assert(s.window[1].buffer() == arrived(s.window_offset + 1int));
        }
        assert forall|i: int| 1 <= i < next.window.len() implies #[trigger]
            next.window[i].buffer() == arrived(next.window_offset + i) by {
            assert(s.window[i + 1].buffer() == arrived(s.window_offset + (i + 1)));
        }
        lemma_stripped_keeps(next, handed, arrived);
    }
}

proof fn lemma_launches_keeps<C: ChunkConnector, T: ChunkTrottler>(
    s: StreamView<C, T>,
    after: StreamView<C, T>,
    handed: Seq<Bytes>,
    arrived: spec_fn(int) -> Seq<Bytes>,
)
    requires
        s.keeps(handed, arrived),
        s.launches_some(after),
    ensures
        after.keeps(handed, arrived),
{
    assert forall|i: int| s.window.len() <= i < after.window.len() implies (
    #[trigger] after.window[i]).buffer() =~= arrived(s.window_offset + i) by {
        assert(after.is_launched(i));
        assert(arrived(s.window_offset + i).len() == 0);
    }
    assert forall|i: int| 0 <= i < s.window.len() implies #[trigger] after.window[i]
        == s.window[i] by {
        assert(after.window[i] == after.window.take(s.window.len() as int)[i]);
    }
}

proof fn lemma_resumes_keeps<C: ChunkConnector, T: ChunkTrottler>(
    s: StreamView<C, T>,
    from: int,
    after: StreamView<C, T>,
    action: PollAction<C::Error>,
    handed: Seq<Bytes>,
    arrived: spec_fn(int) -> Seq<Bytes>,
)
    requires
        s.keeps(handed, arrived),
        s.resumes(from, after, action),
    ensures
        after.keeps(
            match action {
                PollAction::Yield { bytes } => handed.push(bytes),
                _ => handed,
            },
            arrived,
        ),
{
    if action is Yield {
        let buffer = s.window[0].buffer();
        assert(handed.push(buffer[0]) + buffer.drop_first() =~= handed + buffer);
    }
}

/// A stream whose chunks hold the same pieces as before.
proof fn lemma_same_buffers<C: ChunkConnector, T: ChunkTrottler>(
    s: StreamView<C, T>,
    after: StreamView<C, T>,
    handed: Seq<Bytes>,
    arrived: spec_fn(int) -> Seq<Bytes>,
)
    requires
        s.keeps(handed, arrived),
        after.window_offset == s.window_offset,
        after.window.len() == s.window.len(),
        forall|i: int|
            0 <= i < s.window.len() ==> #[trigger] after.window[i].buffer()
                == s.window[i].buffer(),
    ensures
        after.keeps(handed, arrived),
{
}

proof fn lemma_retries_keeps<C: ChunkConnector, T: ChunkTrottler>(
    s: StreamView<C, T>,
    index: int,
    error: C::Error,
    after: StreamView<C, T>,
    action: PollAction<C::Error>,
    handed: Seq<Bytes>,
    arrived: spec_fn(int) -> Seq<Bytes>,
)
    requires
        s.keeps(handed, arrived),
        0 <= index < s.window.len(),
        s.retries(index, error, after, action),
        !(action is Fail),
    ensures
        after.keeps(
            match action {
                PollAction::Yield { bytes } => handed.push(bytes),
                _ => handed,
            },
            arrived,
        ),
{
    let c = s.window[index];
    if c.bytes_received() >= s.len_of(index) {
        lemma_same_buffers(s, s.finished(index), handed, arrived);
        lemma_resumes_keeps(s.finished(index), index + 1, after, action, handed, arrived);
    } else {
        lemma_same_buffers(s, after, handed, arrived);
    }
}

proof fn lemma_received_keeps<C: ChunkConnector, T: ChunkTrottler>(
    s: StreamView<C, T>,
    index: int,
    bytes: Bytes,
    handed: Seq<Bytes>,
    arrived: spec_fn(int) -> Seq<Bytes>,
    with_piece: spec_fn(int) -> Seq<Bytes>,
)
    requires
        s.keeps(handed, arrived),
        0 <= index < s.window.len(),
        s.window[index] is Transferring,
        forall|k: int| #[trigger]
            with_piece(k) == if k == s.window_offset + index {
                arrived(k).push(bytes)
            } else {
                arrived(k)
            },
    ensures
        s.received(index, bytes).keeps(handed, with_piece),
{
    let after = s.received(index, bytes);
    if index == 0 {
        lemma_lined_up_same(arrived, with_piece, s.window_offset);
        assert(handed + s.window[0].buffer().push(bytes) =~= (handed
            + s.window[0].buffer()).push(bytes));
        assert(lined_up(with_piece, s.window_offset + 1) =~= lined_up(
            arrived,
            s.window_offset + 1,
        ).push(bytes));
    } else {
        lemma_lined_up_same(arrived, with_piece, s.window_offset + 1);
    }
    assert forall|i: int| 1 <= i < after.window.len() implies #[trigger]
        after.window[i].buffer() == with_piece(after.window_offset + i) by {
        assert(s.window[i].buffer() == arrived(s.window_offset + i));
    }
}

proof fn lemma_exchange_keeps<C: ChunkConnector, T: ChunkTrottler>(
    s: StreamView<C, T>,
    exchange: Exchange<C, T>,
    handed: Seq<Bytes>,
    arrived: spec_fn(int) -> Seq<Bytes>,
    arrived_after: spec_fn(int) -> Seq<Bytes>,
)
    requires
        s.keeps(handed, arrived),
        s.allows(exchange),
        !(exchange.action matches Some(action) && action is Fail),
        forall|k: int| #[trigger]
            arrived_after(k) == match s.piece_for(exchange.call, k) {
                Some(bytes) => arrived(k).push(bytes),
                None => arrived(k),
            },
    ensures
        exchange.after.keeps(
            match exchange.action {
                Some(PollAction::Yield { bytes }) => handed.push(bytes),
                _ => handed,
            },
            arrived_after,
        ),
{
    let after = exchange.after;
    if !(exchange.call matches Call::Transferring { arrival, .. } && arrival is Piece) {
        assert(arrived_after =~= arrived);
    }
    match exchange.call {
        Call::Poll => {
            let action = exchange.action->0;
            let stripped = s.stripped();
            let launched = choose|launched: StreamView<C, T>| #[trigger]
                stripped.launches(launched) && launched.resumes(0, after, action);
            lemma_stripped_keeps(s, handed, arrived);
            lemma_launches_keeps(stripped, launched, handed, arrived);
            lemma_resumes_keeps(launched, 0, after, action, handed, arrived);
        },
        Call::Resume { from } => {
            lemma_resumes_keeps(s, from as int, after, exchange.action->0, handed, arrived);
        },
        Call::Connecting { index, event } | Call::Reconnecting { index, event } => {
            let action = exchange.action->0;
            match event {
                ConnectEvent::Pending => {
                    lemma_resumes_keeps(s, index + 1, after, action, handed, arrived);
                },
                ConnectEvent::Connected { .. } => {
                    lemma_same_buffers(s, after, handed, arrived);
                },
                ConnectEvent::Failed { error } => {
                    lemma_retries_keeps(s, index as int, error, after, action, handed, arrived);
                },
            }
        },
        Call::Transferring { index, arrival } => {
            let action = exchange.action->0;
            match arrival {
                TransferEvent::Pending => {
                    lemma_resumes_keeps(s, index + 1, after, action, handed, arrived);
                },
                TransferEvent::Piece { bytes } => {
                    lemma_received_keeps(s, index as int, bytes, handed, arrived, arrived_after);
                },
                TransferEvent::Failed { error } => {
                    lemma_retries_keeps(s, index as int, error, after, action, handed, arrived);
                },
                TransferEvent::End => {
                    let ended = s.ended(index as int);
                    lemma_same_buffers(s, ended, handed, arrived);
                    lemma_resumes_keeps(ended, index + 1, after, action, handed, arrived);
                },
            }
        },
        Call::Future { .. } => lemma_same_buffers(s, after, handed, arrived),
        Call::Stream { .. } => lemma_same_buffers(s, after, handed, arrived),
    }
}

proof fn lemma_run_keeps<C: ChunkConnector, T: ChunkTrottler>(
    args: ChunkedStreamArgs<C, T>,
    run: Seq<Exchange<C, T>>,
)
    requires
        args.chunk_max_len > 0,
        args.window_max_len > 0,
        run::is_run(args.initial(), run),
    ensures
        !run::has_failed(run) ==> {
            &&& run::state_after(args.initial(), run).keeps(
                items(run),
                |k: int| pieces_of(args.initial(), run, k),
            )
            &&& run::state_after(args.initial(), run).chunks_total()
                == args.initial().chunks_total()
        },
        items(run).is_prefix_of(
            pieces_in_order(args.initial(), run, args.initial().chunks_total()),
        ),
    decreases run.len(),
{
    let first = args.initial();
    let s = run::state_after(first, run);
    let total = first.chunks_total();
    let arrived = |k: int| pieces_of(first, run, k);
    run::lemma_run_wf(args, run);
    if run.len() == 0 {
        assert(items(run) + Seq::<Bytes>::empty() =~= lined_up(arrived, 1)) by {
            reveal_with_fuel(lined_up, 2);
        }
    } else {
        let shorter = run.drop_last();
        let before = run::state_after(first, shorter);
        let arrived_before = |k: int| pieces_of(first, shorter, k);
        lemma_run_keeps(args, shorter);
        run::lemma_has_failed(run);
        run::lemma_run_wf(args, shorter);
        if run::has_failed(shorter) {
            run::lemma_given_up(before);
            run::lemma_ended(before, run.last());
        } else if !run::has_failed(run) {
            lemma_exchange_keeps(before, run.last(), items(shorter), arrived_before, arrived);
            preserve::lemma_stripped(before);
        }
        if run::has_failed(run) {
            assert(arrived =~= arrived_before);
        }
    }
    if !run::has_failed(run) {
        if s.window.len() == 0 {
            lemma_lined_up_prefix(arrived, s.window_offset, total);
        } else {
            lemma_lined_up_prefix(arrived, s.window_offset + 1, total);
        }
    }
}

/// The pieces that a stream hands out are, one for one, the first of those that arrived, taken
/// chunk after chunk. No piece is split, joined with another, changed or left out.
pub proof fn law_hands_out_the_pieces_that_arrived<C: ChunkConnector, T: ChunkTrottler>(
    args: ChunkedStreamArgs<C, T>,
    run: Seq<Exchange<C, T>>,
)
    requires
        args.chunk_max_len > 0,
        args.window_max_len > 0,
        run::is_run(args.initial(), run),
    ensures
        items(run).is_prefix_of(
            pieces_in_order(args.initial(), run, args.initial().chunks_total()),
        ),
{
    lemma_run_keeps(args, run);
}

/// A stream that answers that there is nothing to hand out yet, and reported no error, has handed
/// out every piece that arrived for the chunks up to the first of the window. So no piece is held
/// back once it is its turn, whether or not its chunk is complete.
pub proof fn law_waits_only_when_all_that_is_due_is_handed_out<
    C: ChunkConnector,
    T: ChunkTrottler,
>(args: ChunkedStreamArgs<C, T>, run: Seq<Exchange<C, T>>)
    requires
        args.chunk_max_len > 0,
        args.window_max_len > 0,
        run::is_run(args.initial(), run),
        !run::has_failed(run),
        run.len() > 0,
        run.last().action == Some(PollAction::<C::Error>::Wait),
    ensures
        run.last().after.window.len() > 0,
        items(run) == pieces_in_order(
            args.initial(),
            run,
            run.last().after.window_offset + 1,
        ),
{
    lemma_run_keeps(args, run);
    let after = run.last().after;
    assert(run::state_after(args.initial(), run.drop_last()).allows(run.last()));
    assert(after.window.len() > 0 && after.window[0].buffer().len() == 0);
    assert(items(run) + after.window[0].buffer() =~= items(run));
}

/// A stream that answers that it has ended, and reported no error, has handed out every piece
/// that arrived, as long as no connection delivered more than it was asked for.
pub proof fn law_hands_out_every_piece<C: ChunkConnector, T: ChunkTrottler>(
    args: ChunkedStreamArgs<C, T>,
    run: Seq<Exchange<C, T>>,
)
    requires
        args.chunk_max_len > 0,
        args.window_max_len > 0,
        run::is_run(args.initial(), run),
        coverage::is_bounded_run(args.initial(), run),
        !run::has_failed(run),
        run.len() > 0,
        run.last().action == Some(PollAction::<C::Error>::Complete),
    ensures
        items(run) == pieces_in_order(args.initial(), run, args.initial().chunks_total()),
{
    lemma_run_keeps(args, run);
    coverage::lemma_run_covered(args, run);
}

} // verus!
