//! What holds of everything that a stream hands out, from its first poll to its last.
use vstd::prelude::*;

use crate::stream::chunked;
use crate::stream::chunked::ChunkedStreamArgs;
use crate::stream::model::StreamView;
use crate::stream::order;
use crate::stream::piece;
use crate::stream::interface::{
    ChunkConnector, ChunkTrottler, ConnectEvent, PollAction, TransferEvent,
};
use crate::stream::preserve;
use crate::stream::range;

verus! {

/// A call of one of the operations that drive a stream.
pub enum Call<C: ChunkConnector> {
    /// [`chunked::ChunkedStream::poll_next`]
    Poll,
    /// [`chunked::ChunkedStream::resume`]
    Resume { from: usize },
    /// [`chunked::ChunkedStream::poll_connecting_chunk`]
    Connecting { index: usize, event: ConnectEvent<C::Stream, C::Error> },
    /// [`chunked::ChunkedStream::poll_reconnecting_chunk`]
    Reconnecting { index: usize, event: ConnectEvent<C::Stream, C::Error> },
    /// [`chunked::ChunkedStream::poll_transferring_chunk`]
    Transferring { index: usize, arrival: TransferEvent<C::Error> },
    /// What is done through [`chunked::ChunkedStream::future_mut`]
    Future { index: usize, future: C::Future },
    /// What is done through [`chunked::ChunkedStream::stream_mut`]
    Stream { index: usize, stream: C::Stream },
}

/// A call, what it answered, and what became of the stream.
pub struct Exchange<C: ChunkConnector, T: ChunkTrottler> {
    pub call: Call<C>,
    pub action: Option<PollAction<C::Error>>,
    pub after: StreamView<C, T>,
}

impl<C: ChunkConnector, T: ChunkTrottler> StreamView<C, T> {
    /// Whether the stream can be called as in `exchange`, and answers and changes so.
    pub open spec fn allows(self, exchange: Exchange<C, T>) -> bool {
        let after = exchange.after;
        match exchange.call {
            Call::Poll => exchange.action matches Some(action) && self.polls(after, action),
            Call::Resume { from } => exchange.action matches Some(action) && self.resumes(
                from as int,
                after,
                action,
            ),
            Call::Connecting { index, event } => {
                &&& index < self.window.len()
                &&& self.window[index as int] is Connecting
                &&& exchange.action matches Some(action) && self.connects(
                    index as int,
                    event,
                    after,
                    action,
                )
            },
            Call::Reconnecting { index, event } => {
                &&& index < self.window.len()
                &&& self.window[index as int] is Reconnecting
                &&& exchange.action matches Some(action) && self.connects(
                    index as int,
                    event,
                    after,
                    action,
                )
            },
            Call::Transferring { index, arrival } => {
                &&& index < self.window.len()
                &&& self.window[index as int] is Transferring
                &&& arrival matches TransferEvent::Piece { bytes } ==> self.bytes_received
                    + piece::bytes_contents(bytes).len() <= usize::MAX
                &&& exchange.action matches Some(action) && self.transfers(
                    index as int,
                    arrival,
                    after,
                    action,
                )
            },
            Call::Future { index, future } => {
                &&& index < self.window.len()
                &&& exchange.action is None
                &&& after == self.with_chunk(
                    index as int,
                    self.window[index as int].with_future(future),
                )
            },
            Call::Stream { index, stream } => {
                &&& index < self.window.len()
                &&& exchange.action is None
                &&& after == self.with_chunk(
                    index as int,
                    self.window[index as int].with_stream(stream),
                )
            },
        }
    }

    /// Whether what `call` reports of a connection is true to `file`.
    pub open spec fn is_true_call(self, file: Seq<u8>, call: Call<C>) -> bool {
        call matches Call::Transferring { index, arrival } ==> self.is_true_to(
            file,
            index as int,
            arrival,
        )
    }

    /// Whether the stream has given everything up.
    pub open spec fn has_given_up(self) -> bool {
        self.bytes_total == 0 && self.window.len() == 0
    }

    /// Whether every chunk has been launched and has left the window.
    pub open spec fn has_ended(self) -> bool {
        self.window.len() == 0 && self.window_offset == self.chunks_total()
    }
}

/// What became of a stream, which was `first`, after the exchanges of `run`.
pub open spec fn state_after<C: ChunkConnector, T: ChunkTrottler>(
    first: StreamView<C, T>,
    run: Seq<Exchange<C, T>>,
) -> StreamView<C, T> {
    if run.len() == 0 {
        first
    } else {
        run.last().after
    }
}

/// Whether `run` is what may happen, call by call, to a stream that was `first`.
pub open spec fn is_run<C: ChunkConnector, T: ChunkTrottler>(
    first: StreamView<C, T>,
    run: Seq<Exchange<C, T>>,
) -> bool
    decreases run.len(),
{
    run.len() > 0 ==> {
        &&& is_run(first, run.drop_last())
        &&& state_after(first, run.drop_last()).allows(run.last())
    }
}

/// Whether all that `run` reports of the connections is true to `file`.
pub open spec fn is_true_run<C: ChunkConnector, T: ChunkTrottler>(
    first: StreamView<C, T>,
    run: Seq<Exchange<C, T>>,
    file: Seq<u8>,
) -> bool
    decreases run.len(),
{
    run.len() > 0 ==> {
        &&& is_true_run(first, run.drop_last(), file)
        &&& state_after(first, run.drop_last()).is_true_call(file, run.last().call)
    }
}

/// Whether an error was reported.
pub open spec fn has_failed<C: ChunkConnector, T: ChunkTrottler>(
    run: Seq<Exchange<C, T>>,
) -> bool {
    exists|k: int|
        0 <= k < run.len() && (#[trigger] run[k].action matches Some(action) && action is Fail)
}

/// All the bytes handed out in the course of `run`.
pub open spec fn handed_out<C: ChunkConnector, T: ChunkTrottler>(
    run: Seq<Exchange<C, T>>,
) -> Seq<u8>
    decreases run.len(),
{
    if run.len() == 0 {
        Seq::empty()
    } else {
        let before = handed_out(run.drop_last());
        match run.last().action {
            Some(PollAction::Yield { bytes }) => before + piece::bytes_contents(bytes),
            _ => before,
        }
    }
}

/// Whether `part` is the start of `file`.
pub open spec fn is_start_of(part: Seq<u8>, file: Seq<u8>) -> bool {
    part.len() <= file.len() && part == file.take(part.len() as int)
}

/// An error was reported in a run if the last exchange reports one, or one was reported before.
pub proof fn lemma_has_failed<C: ChunkConnector, T: ChunkTrottler>(run: Seq<Exchange<C, T>>)
    requires
        run.len() > 0,
    ensures
        has_failed(run) <==> has_failed(run.drop_last()) || (run.last().action matches Some(
            action,
        ) && action is Fail),
{
    let shorter = run.drop_last();
    if has_failed(run) {
        let k = choose|k: int|
            0 <= k < run.len() && (#[trigger] run[k].action matches Some(action)
                && action is Fail);
        if k < run.len() - 1 {
            assert(shorter[k].action == run[k].action);
        }
    }
    if has_failed(shorter) {
        let k = choose|k: int|
            0 <= k < shorter.len() && (#[trigger] shorter[k].action matches Some(action)
                && action is Fail);
        assert(run[k].action == shorter[k].action);
    }
    assert(run[run.len() - 1].action == run.last().action);
}

/// A stream that has ended answers that it has, and stays as it is.
pub proof fn lemma_ended<C: ChunkConnector, T: ChunkTrottler>(
    s: StreamView<C, T>,
    exchange: Exchange<C, T>,
)
    requires
        s.wf(),
        s.has_ended(),
        s.allows(exchange),
    ensures
        exchange.action == Some(PollAction::<C::Error>::Complete),
        exchange.after == s,
{
    if exchange.call is Poll {
        let after = exchange.after;
        let action = exchange.action->0;
        let launched = choose|launched: StreamView<C, T>| #[trigger]
            s.stripped().launches(launched) && launched.resumes(0, after, action);
        assert(launched.window =~= s.window);
        assert(launched.permits =~= s.permits) by {
            assert(launched.permits.take(s.permits.len() as int) =~= launched.permits);
        }
        assert(launched == s);
    }
}

/// A stream that has given up has ended.
pub proof fn lemma_given_up<C: ChunkConnector, T: ChunkTrottler>(s: StreamView<C, T>)
    requires
        s.wf(),
        s.has_given_up(),
    ensures
        s.has_ended(),
{
    range::lemma_chunk_count(0, s.chunk_max_len, 0);
}

/// Polling a connection, which changes nothing else, keeps the data in its place.
proof fn lemma_handle_in_order<C: ChunkConnector, T: ChunkTrottler>(
    s: StreamView<C, T>,
    file: Seq<u8>,
    index: int,
    after: StreamView<C, T>,
)
    requires
        s.wf(),
        s.carries(file),
        0 <= index < s.window.len(),
        after == s.with_chunk(index, after.window[index]),
        after.window[index].buffer() == s.window[index].buffer(),
        after.window[index].bytes_received() == s.window[index].bytes_received(),
        after.window[index] is Finished <==> s.window[index] is Finished,
    ensures
        after.carries(file),
{
    assert forall|i: int| 0 <= i < after.window.len() implies #[trigger] after.chunk_carries(
        file,
        i,
    ) by {
        assert(s.chunk_carries(file, i));
    }
}

/// Every exchange leaves a stream well-formed.
pub proof fn lemma_exchange_wf<C: ChunkConnector, T: ChunkTrottler>(
    s: StreamView<C, T>,
    exchange: Exchange<C, T>,
)
    requires
        s.wf(),
        s.allows(exchange),
    ensures
        exchange.after.wf(),
{
    let after = exchange.after;
    match exchange.call {
        Call::Poll => preserve::lemma_polls(s, after, exchange.action->0),
        Call::Resume { from } => preserve::lemma_resumes(
            s,
            from as int,
            after,
            exchange.action->0,
        ),
        Call::Connecting { index, event } | Call::Reconnecting { index, event } => {
            preserve::lemma_connects(s, index as int, event, after, exchange.action->0)
        },
        Call::Transferring { index, arrival } => preserve::lemma_transfers(
            s,
            index as int,
            arrival,
            after,
            exchange.action->0,
        ),
        Call::Future { index, future } => {
            preserve::lemma_handles(s, index as int);
            let chunk = s.window[index as int].with_future(future);
            assert(s.with_chunk(index as int, chunk).wf());
        },
        Call::Stream { index, stream } => {
            preserve::lemma_handles(s, index as int);
            let chunk = s.window[index as int].with_stream(stream);
            assert(s.with_chunk(index as int, chunk).wf());
        },
    }
}

/// The stream that a run leaves is well-formed, and has given up if an error was reported.
pub proof fn lemma_run_wf<C: ChunkConnector, T: ChunkTrottler>(
    args: ChunkedStreamArgs<C, T>,
    run: Seq<Exchange<C, T>>,
)
    requires
        args.chunk_max_len > 0,
        args.window_max_len > 0,
        is_run(args.initial(), run),
    ensures
        state_after(args.initial(), run).wf(),
        has_failed(run) ==> state_after(args.initial(), run).has_given_up(),
    decreases run.len(),
{
    chunked::lemma_initial(args);
    if run.len() > 0 {
        let shorter = run.drop_last();
        let s = state_after(args.initial(), shorter);
        lemma_run_wf(args, shorter);
        lemma_has_failed(run);
        lemma_exchange_wf(s, run.last());
        if has_failed(shorter) {
            lemma_given_up(s);
            lemma_ended(s, run.last());
        }
    }
}

/// One exchange of a run that is true to a file.
proof fn lemma_exchange<C: ChunkConnector, T: ChunkTrottler>(
    s: StreamView<C, T>,
    file: Seq<u8>,
    exchange: Exchange<C, T>,
)
    requires
        s.wf(),
        s.carries(file),
        s.settled(),
        s.allows(exchange),
        s.is_true_call(file, exchange.call),
    ensures
        exchange.action == Some(PollAction::<C::Error>::Complete) ==> s.bytes_consumed
            == s.bytes_total,
        match exchange.action {
            Some(PollAction::Fail { .. }) => true,
            Some(action) => {
                &&& exchange.after.carries(file)
                &&& exchange.after.settled()
                &&& s.hands_out_in_order(file, exchange.after, action)
            },
            None => {
                &&& exchange.after.carries(file)
                &&& exchange.after.settled()
                &&& exchange.after.bytes_consumed == s.bytes_consumed
            },
        },
{
    let after = exchange.after;
    match exchange.call {
        Call::Poll => order::law_poll_in_order(s, file, after, exchange.action->0),
        Call::Resume { from } => order::law_resume_in_order(
            s,
            file,
            from as int,
            after,
            exchange.action->0,
        ),
        Call::Connecting { index, event } | Call::Reconnecting { index, event } => {
            if !(exchange.action->0 is Fail) {
                order::law_connect_in_order(
                    s,
                    file,
                    index as int,
                    event,
                    after,
                    exchange.action->0,
                );
            }
        },
        Call::Transferring { index, arrival } => {
            if !(exchange.action->0 is Fail) {
                order::law_transfer_in_order(
                    s,
                    file,
                    index as int,
                    arrival,
                    after,
                    exchange.action->0,
                );
            }
        },
        Call::Future { index, .. } => lemma_handle_in_order(s, file, index as int, after),
        Call::Stream { index, .. } => lemma_handle_in_order(s, file, index as int, after),
    }
}

/// What holds after a run that is true to a file.
pub proof fn lemma_run<C: ChunkConnector, T: ChunkTrottler>(
    args: ChunkedStreamArgs<C, T>,
    run: Seq<Exchange<C, T>>,
    file: Seq<u8>,
)
    requires
        args.chunk_max_len > 0,
        args.window_max_len > 0,
        file.len() == args.bytes_total,
        is_run(args.initial(), run),
        is_true_run(args.initial(), run, file),
    ensures
        is_start_of(handed_out(run), file),
        !has_failed(run) ==> {
            &&& state_after(args.initial(), run).carries(file)
            &&& state_after(args.initial(), run).settled()
            &&& handed_out(run).len() == state_after(args.initial(), run).bytes_consumed
        },
        !has_failed(run) && run.len() > 0 && run.last().action == Some(
            PollAction::<C::Error>::Complete,
        ) ==> handed_out(run) == file,
    decreases run.len(),
{
    let first = args.initial();
    if run.len() == 0 {
        chunked::lemma_initial(args);
        range::lemma_chunk_count(first.bytes_total, first.chunk_max_len, 0);
        if first.bytes_total > 0 {
            assert(file.subrange(first.held_from(0), first.held_to(0)) =~= Seq::<u8>::empty());
            assert(first.chunk_carries(file, 0));
        }
        assert(handed_out(run) =~= file.take(0));
    } else {
        let shorter = run.drop_last();
        let last = run.last();
        lemma_run(args, shorter, file);
        lemma_run_wf(args, shorter);
        let s = state_after(first, shorter);
        let before = handed_out(shorter);
        lemma_has_failed(run);
        if has_failed(shorter) {
            lemma_given_up(s);
            lemma_ended(s, last);
        } else {
            lemma_exchange(s, file, last);
            if !has_failed(run) {
                assert(handed_out(run) =~= file.take(last.after.bytes_consumed as int));
                assert(file.take(file.len() as int) =~= file);
            }
        }
    }
}

/// All that a stream hands out, up to any moment, is the start of the file: in order, nothing
/// left out, nothing twice. This holds however the connections interleave, however often they
/// fail and are retried, and also where the stream gives up, as long as what a connection
/// delivers is what was asked of it.
pub proof fn law_hands_out_the_start_of_the_file<C: ChunkConnector, T: ChunkTrottler>(
    args: ChunkedStreamArgs<C, T>,
    run: Seq<Exchange<C, T>>,
    file: Seq<u8>,
)
    requires
        args.chunk_max_len > 0,
        args.window_max_len > 0,
        file.len() == args.bytes_total,
        is_run(args.initial(), run),
        is_true_run(args.initial(), run, file),
    ensures
        is_start_of(handed_out(run), file),
{
    lemma_run(args, run, file);
}

/// A stream that has not failed ends only once it has handed out the whole file.
pub proof fn law_ends_with_the_whole_file<C: ChunkConnector, T: ChunkTrottler>(
    args: ChunkedStreamArgs<C, T>,
    run: Seq<Exchange<C, T>>,
    file: Seq<u8>,
)
    requires
        args.chunk_max_len > 0,
        args.window_max_len > 0,
        file.len() == args.bytes_total,
        is_run(args.initial(), run),
        is_true_run(args.initial(), run, file),
        !has_failed(run),
        run.len() > 0,
        run.last().action == Some(PollAction::<C::Error>::Complete),
    ensures
        handed_out(run) == file,
{
    lemma_run(args, run, file);
}

/// The number of bytes that arrived in the course of `run`.
pub open spec fn bytes_arrived<C: ChunkConnector, T: ChunkTrottler>(
    run: Seq<Exchange<C, T>>,
) -> nat
    decreases run.len(),
{
    if run.len() == 0 {
        0
    } else {
        let before = bytes_arrived(run.drop_last());
        match run.last().call {
            Call::Transferring { arrival: TransferEvent::Piece { bytes }, .. } => before
                + piece::bytes_contents(bytes).len(),
            _ => before,
        }
    }
}

/// A stream that has reported no error counts every byte that arrives, over whichever connection,
/// and every byte that it hands out.
pub proof fn law_bytes_are_counted<C: ChunkConnector, T: ChunkTrottler>(
    args: ChunkedStreamArgs<C, T>,
    run: Seq<Exchange<C, T>>,
)
    requires
        args.chunk_max_len > 0,
        args.window_max_len > 0,
        is_run(args.initial(), run),
        !has_failed(run),
    ensures
        state_after(args.initial(), run).bytes_received == bytes_arrived(run),
        state_after(args.initial(), run).bytes_consumed == handed_out(run).len(),
    decreases run.len(),
{
    if run.len() > 0 {
        let shorter = run.drop_last();
        let s = state_after(args.initial(), shorter);
        lemma_has_failed(run);
        lemma_run_wf(args, shorter);
        law_bytes_are_counted(args, shorter);
        preserve::lemma_stripped(s);
    }
}

} // verus!
