//! Connections that deliver just the bytes they were asked for make up the file.
use vstd::prelude::*;

use crate::stream::chunk::ChunkView;
use crate::stream::chunked::ChunkedStreamArgs;
use crate::stream::interface::{
    ChunkConnector, ChunkTrottler, ConnectEvent, PollAction, TransferEvent,
};
use crate::stream::model::StreamView;
use crate::stream::piece;
use crate::stream::preserve;
use crate::stream::range;
use crate::stream::run;
use crate::stream::run::{Call, Exchange};
use crate::stream::steps;

verus! {

/// What the connection of a chunk was asked for, and how much of it has been delivered.
pub struct Link {
    pub offset: int,
    pub len: int,
    pub delivered: int,
}

/// Whether `asked` tells of every connection that `connector` opens which `len` bytes of the file
/// from which offset it was asked for.
pub open spec fn tells_what_was_asked<C: ChunkConnector>(
    connector: C,
    asked: spec_fn(C::Future) -> (usize, usize),
) -> bool {
    forall|offset: usize, len: usize, future: C::Future| #[trigger]
        call_ensures(C::get, (&connector, offset, len), future) ==> asked(future) == (offset, len)
}

/// The connection of the `k`-th chunk of the file after `run`. The stream begins with one for the
/// bytes of the first chunk. A new connection comes with a poll that launches the chunk, and with
/// an answer that the chunk is to be retried.
pub open spec fn link_of<C: ChunkConnector, T: ChunkTrottler>(
    args: ChunkedStreamArgs<C, T>,
    asked: spec_fn(C::Future) -> (usize, usize),
    run: Seq<Exchange<C, T>>,
    k: int,
) -> Link
    decreases run.len(),
{
    if run.len() == 0 {
        Link {
            offset: 0,
            len: if args.bytes_total < args.chunk_max_len {
                args.bytes_total as int
            } else {
                args.chunk_max_len as int
            },
            delivered: 0,
        }
    } else {
        let link = link_of(args, asked, run.drop_last(), k);
        let before = run::state_after(args.initial(), run.drop_last());
        let after = run.last().after;
        let opened = match after.window[k - after.window_offset] {
            ChunkView::Connecting { future } => Link {
                offset: asked(future).0 as int,
                len: asked(future).1 as int,
                delivered: 0,
            },
            ChunkView::Reconnecting { future, .. } => Link {
                offset: asked(future).0 as int,
                len: asked(future).1 as int,
                delivered: 0,
            },
            _ => link,
        };
        match run.last().call {
            Call::Poll => if before.window_offset + before.window.len() <= k < after.window_offset
                + after.window.len() {
                opened
            } else {
                link
            },
            Call::Transferring { index, arrival: TransferEvent::Piece { bytes } } => {
                if before.window_offset + index == k {
                    Link { delivered: link.delivered + piece::bytes_contents(bytes).len(), ..link }
                } else {
                    link
                }
            },
            _ => match run.last().action {
                Some(PollAction::Delay { index, .. }) => if after.window_offset + index == k {
                    opened
                } else {
                    link
                },
                _ => link,
            },
        }
    }
}

/// Whether every connection delivers, in the course of `run`, the bytes of `file` that it was
/// asked for, one after the other, and ends just after the last of them. It may fail at any time.
pub open spec fn delivers_what_was_asked<C: ChunkConnector, T: ChunkTrottler>(
    args: ChunkedStreamArgs<C, T>,
    asked: spec_fn(C::Future) -> (usize, usize),
    run: Seq<Exchange<C, T>>,
    file: Seq<u8>,
) -> bool
    decreases run.len(),
{
    run.len() > 0 ==> {
        let before = run::state_after(args.initial(), run.drop_last());
        &&& delivers_what_was_asked(args, asked, run.drop_last(), file)
        &&& run.last().call matches Call::Transferring { index, arrival } ==> {
            let link = link_of(args, asked, run.drop_last(), before.window_offset + index);
            let next = link.offset + link.delivered;
            match arrival {
                TransferEvent::Piece { bytes } => {
                    let len = piece::bytes_contents(bytes).len();
                    &&& link.delivered + len <= link.len
                    &&& piece::bytes_contents(bytes) == file.subrange(next, next + len)
                },
                TransferEvent::End => link.delivered == link.len,
                _ => true,
            }
        }
    }
}

/// Whether the connection of the `k`-th chunk goes on where the stream is, and ends with the
/// chunk.
spec fn is_in_place<C: ChunkConnector, T: ChunkTrottler>(
    s: StreamView<C, T>,
    link: Link,
    k: int,
) -> bool {
    let index = k - s.window_offset;
    0 <= index < s.window.len() && !(s.window[index] is Finished) ==> {
        &&& link.offset + link.delivered == s.start_of(index) + s.window[index].bytes_received()
        &&& link.offset + link.len == s.start_of(index) + s.len_of(index)
    }
}

proof fn lemma_resumes_in_place<C: ChunkConnector, T: ChunkTrottler>(
    s: StreamView<C, T>,
    from: int,
    after: StreamView<C, T>,
    action: PollAction<C::Error>,
    link: Link,
    k: int,
)
    requires
        s.resumes(from, after, action),
        is_in_place(s, link, k),
    ensures
        after.connector == s.connector,
        is_in_place(after, link, k),
        !(action is Delay),
{
}

proof fn lemma_poll_in_place<C: ChunkConnector, T: ChunkTrottler>(
    s: StreamView<C, T>,
    after: StreamView<C, T>,
    action: PollAction<C::Error>,
    link: Link,
    k: int,
)
    requires
        s.wf(),
        s.polls(after, action),
        is_in_place(s, link, k),
    ensures
        after.connector == s.connector,
        k < s.window_offset + s.window.len() ==> is_in_place(after, link, k),
{
    let stripped = s.stripped();
    let launched = choose|launched: StreamView<C, T>| #[trigger]
        stripped.launches(launched) && launched.resumes(0, after, action);
    preserve::lemma_stripped(s);
    preserve::lemma_stripped_window(s);
    let index = k - stripped.window_offset;
    if 0 <= index < stripped.window.len() {
        assert(launched.window[index] == launched.window.take(stripped.window.len() as int)[index]);
        assert(stripped.window[index] == s.window[k - s.window_offset]);
    }
    if k < s.window_offset + s.window.len() {
        assert(is_in_place(launched, link, k));
        lemma_resumes_in_place(launched, 0, after, action, link, k);
    }
}

proof fn lemma_launch_in_place<C: ChunkConnector, T: ChunkTrottler>(
    s: StreamView<C, T>,
    after: StreamView<C, T>,
    action: PollAction<C::Error>,
    asked: spec_fn(C::Future) -> (usize, usize),
    link: Link,
    k: int,
)
    requires
        s.wf(),
        s.polls(after, action),
        tells_what_was_asked(s.connector, asked),
        s.window_offset + s.window.len() <= k < after.window_offset + after.window.len(),
        after.window[k - after.window_offset] matches ChunkView::Connecting { future } ==> link
            == (Link {
            offset: asked(future).0 as int,
            len: asked(future).1 as int,
            delivered: 0,
        }),
    ensures
        is_in_place(after, link, k),
{
    steps::law_a_poll_takes_exhausted_chunks_out(s, after, action);
    if after.window_offset <= k {
        steps::law_a_launched_chunk_asks_for_its_bytes(
            s,
            after,
            action,
            k - after.window_offset,
        );
    }
}

/// A connection that is opened for a retry was asked for what is missing.
proof fn lemma_retry_in_place<C: ChunkConnector, T: ChunkTrottler>(
    s: StreamView<C, T>,
    index: int,
    error: C::Error,
    after: StreamView<C, T>,
    action: PollAction<C::Error>,
    asked: spec_fn(C::Future) -> (usize, usize),
)
    requires
        s.wf(),
        tells_what_was_asked(s.connector, asked),
        0 <= index < s.window.len(),
        !(s.window[index] is Finished),
        s.retries(index, error, after, action),
    ensures
        action is Delay ==> {
            &&& action matches PollAction::Delay { index: delayed, .. } && delayed == index
            &&& after.window[index] matches ChunkView::Reconnecting { future, .. } && asked(
                future,
            ) == (
                (s.start_of(index) + s.window[index].bytes_received()) as usize,
                (s.len_of(index) - s.window[index].bytes_received()) as usize,
            )
            &&& s.start_of(index) + s.len_of(index) <= usize::MAX
        },
{
    range::law_chunks_tile(s.bytes_total, s.chunk_max_len, (s.window_offset + index) as nat);
}

/// A failure leaves the other connections in place, and the new one is too.
proof fn lemma_failure_in_place<C: ChunkConnector, T: ChunkTrottler>(
    s: StreamView<C, T>,
    index: int,
    error: C::Error,
    after: StreamView<C, T>,
    action: PollAction<C::Error>,
    asked: spec_fn(C::Future) -> (usize, usize),
    link: Link,
    link_after: Link,
    k: int,
)
    requires
        s.wf(),
        tells_what_was_asked(s.connector, asked),
        0 <= index < s.window.len(),
        !(s.window[index] is Finished),
        s.retries(index, error, after, action),
        is_in_place(s, link, k),
        action is Delay && s.window_offset + index == k ==> (after.window[index] matches
            ChunkView::Reconnecting { future, .. } && link_after == (Link {
            offset: asked(future).0 as int,
            len: asked(future).1 as int,
            delivered: 0,
        })),
        !(action is Delay && s.window_offset + index == k) ==> link_after == link,
    ensures
        after.connector == s.connector,
        is_in_place(after, link_after, k),
{
    lemma_retry_in_place(s, index, error, after, action, asked);
    if s.window[index].bytes_received() >= s.len_of(index) {
        lemma_resumes_in_place(s.finished(index), index + 1, after, action, link, k);
    }
}

proof fn lemma_exchange_in_place<C: ChunkConnector, T: ChunkTrottler>(
    args: ChunkedStreamArgs<C, T>,
    asked: spec_fn(C::Future) -> (usize, usize),
    run: Seq<Exchange<C, T>>,
    k: int,
)
    requires
        run.len() > 0,
        tells_what_was_asked(args.connector, asked),
        run::state_after(args.initial(), run.drop_last()).wf(),
        run::state_after(args.initial(), run.drop_last()).connector == args.connector,
        run::state_after(args.initial(), run.drop_last()).allows(run.last()),
        is_in_place(
            run::state_after(args.initial(), run.drop_last()),
            link_of(args, asked, run.drop_last(), k),
            k,
        ),
    ensures
        run.last().after.connector == args.connector,
        is_in_place(run.last().after, link_of(args, asked, run, k), k),
{
    let s = run::state_after(args.initial(), run.drop_last());
    let after = run.last().after;
    let link = link_of(args, asked, run.drop_last(), k);
    let link_after = link_of(args, asked, run, k);
    match run.last().call {
        Call::Poll => {
            let action = run.last().action->0;
            lemma_poll_in_place(s, after, action, link, k);
            if s.window_offset + s.window.len() <= k < after.window_offset + after.window.len() {
                lemma_launch_in_place(s, after, action, asked, link_after, k);
            }
        },
        Call::Resume { from } => {
            lemma_resumes_in_place(s, from as int, after, run.last().action->0, link, k);
        },
        Call::Connecting { index, event } | Call::Reconnecting { index, event } => {
            let action = run.last().action->0;
            match event {
                ConnectEvent::Pending => {
                    lemma_resumes_in_place(s, index + 1, after, action, link, k);
                },
                ConnectEvent::Connected { .. } => {},
                ConnectEvent::Failed { error } => {
                    lemma_retry_in_place(s, index as int, error, after, action, asked);
                    lemma_failure_in_place(
                        s,
                        index as int,
                        error,
                        after,
                        action,
                        asked,
                        link,
                        link_after,
                        k,
                    );
                },
            }
        },
        Call::Transferring { index, arrival } => {
            let action = run.last().action->0;
            match arrival {
                TransferEvent::Pending => {
                    lemma_resumes_in_place(s, index + 1, after, action, link, k);
                },
                TransferEvent::Piece { .. } => {},
                TransferEvent::Failed { error } => {
                    lemma_retry_in_place(s, index as int, error, after, action, asked);
                    lemma_failure_in_place(
                        s,
                        index as int,
                        error,
                        after,
                        action,
                        asked,
                        link,
                        link_after,
                        k,
                    );
                },
                TransferEvent::End => {
                    let ended = s.ended(index as int);
                    lemma_resumes_in_place(ended, index + 1, after, action, link, k);
                },
            }
        },
        Call::Future { .. } => {},
        Call::Stream { .. } => {},
    }
}

proof fn lemma_run_in_place<C: ChunkConnector, T: ChunkTrottler>(
    args: ChunkedStreamArgs<C, T>,
    asked: spec_fn(C::Future) -> (usize, usize),
    run: Seq<Exchange<C, T>>,
    k: int,
)
    requires
        args.chunk_max_len > 0,
        args.window_max_len > 0,
        run::is_run(args.initial(), run),
        tells_what_was_asked(args.connector, asked),
    ensures
        run::state_after(args.initial(), run).connector == args.connector,
        is_in_place(
            run::state_after(args.initial(), run),
            link_of(args, asked, run, k),
            k,
        ),
    decreases run.len(),
{
    if run.len() == 0 {
        let first = args.initial();
        if first.bytes_total > 0 {
            range::lemma_chunk_count(first.bytes_total, first.chunk_max_len, 0);
            range::law_chunks_tile(first.bytes_total, first.chunk_max_len, 0);
        }
    } else {
        lemma_run_in_place(args, asked, run.drop_last(), k);
        run::lemma_run_wf(args, run.drop_last());
        lemma_exchange_in_place(args, asked, run, k);
    }
}

/// Connections that deliver what they were asked for are true to the file.
proof fn lemma_true_run<C: ChunkConnector, T: ChunkTrottler>(
    args: ChunkedStreamArgs<C, T>,
    asked: spec_fn(C::Future) -> (usize, usize),
    run: Seq<Exchange<C, T>>,
    file: Seq<u8>,
)
    requires
        args.chunk_max_len > 0,
        args.window_max_len > 0,
        run::is_run(args.initial(), run),
        tells_what_was_asked(args.connector, asked),
        delivers_what_was_asked(args, asked, run, file),
    ensures
        run::is_true_run(args.initial(), run, file),
    decreases run.len(),
{
    if run.len() > 0 {
        let shorter = run.drop_last();
        lemma_true_run(args, asked, shorter, file);
        if let Call::Transferring { index, .. } = run.last().call {
            let s = run::state_after(args.initial(), shorter);
            lemma_run_in_place(args, asked, shorter, s.window_offset + index);
        }
    }
}

/// If every connection delivers just the bytes that the connector was asked for when it was
/// opened, all that the stream hands out, up to any moment, is the start of the file, and a
/// stream that ends without an error has handed out the whole file, byte for byte. So the chunks
/// and the retries ask for the right bytes: neither one too few, nor one too many, nor any twice.
pub proof fn law_what_is_asked_for_makes_up_the_file<C: ChunkConnector, T: ChunkTrottler>(
    args: ChunkedStreamArgs<C, T>,
    asked: spec_fn(C::Future) -> (usize, usize),
    run: Seq<Exchange<C, T>>,
    file: Seq<u8>,
)
    requires
        args.chunk_max_len > 0,
        args.window_max_len > 0,
        file.len() == args.bytes_total,
        run::is_run(args.initial(), run),
        tells_what_was_asked(args.connector, asked),
        delivers_what_was_asked(args, asked, run, file),
    ensures
        run::handed_out(run).is_prefix_of(file),
        run.len() > 0 && run.last().action == Some(PollAction::<C::Error>::Complete) && (forall|
            i: int,
        |
            0 <= i < run.len() ==> !(#[trigger] run[i].action matches Some(action)
                && action is Fail)) ==> run::handed_out(run) == file,
{
    lemma_true_run(args, asked, run, file);
    run::lemma_run(args, run, file);
}

} // verus!
