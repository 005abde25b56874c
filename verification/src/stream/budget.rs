//! A stream fails as soon as a chunk has failed more often than it may be retried, and not
//! before.
use vstd::prelude::*;

use crate::stream::chunked::ChunkedStreamArgs;
use crate::stream::model::StreamView;
use crate::stream::interface::{ChunkConnector, ChunkTrottler};
use crate::stream::preserve;
use crate::stream::run;
use crate::stream::run::{Call, Exchange};

verus! {

impl<C: ChunkConnector, T: ChunkTrottler> StreamView<C, T> {
    /// Whether `call` reports that a connection of the `k`-th chunk of the file failed while
    /// bytes of that chunk were missing.
    pub open spec fn is_failure_of(self, call: Call<C>, k: int) -> bool {
        let index = k - self.window_offset;
        &&& match call {
            Call::Connecting { index: at, event } => event is Failed && at == index,
            Call::Reconnecting { index: at, event } => event is Failed && at == index,
            Call::Transferring { index: at, arrival } => arrival is Failed && at == index,
            _ => false,
        }
        &&& self.window[index].bytes_received() < self.len_of(index)
    }

    /// Whether `count` is the number of failures of the `k`-th chunk of the file that this
    /// stream has seen, as far as it keeps that number.
    spec fn counts(self, k: int, count: nat) -> bool {
        let index = k - self.window_offset;
        &&& count <= self.max_retries
        &&& 0 <= index < self.window.len() && !(self.window[index] is Finished)
            ==> self.window[index].retries_used() == count
        &&& index >= self.window.len() ==> count == 0
    }
}

/// How often, in the course of `run`, a connection of the `k`-th chunk of the file failed while
/// bytes of that chunk were missing.
pub open spec fn failures<C: ChunkConnector, T: ChunkTrottler>(
    first: StreamView<C, T>,
    run: Seq<Exchange<C, T>>,
    k: int,
) -> nat
    decreases run.len(),
{
    if run.len() == 0 {
        0
    } else {
        let before = failures(first, run.drop_last(), k);
        if run::state_after(first, run.drop_last()).is_failure_of(run.last().call, k) {
            before + 1
        } else {
            before
        }
    }
}

/// An exchange counts the failure that it reports, and no other.
proof fn lemma_exchange_counts<C: ChunkConnector, T: ChunkTrottler>(
    s: StreamView<C, T>,
    exchange: Exchange<C, T>,
    k: int,
    count: nat,
)
    requires
        s.wf(),
        s.allows(exchange),
        !(exchange.action matches Some(action) && action is Fail),
        s.counts(k, count),
    ensures
        exchange.after.max_retries == s.max_retries,
        exchange.after.counts(
            k,
            if s.is_failure_of(exchange.call, k) {
                count + 1
            } else {
                count
            },
        ),
{
    let after = exchange.after;
    if exchange.call is Poll {
        let stripped = s.stripped();
        let action = exchange.action->0;
        let launched = choose|launched: StreamView<C, T>| #[trigger]
            stripped.launches(launched) && launched.resumes(0, after, action);
        preserve::lemma_stripped(s);
        preserve::lemma_stripped_window(s);
        let i = k - stripped.window_offset;
        if 0 <= i < stripped.window.len() {
            assert(stripped.window[i] == s.window[k - s.window_offset]);
            assert(launched.window[i] == launched.window.take(stripped.window.len() as int)[i]);
        } else if stripped.window.len() <= i < launched.window.len() {
            assert(launched.is_launched(i));
        }
    }
}

/// A stream that has reported no error keeps the number of failures of every chunk.
proof fn lemma_run_counts<C: ChunkConnector, T: ChunkTrottler>(
    args: ChunkedStreamArgs<C, T>,
    run: Seq<Exchange<C, T>>,
    k: int,
)
    requires
        args.chunk_max_len > 0,
        args.window_max_len > 0,
        run::is_run(args.initial(), run),
        !run::has_failed(run),
        k >= 0,
    ensures
        run::state_after(args.initial(), run).max_retries == args.max_retries,
        run::state_after(args.initial(), run).counts(k, failures(args.initial(), run, k)),
    decreases run.len(),
{
    if run.len() > 0 {
        let shorter = run.drop_last();
        run::lemma_has_failed(run);
        lemma_run_counts(args, shorter, k);
        let s = run::state_after(args.initial(), shorter);
        run::lemma_run_wf(args, shorter);
        lemma_exchange_counts(s, run.last(), k, failures(args.initial(), shorter, k));
    }
}

/// A stream reports an error if, and only if, the connections of some chunk have failed more
/// often, with bytes of it still missing, than a chunk may be retried. The failures of other
/// chunks do not count, nor do those that come when a chunk lacks nothing any more.
pub proof fn law_fails_when_a_chunk_is_out_of_retries<C: ChunkConnector, T: ChunkTrottler>(
    args: ChunkedStreamArgs<C, T>,
    run: Seq<Exchange<C, T>>,
)
    requires
        args.chunk_max_len > 0,
        args.window_max_len > 0,
        run::is_run(args.initial(), run),
    ensures
        run::has_failed(run) <==> exists|k: int|
            k >= 0 && #[trigger] failures(args.initial(), run, k) > args.max_retries,
    decreases run.len(),
{
    let first = args.initial();
    if !run::has_failed(run) {
        assert forall|k: int| k >= 0 implies #[trigger] failures(first, run, k)
            <= args.max_retries by {
            lemma_run_counts(args, run, k);
        }
    } else {
        let shorter = run.drop_last();
        run::lemma_has_failed(run);
        if run::has_failed(shorter) {
            law_fails_when_a_chunk_is_out_of_retries(args, shorter);
            let k = choose|k: int|
                k >= 0 && #[trigger] failures(first, shorter, k) > args.max_retries;
            assert(failures(first, run, k) >= failures(first, shorter, k));
        } else {
            let s = run::state_after(first, shorter);
            let index = match run.last().call {
                Call::Connecting { index, .. } => index as int,
                Call::Reconnecting { index, .. } => index as int,
                Call::Transferring { index, .. } => index as int,
                _ => 0,
            };
            let k = s.window_offset + index;
            run::lemma_run_wf(args, shorter);
            lemma_run_counts(args, shorter, k);
            assert(failures(first, run, k) > args.max_retries);
        }
    }
}

} // verus!
