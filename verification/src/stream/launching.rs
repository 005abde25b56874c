//! Every chunk is launched once, in the order of the file.
use vstd::arithmetic::div_mod;
use vstd::prelude::*;

use crate::stream::chunk::ChunkView;
use crate::stream::chunked::ChunkedStreamArgs;
use crate::stream::coverage;
use crate::stream::delivery;
use crate::stream::interface::{ChunkConnector, ChunkTrottler, PollAction};
use crate::stream::laws;
use crate::stream::model::StreamView;
use crate::stream::preserve;
use crate::stream::range;
use crate::stream::run;
use crate::stream::run::Exchange;
use crate::stream::steps;

verus! {

/// Whether the exchange at `at` of `run` launches the `k`-th chunk of the file.
pub open spec fn launches_at<C: ChunkConnector, T: ChunkTrottler>(
    first: StreamView<C, T>,
    run: Seq<Exchange<C, T>>,
    at: int,
    k: int,
) -> bool {
    run::state_after(first, run.take(at)).launched_count() <= k < run[at].after.launched_count()
}

/// Whether some exchange of `run` launches the `k`-th chunk of the file.
pub open spec fn launches_in<C: ChunkConnector, T: ChunkTrottler>(
    first: StreamView<C, T>,
    run: Seq<Exchange<C, T>>,
    k: int,
) -> bool {
    exists|at: int| 0 <= at < run.len() && #[trigger] launches_at(first, run, at, k)
}

/// One exchange that does not fail.
proof fn lemma_exchange_launches<C: ChunkConnector, T: ChunkTrottler>(
    s: StreamView<C, T>,
    exchange: Exchange<C, T>,
)
    requires
        s.wf(),
        s.allows(exchange),
        !(exchange.action matches Some(action) && action is Fail),
    ensures
        exchange.after.bytes_total == s.bytes_total,
        exchange.after.chunk_max_len == s.chunk_max_len,
        exchange.after.connector == s.connector,
        s.launched_count() <= exchange.after.launched_count(),
        s.launched_count() < exchange.after.launched_count() ==> exchange.call is Poll,
        forall|i: int|
            0 <= i < exchange.after.window.len() && exchange.after.window_offset + i
                >= s.launched_count() ==> #[trigger] exchange.after.is_launched(i),
{
    if exchange.call is Poll {
        let after = exchange.after;
        let action = exchange.action->0;
        laws::law_chunks_are_launched_in_order(s, after, action);
        preserve::lemma_stripped(s);
    }
}

/// What holds of a stream after a run without an error.
proof fn lemma_run_launches<C: ChunkConnector, T: ChunkTrottler>(
    args: ChunkedStreamArgs<C, T>,
    run: Seq<Exchange<C, T>>,
)
    requires
        args.chunk_max_len > 0,
        args.window_max_len > 0,
        run::is_run(args.initial(), run),
        !run::has_failed(run),
    ensures
        run::state_after(args.initial(), run).bytes_total == args.bytes_total,
        run::state_after(args.initial(), run).chunk_max_len == args.chunk_max_len,
        run::state_after(args.initial(), run).connector == args.connector,
        args.initial().launched_count() <= run::state_after(
            args.initial(),
            run,
        ).launched_count() <= args.initial().chunks_total(),
    decreases run.len(),
{
    run::lemma_run_wf(args, run);
    if run.len() > 0 {
        let shorter = run.drop_last();
        run::lemma_has_failed(run);
        lemma_run_launches(args, shorter);
        let s = run::state_after(args.initial(), shorter);
        run::lemma_run_wf(args, shorter);
        lemma_exchange_launches(s, run.last());
    }
}

/// Only a poll launches chunks, and it launches those that follow the ones launched before it.
/// For each it asks just the bytes of that chunk. The chunk that the stream begins with is not
/// asked for again.
pub proof fn law_polls_launch_the_chunks_that_follow<C: ChunkConnector, T: ChunkTrottler>(
    args: ChunkedStreamArgs<C, T>,
    run: Seq<Exchange<C, T>>,
    at: int,
)
    requires
        args.chunk_max_len > 0,
        args.window_max_len > 0,
        run::is_run(args.initial(), run),
        !run::has_failed(run),
        0 <= at < run.len(),
    ensures
        ({
            let before = run::state_after(args.initial(), run.take(at));
            let after = run[at].after;
            &&& args.initial().launched_count() <= before.launched_count()
            &&& before.launched_count() <= after.launched_count()
            &&& after.launched_count() <= args.initial().chunks_total()
            &&& before.launched_count() < after.launched_count() ==> run[at].call is Poll
            &&& after.bytes_total == args.bytes_total
            &&& after.chunk_max_len == args.chunk_max_len
            &&& after.connector == args.connector
            &&& forall|i: int|
                0 <= i < after.window.len() && launches_at(
                    args.initial(),
                    run,
                    at,
                    after.window_offset + i,
                ) ==> #[trigger] after.is_launched(i)
        }),
    decreases run.len(),
{
    let shorter = run.drop_last();
    run::lemma_has_failed(run);
    if at < run.len() - 1 {
        law_polls_launch_the_chunks_that_follow(args, shorter, at);
        assert(shorter.take(at) =~= run.take(at));
    } else {
        assert(run.take(at) =~= shorter);
        run::lemma_run_wf(args, shorter);
        lemma_run_launches(args, shorter);
        lemma_run_launches(args, run);
        lemma_exchange_launches(run::state_after(args.initial(), shorter), run.last());
    }
}

/// The number of launched chunks never shrinks while no error is reported.
pub proof fn law_launched_chunks_only_grow<C: ChunkConnector, T: ChunkTrottler>(
    args: ChunkedStreamArgs<C, T>,
    run: Seq<Exchange<C, T>>,
    earlier: int,
    later: int,
)
    requires
        args.chunk_max_len > 0,
        args.window_max_len > 0,
        run::is_run(args.initial(), run),
        !run::has_failed(run),
        0 <= earlier <= later <= run.len(),
    ensures
        run::state_after(args.initial(), run.take(earlier)).launched_count() <= run::state_after(
            args.initial(),
            run.take(later),
        ).launched_count(),
    decreases later - earlier,
{
    if earlier < later {
        law_launched_chunks_only_grow(args, run, earlier, later - 1);
        law_polls_launch_the_chunks_that_follow(args, run, later - 1);
        assert(run.take(later).last() == run[later - 1]);
    }
}

/// No chunk is launched twice while no error is reported.
pub proof fn law_no_chunk_is_launched_twice<C: ChunkConnector, T: ChunkTrottler>(
    args: ChunkedStreamArgs<C, T>,
    run: Seq<Exchange<C, T>>,
    earlier: int,
    later: int,
    k: int,
)
    requires
        args.chunk_max_len > 0,
        args.window_max_len > 0,
        run::is_run(args.initial(), run),
        !run::has_failed(run),
        0 <= earlier < later < run.len(),
        launches_at(args.initial(), run, earlier, k),
    ensures
        !launches_at(args.initial(), run, later, k),
{
    law_launched_chunks_only_grow(args, run, earlier + 1, later);
    assert(run.take(earlier + 1).last() == run[earlier]);
}

/// A chunk that is launched in the end was launched by some exchange.
proof fn lemma_launched_by<C: ChunkConnector, T: ChunkTrottler>(
    args: ChunkedStreamArgs<C, T>,
    run: Seq<Exchange<C, T>>,
    k: int,
) -> (at: int)
    requires
        args.initial().launched_count() <= k < run::state_after(
            args.initial(),
            run,
        ).launched_count(),
    ensures
        0 <= at < run.len(),
        launches_at(args.initial(), run, at, k),
    decreases run.len(),
{
    let shorter = run.drop_last();
    let first = args.initial();
    assert(run.take(run.len() - 1) =~= shorter);
    if run::state_after(first, shorter).launched_count() <= k {
        run.len() - 1
    } else {
        let at = lemma_launched_by(args, shorter, k);
        assert(shorter.take(at) =~= run.take(at));
        at
    }
}

/// A stream that answers that it has ended, and reported no error, has launched every chunk of
/// the file but the one that it began with, as long as no connection delivered more than it was
/// asked for.
pub proof fn law_every_chunk_is_launched<C: ChunkConnector, T: ChunkTrottler>(
    args: ChunkedStreamArgs<C, T>,
    run: Seq<Exchange<C, T>>,
)
    requires
        args.chunk_max_len > 0,
        args.window_max_len > 0,
        run::is_run(args.initial(), run),
        coverage::is_bounded_run(args.initial(), run),
        !run::has_failed(run),
        run.len() > 0,
        run.last().action == Some(PollAction::<C::Error>::Complete),
    ensures
        run.last().after.launched_count() == args.initial().chunks_total(),
        forall|k: int|
            1 <= k < args.initial().chunks_total() ==> #[trigger] launches_in(
                args.initial(),
                run,
                k,
            ),
{
    coverage::lemma_run_covered(args, run);
    lemma_run_launches(args, run);
    assert forall|k: int| 1 <= k < args.initial().chunks_total() implies #[trigger] launches_in(
        args.initial(),
        run,
        k,
    ) by {
        let at = lemma_launched_by(args, run, k);
    }
}

/// Whether the poll at `at` of `run` asks `connector` for the `len` bytes of the file from
/// `offset`, for the chunk at `i` of the window, which it launches.
pub open spec fn requests_at<C: ChunkConnector, T: ChunkTrottler>(
    args: ChunkedStreamArgs<C, T>,
    run: Seq<Exchange<C, T>>,
    at: int,
    i: int,
    offset: usize,
    len: usize,
) -> bool {
    let before = run::state_after(args.initial(), run.take(at));
    let after = run[at].after;
    &&& 0 <= at < run.len()
    &&& 0 <= i < after.window.len()
    &&& before.window_offset + before.window.len() <= after.window_offset + i
    &&& after.window[i] matches ChunkView::Connecting { future } && call_ensures(
        C::get,
        (&args.connector, offset, len),
        future,
    )
}

/// Whether some poll of `run` asks for the byte of the file at `position`.
pub open spec fn requests_byte<C: ChunkConnector, T: ChunkTrottler>(
    args: ChunkedStreamArgs<C, T>,
    run: Seq<Exchange<C, T>>,
    position: int,
) -> bool {
    exists|at: int, i: int, offset: usize, len: usize| #[trigger]
        requests_at(args, run, at, i, offset, len) && offset <= position < offset + len
}

/// The exchange that launches a chunk is a poll that asks for the bytes of that chunk.
proof fn lemma_launch_requests<C: ChunkConnector, T: ChunkTrottler>(
    args: ChunkedStreamArgs<C, T>,
    run: Seq<Exchange<C, T>>,
    at: int,
    k: int,
)
    requires
        args.chunk_max_len > 0,
        args.window_max_len > 0,
        run::is_run(args.initial(), run),
        !run::has_failed(run),
        0 <= at < run.len(),
        launches_at(args.initial(), run, at, k),
    ensures
        ({
            let offset = k * args.chunk_max_len;
            let left = args.bytes_total - offset;
            let len = if left < args.chunk_max_len {
                left
            } else {
                args.chunk_max_len as int
            };
            &&& 0 <= offset <= usize::MAX
            &&& 0 < len <= usize::MAX
            &&& requests_at(
                args,
                run,
                at,
                k - run[at].after.window_offset,
                offset as usize,
                len as usize,
            )
        }),
    decreases run.len(),
{
    let shorter = run.drop_last();
    run::lemma_has_failed(run);
    if at < run.len() - 1 {
        assert(shorter.take(at) =~= run.take(at));
        lemma_launch_requests(args, shorter, at, k);
    } else {
        assert(run.take(at) =~= shorter);
        run::lemma_run_wf(args, shorter);
        lemma_run_launches(args, shorter);
        let s = run::state_after(args.initial(), shorter);
        law_polls_launch_the_chunks_that_follow(args, run, at);
        let after = run.last().after;
        let action = run.last().action->0;
        steps::law_a_poll_takes_exhausted_chunks_out(s, after, action);
        steps::law_a_launched_chunk_asks_for_its_bytes(
            s,
            after,
            action,
            k - after.window_offset,
        );
    }
}

/// A stream that answers that it has ended, and reported no error, has asked for every byte of
/// the file behind the first chunk, as long as no connection delivered more than it was asked
/// for.
pub proof fn law_every_byte_is_asked_for<C: ChunkConnector, T: ChunkTrottler>(
    args: ChunkedStreamArgs<C, T>,
    run: Seq<Exchange<C, T>>,
    position: int,
)
    requires
        args.chunk_max_len > 0,
        args.window_max_len > 0,
        run::is_run(args.initial(), run),
        coverage::is_bounded_run(args.initial(), run),
        !run::has_failed(run),
        run.len() > 0,
        run.last().action == Some(PollAction::<C::Error>::Complete),
        args.chunk_max_len <= position < args.bytes_total,
    ensures
        requests_byte(args, run, position),
{
    let max_len = args.chunk_max_len as nat;
    let k = position as nat / max_len;
    range::law_every_byte_belongs_to_one_chunk(
        args.bytes_total as nat,
        max_len,
        position as nat,
    );
    law_every_chunk_is_launched(args, run);
    div_mod::lemma_fundamental_div_mod(position, max_len as int);
    assert(k >= 1) by (nonlinear_arith)
        requires
            position == max_len * k + position % max_len as int,
            0 <= position % (max_len as int) < max_len,
            position >= max_len,
    ;
    assert(launches_in(args.initial(), run, k as int));
    let at = choose|at: int|
        0 <= at < run.len() && #[trigger] launches_at(args.initial(), run, at, k as int);
    lemma_launch_requests(args, run, at, k as int);
    assert(max_len * k == k * max_len) by (nonlinear_arith);
}

/// What is asked for when a chunk is launched does not overlap with what is asked for when
/// another is, nor with the first chunk, over whose connection the stream began, while no error
/// is reported.
pub proof fn law_no_byte_is_asked_for_twice<C: ChunkConnector, T: ChunkTrottler>(
    args: ChunkedStreamArgs<C, T>,
    asked: spec_fn(C::Future) -> (usize, usize),
    run: Seq<Exchange<C, T>>,
    one: (int, int, usize, usize),
    other: (int, int, usize, usize),
)
    requires
        args.chunk_max_len > 0,
        args.window_max_len > 0,
        run::is_run(args.initial(), run),
        !run::has_failed(run),
        delivery::tells_what_was_asked(args.connector, asked),
        requests_at(args, run, one.0, one.1, one.2, one.3),
        requests_at(args, run, other.0, other.1, other.2, other.3),
        one.0 != other.0 || one.1 != other.1,
    ensures
        args.chunk_max_len <= one.2,
        one.2 + one.3 <= args.bytes_total,
        one.2 + one.3 <= other.2 || other.2 + other.3 <= one.2,
{
    let k = run[one.0].after.window_offset + one.1;
    let m = run[other.0].after.window_offset + other.1;
    lemma_launch_requests(args, run, one.0, k);
    lemma_launch_requests(args, run, other.0, m);
    law_polls_launch_the_chunks_that_follow(args, run, one.0);
    if one.0 < other.0 {
        law_no_chunk_is_launched_twice(args, run, one.0, other.0, k);
    } else if other.0 < one.0 {
        law_no_chunk_is_launched_twice(args, run, other.0, one.0, m);
    }
    assert(k != m);
    let max_len = args.chunk_max_len as int;
    assert(k >= 1) by {
        if args.bytes_total == 0 {
            range::lemma_chunk_count(0, args.chunk_max_len as nat, 0);
        }
    }
    assert(k * max_len >= max_len) by (nonlinear_arith)
        requires
            k >= 1,
            max_len > 0,
    ;
    if k < m {
        assert(m * max_len >= k * max_len + max_len) by (nonlinear_arith)
            requires
                k + 1 <= m,
                max_len > 0,
        ;
    } else {
        assert(k * max_len >= m * max_len + max_len) by (nonlinear_arith)
            requires
                m + 1 <= k,
                max_len > 0,
        ;
    }
}

} // verus!
