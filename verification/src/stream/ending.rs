//! A stream that has ended, however it did, has ended for good.
use vstd::prelude::*;

use crate::stream::chunked;
use crate::stream::chunked::ChunkedStreamArgs;
use crate::stream::coverage;
use crate::stream::interface::{ChunkConnector, ChunkTrottler, PollAction};
use crate::stream::model::StreamView;
use crate::stream::preserve;
use crate::stream::run;
use crate::stream::run::Exchange;

verus! {

impl<C: ChunkConnector, T: ChunkTrottler> StreamView<C, T> {
    /// Whether the stream holds no chunk, no permit and no byte.
    pub open spec fn holds_nothing(self) -> bool {
        &&& self.window.len() == 0
        &&& self.permits.len() == 0
        &&& self.buffered() == 0
    }
}

/// Whether every exchange of `run` answers that the stream, which was `first`, has ended, and
/// leaves it as it was.
pub open spec fn only_ends<C: ChunkConnector, T: ChunkTrottler>(
    first: StreamView<C, T>,
    run: Seq<Exchange<C, T>>,
) -> bool {
    forall|k: int|
        0 <= k < run.len() ==> (#[trigger] run[k]).action == Some(
            PollAction::<C::Error>::Complete,
        ) && run[k].after == first
}

/// Nothing more comes of a stream that has ended.
proof fn lemma_only_ends<C: ChunkConnector, T: ChunkTrottler>(
    s: StreamView<C, T>,
    later: Seq<Exchange<C, T>>,
)
    requires
        s.wf(),
        s.has_ended(),
        run::is_run(s, later),
    ensures
        only_ends(s, later),
    decreases later.len(),
{
    if later.len() > 0 {
        let shorter = later.drop_last();
        lemma_only_ends(s, shorter);
        if shorter.len() > 0 {
            assert(shorter[shorter.len() - 1].after == s);
        }
        run::lemma_ended(s, later.last());
        assert forall|k: int| 0 <= k < later.len() implies (#[trigger] later[k]).action == Some(
            PollAction::<C::Error>::Complete,
        ) && later[k].after == s by {
            if k < shorter.len() {
                assert(shorter[k] == later[k]);
            }
        }
    }
}

/// A stream that is cleared holds nothing, is not changed when it is cleared again, and answers
/// that it has ended whatever is asked of it from then on.
pub proof fn law_a_cleared_stream_has_ended<C: ChunkConnector, T: ChunkTrottler>(
    s: StreamView<C, T>,
    later: Seq<Exchange<C, T>>,
)
    requires
        s.wf(),
        run::is_run(s.cleared(), later),
    ensures
        s.cleared().holds_nothing(),
        s.cleared().bytes_total == 0,
        s.cleared().bytes_consumed == 0,
        s.cleared().bytes_received == 0,
        s.cleared().window_offset == 0,
        s.cleared().cleared() == s.cleared(),
        only_ends(s.cleared(), later),
{
    preserve::lemma_cleared(s);
    run::lemma_given_up(s.cleared());
    lemma_only_ends(s.cleared(), later);
}

/// Once a stream has reported an error it holds nothing, and answers that it has ended whatever
/// is asked of it from then on.
pub proof fn law_a_failed_stream_has_ended<C: ChunkConnector, T: ChunkTrottler>(
    s: StreamView<C, T>,
    failure: Exchange<C, T>,
    later: Seq<Exchange<C, T>>,
)
    requires
        s.wf(),
        s.allows(failure),
        failure.action matches Some(action) && action is Fail,
        run::is_run(failure.after, later),
    ensures
        failure.after == s.cleared(),
        failure.after.holds_nothing(),
        only_ends(failure.after, later),
{
    law_a_cleared_stream_has_ended(s, later);
}

/// A stream reports at most one error, and hands out nothing after it.
pub proof fn law_reports_at_most_one_error<C: ChunkConnector, T: ChunkTrottler>(
    args: ChunkedStreamArgs<C, T>,
    run: Seq<Exchange<C, T>>,
    i: int,
    j: int,
)
    requires
        args.chunk_max_len > 0,
        args.window_max_len > 0,
        run::is_run(args.initial(), run),
        0 <= i < j < run.len(),
        run[i].action matches Some(action) && action is Fail,
    ensures
        run[j].action == Some(PollAction::<C::Error>::Complete),
    decreases run.len(),
{
    let shorter = run.drop_last();
    if j < run.len() - 1 {
        law_reports_at_most_one_error(args, shorter, i, j);
    } else {
        assert(shorter[i].action == run[i].action);
        assert(run::has_failed(shorter));
        let s = run::state_after(args.initial(), shorter);
        run::lemma_run_wf(args, shorter);
        run::lemma_given_up(s);
        run::lemma_ended(s, run.last());
    }
}

/// Once a stream has answered that it has ended, it has launched every chunk, answers so
/// whatever is asked of it from then on, and stays as it is, as long as no connection delivered
/// more than it was asked for.
pub proof fn law_a_completed_stream_has_ended<C: ChunkConnector, T: ChunkTrottler>(
    args: ChunkedStreamArgs<C, T>,
    run: Seq<Exchange<C, T>>,
    later: Seq<Exchange<C, T>>,
)
    requires
        args.chunk_max_len > 0,
        args.window_max_len > 0,
        run::is_run(args.initial(), run),
        coverage::is_bounded_run(args.initial(), run),
        run.len() > 0,
        run.last().action == Some(PollAction::<C::Error>::Complete),
        run::is_run(run.last().after, later),
    ensures
        run.last().after.has_ended(),
        only_ends(run.last().after, later),
{
    run::lemma_run_wf(args, run);
    coverage::lemma_run_covered(args, run);
    lemma_only_ends(run.last().after, later);
}

/// Nothing is asked for, and no permit taken, for a file without bytes: the stream has ended
/// from the start, and answers so whatever is asked of it.
pub proof fn law_an_empty_file_ends_at_once<C: ChunkConnector, T: ChunkTrottler>(
    args: ChunkedStreamArgs<C, T>,
    run: Seq<Exchange<C, T>>,
)
    requires
        args.chunk_max_len > 0,
        args.window_max_len > 0,
        args.bytes_total == 0,
        run::is_run(args.initial(), run),
    ensures
        args.initial().holds_nothing(),
        only_ends(args.initial(), run),
{
    chunked::lemma_initial(args);
    run::lemma_given_up(args.initial());
    lemma_only_ends(args.initial(), run);
}

} // verus!
