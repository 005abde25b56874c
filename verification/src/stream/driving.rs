//! What one poll does as a whole, when the stream is called as its answers say.
use vstd::prelude::*;

use crate::stream::chunk::ChunkView;
use crate::stream::chunked::ChunkedStreamArgs;
use crate::stream::interface::{
    ChunkConnector, ChunkTrottler, ConnectEvent, PollAction, TransferEvent,
};
use crate::stream::model::StreamView;
use crate::stream::run;
use crate::stream::run::{Call, Exchange};

verus! {

impl<C: ChunkConnector> Call<C> {
    /// Whether this is the call to make when `action` was answered last, or what is done before
    /// it to the connection that the answer speaks of. A stream that has not been called yet, or
    /// whose last poll is over, is polled.
    pub open spec fn follows(self, action: Option<PollAction<C::Error>>) -> bool {
        match action {
            Some(PollAction::PollConnecting { index }) => match self {
                Call::Future { index: at, .. } => at == index,
                Call::Connecting { index: at, .. } => at == index,
                _ => false,
            },
            Some(PollAction::PollReconnecting { index }) => match self {
                Call::Future { index: at, .. } => at == index,
                Call::Reconnecting { index: at, .. } => at == index,
                _ => false,
            },
            Some(PollAction::PollTransferring { index }) => match self {
                Call::Stream { index: at, .. } => at == index,
                Call::Transferring { index: at, .. } => at == index,
                _ => false,
            },
            Some(PollAction::Delay { index, .. }) => match self {
                Call::Future { index: at, .. } => at == index,
                Call::Resume { from } => from == index,
                _ => false,
            },
            _ => self is Poll,
        }
    }

    /// Whether this call reports that the connection of the chunk at `index` of the window was
    /// polled, and what came of it.
    pub open spec fn is_report_of(self, index: int) -> bool {
        match self {
            Call::Connecting { index: at, .. } => at == index,
            Call::Reconnecting { index: at, .. } => at == index,
            Call::Transferring { index: at, .. } => at == index,
            _ => false,
        }
    }

    /// Whether this call reports that a connection that was polled is pending.
    pub open spec fn is_pending(self) -> bool {
        match self {
            Call::Connecting { event, .. } => event is Pending,
            Call::Reconnecting { event, .. } => event is Pending,
            Call::Transferring { arrival, .. } => arrival is Pending,
            _ => false,
        }
    }
}

/// What was answered last in the course of `run`.
pub open spec fn last_action<C: ChunkConnector, T: ChunkTrottler>(
    run: Seq<Exchange<C, T>>,
) -> Option<PollAction<C::Error>>
    decreases run.len(),
{
    if run.len() == 0 {
        None
    } else if run.last().action is Some {
        run.last().action
    } else {
        last_action(run.drop_last())
    }
}

/// Whether every call of `run` is one that the last answer before it asks for.
pub open spec fn is_driven<C: ChunkConnector, T: ChunkTrottler>(
    run: Seq<Exchange<C, T>>,
) -> bool
    decreases run.len(),
{
    run.len() > 0 ==> {
        &&& is_driven(run.drop_last())
        &&& run.last().call.follows(last_action(run.drop_last()))
    }
}

/// Whether the connection of the chunk at `index` of the window has been polled since the last
/// poll of the stream began, and was pending the last time.
pub open spec fn is_awaited<C: ChunkConnector, T: ChunkTrottler>(
    run: Seq<Exchange<C, T>>,
    index: int,
) -> bool
    decreases run.len(),
{
    if run.len() == 0 || run.last().call is Poll {
        false
    } else if run.last().call.is_report_of(index) {
        run.last().call.is_pending()
    } else {
        is_awaited(run.drop_last(), index)
    }
}

/// Whether each of the first `count` chunks in the window of `s` holds no connection or is
/// awaited.
pub open spec fn are_awaited<C: ChunkConnector, T: ChunkTrottler>(
    s: StreamView<C, T>,
    run: Seq<Exchange<C, T>>,
    count: int,
) -> bool {
    forall|i: int| 0 <= i < count ==> (#[trigger] s.window[i]) is Finished || is_awaited(run, i)
}

impl<C: ChunkConnector, T: ChunkTrottler> StreamView<C, T> {
    /// Whether the stream can be called as `action`, which was answered last, asks for.
    pub open spec fn can_follow(self, action: Option<PollAction<C::Error>>) -> bool {
        match action {
            Some(PollAction::PollConnecting { index }) => index < self.window.len()
                && self.window[index as int] is Connecting,
            Some(PollAction::PollReconnecting { index }) => index < self.window.len()
                && self.window[index as int] is Reconnecting,
            Some(PollAction::PollTransferring { index }) => index < self.window.len()
                && self.window[index as int] is Transferring,
            Some(PollAction::Delay { index, .. }) => index < self.window.len()
                && self.window[index as int] is Reconnecting,
            _ => true,
        }
    }

    /// How far a poll has come when `action` was answered last.
    spec fn polled_up_to(self, action: Option<PollAction<C::Error>>) -> int {
        match action {
            Some(PollAction::PollConnecting { index }) => index as int,
            Some(PollAction::PollReconnecting { index }) => index as int,
            Some(PollAction::PollTransferring { index }) => index as int,
            Some(PollAction::Delay { index, .. }) => index as int,
            Some(PollAction::Yield { .. }) => self.window.len() as int,
            Some(PollAction::Wait) => self.window.len() as int,
            _ => 0,
        }
    }
}

/// The chunks that are passed over hold no connection, and the one that is reached holds one.
proof fn lemma_next_in_flight<C: ChunkConnector, T: ChunkTrottler>(
    s: StreamView<C, T>,
    from: int,
)
    requires
        0 <= from,
    ensures
        s.next_in_flight(from) <= s.window.len(),
        from <= s.window.len() ==> from <= s.next_in_flight(from),
        s.next_in_flight(from) < s.window.len() ==> !(s.window[s.next_in_flight(
            from,
        )] is Finished),
        forall|i: int| from <= i < s.next_in_flight(from) ==> #[trigger] s.window[i] is Finished,
    decreases s.window.len() - from,
{
    if from < s.window.len() && s.window[from] is Finished {
        lemma_next_in_flight(s, from + 1);
    }
}

/// Going on from a chunk before which everything is awaited.
proof fn lemma_resumes_driven<C: ChunkConnector, T: ChunkTrottler>(
    s: StreamView<C, T>,
    from: int,
    after: StreamView<C, T>,
    action: PollAction<C::Error>,
    run: Seq<Exchange<C, T>>,
)
    requires
        0 <= from <= s.window.len(),
        are_awaited(s, run, from),
        s.resumes(from, after, action),
    ensures
        after.can_follow(Some(action)),
        are_awaited(after, run, after.polled_up_to(Some(action))),
{
    lemma_next_in_flight(s, from);
    let count = after.polled_up_to(Some(action));
    assert forall|i: int| 0 <= i < count implies (#[trigger] after.window[i]) is Finished
        || is_awaited(run, i) by {
        assert(s.window[i] is Finished || is_awaited(run, i));
    }
}

/// The chunks before the one that a call reports of are awaited as before.
proof fn lemma_report_keeps<C: ChunkConnector, T: ChunkTrottler>(
    s: StreamView<C, T>,
    changed: StreamView<C, T>,
    run: Seq<Exchange<C, T>>,
    index: int,
)
    requires
        run.len() > 0,
        0 <= index < s.window.len(),
        run.last().call.is_report_of(index),
        are_awaited(s, run.drop_last(), index),
        changed.window.len() == s.window.len(),
        forall|i: int| 0 <= i < index ==> #[trigger] changed.window[i] == s.window[i],
    ensures
        are_awaited(changed, run, index),
        changed.window[index] is Finished || run.last().call.is_pending() ==> are_awaited(
            changed,
            run,
            index + 1,
        ),
{
    assert forall|i: int| 0 <= i < index implies (#[trigger] changed.window[i]) is Finished
        || is_awaited(run, i) by {
        assert(s.window[i] is Finished || is_awaited(run.drop_last(), i));
    }
}

/// A failure of the connection of the chunk at `index`.
proof fn lemma_retries_driven<C: ChunkConnector, T: ChunkTrottler>(
    s: StreamView<C, T>,
    index: int,
    error: C::Error,
    after: StreamView<C, T>,
    action: PollAction<C::Error>,
    run: Seq<Exchange<C, T>>,
)
    requires
        run.len() > 0,
        0 <= index < s.window.len(),
        run.last().call.is_report_of(index),
        are_awaited(s, run.drop_last(), index),
        s.retries(index, error, after, action),
    ensures
        after.can_follow(Some(action)),
        are_awaited(after, run, after.polled_up_to(Some(action))),
{
    if s.window[index].bytes_received() >= s.len_of(index) {
        lemma_report_keeps(s, s.finished(index), run, index);
        lemma_resumes_driven(s.finished(index), index + 1, after, action, run);
    } else if !(action is Fail) {
        lemma_report_keeps(s, after, run, index);
    }
}

/// One exchange of a run that is driven.
proof fn lemma_exchange_driven<C: ChunkConnector, T: ChunkTrottler>(
    s: StreamView<C, T>,
    run: Seq<Exchange<C, T>>,
)
    requires
        run.len() > 0,
        s.allows(run.last()),
        run.last().call.follows(last_action(run.drop_last())),
        s.can_follow(last_action(run.drop_last())),
        are_awaited(s, run.drop_last(), s.polled_up_to(last_action(run.drop_last()))),
    ensures
        run.last().after.can_follow(last_action(run)),
        are_awaited(run.last().after, run, run.last().after.polled_up_to(last_action(run))),
{
    let after = run.last().after;
    let before = last_action(run.drop_last());
    match run.last().call {
        Call::Poll => {
            let action = run.last().action->0;
            let launched = choose|launched: StreamView<C, T>| #[trigger]
                s.stripped().launches(launched) && launched.resumes(0, after, action);
            lemma_resumes_driven(launched, 0, after, action, run);
        },
        Call::Resume { from } => {
            assert forall|i: int| 0 <= i < from implies (#[trigger] s.window[i]) is Finished
                || is_awaited(run, i) by {
                assert(s.window[i] is Finished || is_awaited(run.drop_last(), i));
            }
            lemma_resumes_driven(s, from as int, after, run.last().action->0, run);
        },
        Call::Connecting { index, event } | Call::Reconnecting { index, event } => {
            let action = run.last().action->0;
            match event {
                ConnectEvent::Pending => {
                    lemma_report_keeps(s, s, run, index as int);
                    lemma_resumes_driven(s, index + 1, after, action, run);
                },
                ConnectEvent::Connected { .. } => {
                    lemma_report_keeps(s, after, run, index as int);
                },
                ConnectEvent::Failed { error } => {
                    lemma_retries_driven(s, index as int, error, after, action, run);
                },
            }
        },
        Call::Transferring { index, arrival } => {
            let action = run.last().action->0;
            match arrival {
                TransferEvent::Pending => {
                    lemma_report_keeps(s, s, run, index as int);
                    lemma_resumes_driven(s, index + 1, after, action, run);
                },
                TransferEvent::Piece { .. } => {
                    lemma_report_keeps(s, after, run, index as int);
                },
                TransferEvent::Failed { error } => {
                    lemma_retries_driven(s, index as int, error, after, action, run);
                },
                TransferEvent::End => {
                    let ended = s.ended(index as int);
                    lemma_report_keeps(s, ended, run, index as int);
                    lemma_resumes_driven(ended, index + 1, after, action, run);
                },
            }
        },
        Call::Future { .. } | Call::Stream { .. } => {
            assert forall|i: int| 0 <= i < after.polled_up_to(before) implies (
            #[trigger] after.window[i]) is Finished || is_awaited(run, i) by {
                assert(s.window[i] is Finished || is_awaited(run.drop_last(), i));
            }
        },
    }
}

/// What holds after a run that is driven.
proof fn lemma_run_driven<C: ChunkConnector, T: ChunkTrottler>(
    first: StreamView<C, T>,
    run: Seq<Exchange<C, T>>,
)
    requires
        run::is_run(first, run),
        is_driven(run),
    ensures
        run::state_after(first, run).can_follow(last_action(run)),
        are_awaited(
            run::state_after(first, run),
            run,
            run::state_after(first, run).polled_up_to(last_action(run)),
        ),
    decreases run.len(),
{
    if run.len() > 0 {
        let shorter = run.drop_last();
        lemma_run_driven(first, shorter);
        lemma_exchange_driven(run::state_after(first, shorter), run);
    }
}

/// Every answer asks for a call that can be made: the chunk that it speaks of is in the window,
/// and is in the state that the call is for.
pub proof fn law_answers_ask_for_calls_that_can_be_made<C: ChunkConnector, T: ChunkTrottler>(
    args: ChunkedStreamArgs<C, T>,
    run: Seq<Exchange<C, T>>,
)
    requires
        args.chunk_max_len > 0,
        args.window_max_len > 0,
        run::is_run(args.initial(), run),
        is_driven(run),
    ensures
        run::state_after(args.initial(), run).wf(),
        run::state_after(args.initial(), run).can_follow(last_action(run)),
{
    run::lemma_run_wf(args, run);
    lemma_run_driven(args.initial(), run);
}

/// A chunk that is to be retried is polled right away. The stream is resumed only at a chunk
/// whose new connection is to be held back, and then the next thing that it asks for is that this
/// connection be polled.
pub proof fn law_a_retry_is_polled_right_away<C: ChunkConnector, T: ChunkTrottler>(
    args: ChunkedStreamArgs<C, T>,
    run: Seq<Exchange<C, T>>,
    from: usize,
)
    requires
        args.chunk_max_len > 0,
        args.window_max_len > 0,
        run::is_run(args.initial(), run),
        is_driven(run),
        run.len() > 0,
        run.last().call == (Call::<C>::Resume { from }),
    ensures
        last_action(run.drop_last()) matches Some(PollAction::Delay { index, .. }) && index
            == from,
        run.last().action == Some(PollAction::<C::Error>::PollReconnecting { index: from }),
        run.last().after == run::state_after(args.initial(), run.drop_last()),
{
    let s = run::state_after(args.initial(), run.drop_last());
    lemma_run_driven(args.initial(), run.drop_last());
    assert(s.next_in_flight(from as int) == from);
}

/// When a poll hands out a piece or answers that there is nothing to hand out yet, every
/// connection of the window has been polled since it began, and was pending the last time. A
/// connection opened for a retry is no exception. So a stream that has nothing to hand out is
/// woken up by the connection of its first chunk, unless that chunk has just been exhausted.
pub proof fn law_a_poll_asks_every_connection<C: ChunkConnector, T: ChunkTrottler>(
    args: ChunkedStreamArgs<C, T>,
    run: Seq<Exchange<C, T>>,
)
    requires
        args.chunk_max_len > 0,
        args.window_max_len > 0,
        run::is_run(args.initial(), run),
        is_driven(run),
        run.len() > 0,
        run.last().action matches Some(action) && (action is Wait || action is Yield),
    ensures
        forall|i: int|
            0 <= i < run.last().after.window.len() ==> (#[trigger] run.last().after.window[i])
                is Finished || is_awaited(run, i),
        run.last().action == Some(PollAction::<C::Error>::Wait) ==> is_awaited(run, 0)
            || run.last().after.window[0].is_exhausted(),
        run.last().action == Some(PollAction::<C::Error>::Wait) ==> match
            run.last().after.window[0] {
            ChunkView::Connecting { .. } => true,
            ChunkView::Reconnecting { buffer, .. } => buffer.len() == 0,
            ChunkView::Transferring { buffer, .. } => buffer.len() == 0,
            ChunkView::Finished { buffer } => buffer.len() == 0,
        },
{
    let after = run.last().after;
    lemma_run_driven(args.initial(), run);
    if run.last().action == Some(PollAction::<C::Error>::Wait) {
        assert(after.window.len() > 0 && after.window[0].buffer().len() == 0);
        assert(after.window[0] is Finished || is_awaited(run, 0));
    }
}

} // verus!
