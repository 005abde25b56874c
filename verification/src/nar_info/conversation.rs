//! What holds of a listing from the first response to its result.
use vstd::prelude::*;

use crate::nar_info::directory::{ListDirectoryAttempt, ListDirectoryData, Url};
use crate::nar_info::header;
use crate::nar_info::listing;
use crate::nar_info::listing::{ListAction, ListDirectoryError, ListEvent, STATUS_OK};

verus! {

impl ListDirectoryAttempt {
    /// The substituter that was asked.
    pub open spec fn substituter_url(self) -> Url {
        match self {
            ListDirectoryAttempt::Successful { substituter_url } => substituter_url,
            ListDirectoryAttempt::Offline { substituter_url } => substituter_url,
            ListDirectoryAttempt::ServiceError { substituter_url } => substituter_url,
        }
    }
}

/// The substituters that were asked, one for each of `attempts`.
pub open spec fn substituters_of(attempts: Seq<ListDirectoryAttempt>) -> Seq<Url> {
    attempts.map_values(|attempt: ListDirectoryAttempt| attempt.substituter_url())
}

impl ListEvent {
    /// The substituter whose request is over with this event. A request that was lost leaves no
    /// trace of where it went.
    pub open spec fn requested_url(self) -> Option<Url> {
        match self {
            ListEvent::Unanswered { substituter_url, .. } => Some(substituter_url),
            ListEvent::Answered { substituter_url, .. } => Some(substituter_url),
            _ => None,
        }
    }
}

/// The substituters whose requests are over, in the order in which that was learnt.
pub open spec fn requested(events: Seq<ListEvent>) -> Seq<Url> {
    events.filter_map(|event: ListEvent| event.requested_url())
}

impl ListAction {
    /// Whether `event` can come of doing as the action says.
    pub open spec fn leads_to(self, event: ListEvent) -> bool {
        match self {
            ListAction::Join => !(event is Read) && !(event is Unreadable),
            ListAction::ReadBody { substituter_url, content_type } => match event {
                ListEvent::Read { substituter_url: url, content_type: text, .. } => {
                    url == substituter_url && text == content_type
                },
                ListEvent::Unreadable { substituter_url: url } => url == substituter_url,
                _ => false,
            },
            ListAction::Return { .. } => false,
        }
    }
}

/// Whether the event at `at` of `events` follows the action before it, and is answered by the
/// action at `at` of `actions`.
pub open spec fn is_step(
    store_path_hash: String,
    events: Seq<ListEvent>,
    actions: Seq<ListAction>,
    at: int,
) -> bool {
    &&& at == 0 ==> ListAction::Join.leads_to(events[0])
    &&& at > 0 ==> actions[at - 1].leads_to(events[at])
    &&& listing::listing_after(store_path_hash, events.take(at)).answers(events[at], actions[at])
}

/// Whether a listing that does as it is told, beginning with waiting for a request, takes note
/// of `events` and is answered with `actions`.
pub open spec fn is_conversation(
    store_path_hash: String,
    events: Seq<ListEvent>,
    actions: Seq<ListAction>,
) -> bool {
    &&& events.len() == actions.len()
    &&& forall|at: int|
        0 <= at < events.len() ==> #[trigger] is_step(store_path_hash, events, actions, at)
}

/// A listing is over once it has its result, and has it only when a listing has been read or no
/// request is left.
pub proof fn law_nothing_follows_the_result(
    store_path_hash: String,
    events: Seq<ListEvent>,
    actions: Seq<ListAction>,
    at: int,
)
    requires
        is_conversation(store_path_hash, events, actions),
        0 <= at < events.len(),
    ensures
        actions[at] is Return <==> events[at] is Read || events[at] is Exhausted,
        actions[at] is Return ==> at == events.len() - 1,
{
    assert(is_step(store_path_hash, events, actions, at));
    if at < events.len() - 1 {
        assert(is_step(store_path_hash, events, actions, at + 1));
    }
}

/// The first listing that can be read is the result. It is the body of a response that says
/// that it has the listing, and comes with the content type of that response. The substituter is
/// reported last, as successful, and nothing that would have come later plays a part.
pub proof fn law_the_first_listing_read_is_the_result(
    store_path_hash: String,
    events: Seq<ListEvent>,
    actions: Seq<ListAction>,
    at: int,
)
    requires
        is_conversation(store_path_hash, events, actions),
        0 <= at < events.len(),
        events[at] is Read,
    ensures
        at == events.len() - 1,
        forall|i: int| 0 <= i < at ==> !(#[trigger] events[i] is Read),
        events[at] matches ListEvent::Read { substituter_url, content, content_type } && {
            &&& actions[at] == (ListAction::Return {
                result: Ok(Some(ListDirectoryData { content, content_type })),
            })
            &&& at > 0
            &&& events[at - 1] matches ListEvent::Answered {
                substituter_url: url,
                status,
                content_type_header,
            } && {
                &&& url == substituter_url
                &&& status == STATUS_OK
                &&& match content_type_header {
                    Some(raw) => header::reads_as(raw@, content_type),
                    None => content_type is None,
                }
            }
            &&& listing::listing_after(store_path_hash, events).attempts
                == listing::listing_after(store_path_hash, events.take(at)).attempts.push(
                ListDirectoryAttempt::Successful { substituter_url },
            )
        },
{
    assert forall|i: int| 0 <= i < at implies !(#[trigger] events[i] is Read) by {
        law_nothing_follows_the_result(store_path_hash, events, actions, i);
    }
    law_nothing_follows_the_result(store_path_hash, events, actions, at);
    assert(is_step(store_path_hash, events, actions, at));
    assert(is_step(store_path_hash, events, actions, at - 1));
    assert(events.drop_last() =~= events.take(at));
}

/// When no request is left, no listing has been read. The listing fails if some substituter
/// said that it does not have the directory, and else there is none.
pub proof fn law_without_a_listing_what_was_said_decides(
    store_path_hash: String,
    events: Seq<ListEvent>,
    actions: Seq<ListAction>,
    at: int,
)
    requires
        is_conversation(store_path_hash, events, actions),
        0 <= at < events.len(),
        events[at] is Exhausted,
    ensures
        at == events.len() - 1,
        forall|i: int| 0 <= i < events.len() ==> !(#[trigger] events[i] is Read),
        (exists|i: int| 0 <= i < events.len() && (#[trigger] events[i]).is_not_found())
            ==> actions[at] == (ListAction::Return {
            result: Err(ListDirectoryError { store_path_hash }),
        }),
        (forall|i: int| 0 <= i < events.len() ==> !(#[trigger] events[i]).is_not_found())
            ==> actions[at] == (ListAction::Return { result: Ok(None) }),
{
    law_nothing_follows_the_result(store_path_hash, events, actions, at);
    assert forall|i: int| 0 <= i < events.len() implies !(#[trigger] events[i] is Read) by {
        law_nothing_follows_the_result(store_path_hash, events, actions, i);
    }
    assert(is_step(store_path_hash, events, actions, at));
    let before = events.take(at);
    listing::law_exhausted_listing_fails_if_a_directory_was_not_found(
        store_path_hash,
        before,
        actions[at],
    );
    if exists|i: int| 0 <= i < events.len() && (#[trigger] events[i]).is_not_found() {
        let i = choose|i: int| 0 <= i < events.len() && (#[trigger] events[i]).is_not_found();
        assert(before[i].is_not_found());
    }
    if forall|i: int| 0 <= i < events.len() ==> !(#[trigger] events[i]).is_not_found() {
        assert forall|i: int| 0 <= i < before.len() implies !(
        #[trigger] before[i]).is_not_found() by {
            assert(before[i] == events[i]);
        }
    }
}

/// Every request that is over has been reported, but for one whose body is being read.
proof fn lemma_reported(
    store_path_hash: String,
    events: Seq<ListEvent>,
    actions: Seq<ListAction>,
)
    requires
        is_conversation(store_path_hash, events, actions),
    ensures
        ({
            let reported = substituters_of(
                listing::listing_after(store_path_hash, events).attempts,
            );
            requested(events) == if actions.len() > 0 {
                match actions.last() {
                    ListAction::ReadBody { substituter_url, .. } => reported.push(
                        substituter_url,
                    ),
                    _ => reported,
                }
            } else {
                reported
            }
        }),
    decreases events.len(),
{
    let reported = substituters_of(listing::listing_after(store_path_hash, events).attempts);
    if events.len() == 0 {
        assert(reported =~= Seq::<Url>::empty());
    } else {
        let shorter = events.drop_last();
        let before = actions.drop_last();
        let last = events.len() - 1;
        assert forall|at: int| 0 <= at < shorter.len() implies #[trigger] is_step(
            store_path_hash,
            shorter,
            before,
            at,
        ) by {
            assert(is_step(store_path_hash, events, actions, at));
            assert(shorter.take(at) =~= events.take(at));
        }
        lemma_reported(store_path_hash, shorter, before);
        assert(is_step(store_path_hash, events, actions, last));
        let earlier = listing::listing_after(store_path_hash, shorter).attempts;
        if let Some(attempt) = events.last().attempt() {
            assert(substituters_of(earlier.push(attempt)) =~= substituters_of(earlier).push(
                attempt.substituter_url(),
            ));
        }
        if let Some(url) = events.last().requested_url() {
            assert(requested(events) =~= requested(shorter).push(url));
        }
    }
}

/// The attempts are those of the requests that are over, one for each, in the order in which
/// they were over. A request that was lost is not among them.
pub proof fn law_every_request_is_reported_once(
    store_path_hash: String,
    events: Seq<ListEvent>,
    actions: Seq<ListAction>,
)
    requires
        is_conversation(store_path_hash, events, actions),
        actions.len() > 0 ==> !(actions.last() is ReadBody),
    ensures
        substituters_of(listing::listing_after(store_path_hash, events).attempts) == requested(
            events,
        ),
{
    lemma_reported(store_path_hash, events, actions);
}

/// No more substituters are reported than were asked, and none more often than it was asked. If
/// what came of each request is known, each substituter is reported as often as it was asked.
pub proof fn law_attempts_account_for_the_substituters_asked(
    store_path_hash: String,
    events: Seq<ListEvent>,
    actions: Seq<ListAction>,
    asked: Seq<Url>,
)
    requires
        is_conversation(store_path_hash, events, actions),
        actions.len() > 0 ==> !(actions.last() is ReadBody),
        requested(events).to_multiset().subset_of(asked.to_multiset()),
    ensures
        ({
            let attempts = listing::listing_after(store_path_hash, events).attempts;
            &&& attempts.len() <= asked.len()
            &&& substituters_of(attempts).to_multiset().subset_of(asked.to_multiset())
            &&& asked.no_duplicates() ==> substituters_of(attempts).no_duplicates()
            &&& requested(events).to_multiset() == asked.to_multiset() ==> {
                &&& attempts.len() == asked.len()
                &&& substituters_of(attempts).to_multiset() == asked.to_multiset()
            }
        }),
{
    law_every_request_is_reported_once(store_path_hash, events, actions);
    lemma_among(requested(events), asked);
}

/// A sequence whose items are, as often as they occur, among those of another.
pub proof fn lemma_among<A>(part: Seq<A>, whole: Seq<A>)
    requires
        part.to_multiset().subset_of(whole.to_multiset()),
    ensures
        part.len() <= whole.len(),
        whole.no_duplicates() ==> part.no_duplicates(),
        part.to_multiset() == whole.to_multiset() ==> part.len() == whole.len(),
{
    broadcast use vstd::seq_lib::group_to_multiset_ensures;

    let rest = whole.to_multiset().sub(part.to_multiset());
    assert(part.to_multiset().add(rest) =~= whole.to_multiset());
    assert(part.to_multiset().len() + rest.len() == whole.to_multiset().len());
    if whole.no_duplicates() {
        whole.lemma_multiset_has_no_duplicates();
        assert forall|x: A| part.to_multiset().contains(x) implies part.to_multiset().count(x)
            == 1 by {
            assert(part.to_multiset().count(x) <= whole.to_multiset().count(x));
            assert(whole.to_multiset().contains(x));
        }
        part.lemma_multiset_has_no_duplicates_conv();
    }
}

} // verus!
