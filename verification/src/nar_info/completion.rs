//! What a listing comes to, once it is known what came of the requests.
use vstd::prelude::*;

use crate::nar_info::conversation;
use crate::nar_info::directory::{ListDirectoryAttempt, ListDirectoryData, Url};
use crate::nar_info::header;
use crate::nar_info::listing::{
    DirectoryListing, ListAction, ListDirectoryError, ListEvent, RequestFault, STATUS_FORBIDDEN,
    STATUS_NOT_FOUND, STATUS_OK,
};

verus! {

/// What came of a request in the end.
#[derive(Debug)]
pub enum Completion {
    /// The request was lost, without a trace of which one it was.
    Lost,
    /// There was no response.
    Unanswered { substituter_url: Url, fault: RequestFault },
    /// There was a response, with a status code, a content type where it has one, and a body,
    /// unless that could not be read.
    Answered {
        substituter_url: Url,
        status: u16,
        content_type_header: Option<Vec<u8>>,
        body: Option<String>,
    },
}

impl Completion {
    /// The substituter that was asked, if that is known.
    pub open spec fn requested_url(self) -> Option<Url> {
        match self {
            Completion::Lost => None,
            Completion::Unanswered { substituter_url, .. } => Some(substituter_url),
            Completion::Answered { substituter_url, .. } => Some(substituter_url),
        }
    }

    /// Whether the response has the listing in its body, and that could be read.
    pub open spec fn is_served(self) -> bool {
        self matches Completion::Answered { status, body, .. } && status == STATUS_OK
            && body is Some
    }

    /// Whether `data` is the listing that the response has, with the content type of the
    /// response if that is text.
    pub open spec fn serves(self, data: ListDirectoryData) -> bool {
        &&& self.is_served()
        &&& self matches Completion::Answered { content_type_header, body, .. } && {
            &&& body == Some(data.content)
            &&& match content_type_header {
                Some(raw) => header::reads_as(raw@, data.content_type),
                None => data.content_type is None,
            }
        }
    }

    /// Whether a substituter says that it does not have the directory, or does not show it.
    pub open spec fn is_not_found(self) -> bool {
        self matches Completion::Answered { status, .. } && (status == STATUS_NOT_FOUND || status
            == STATUS_FORBIDDEN)
    }

    /// How the substituter fared, if it is known which one it is.
    pub open spec fn attempt(self) -> Option<ListDirectoryAttempt> {
        match self {
            Completion::Lost => None,
            Completion::Unanswered { substituter_url, fault } => {
                if fault.timeout || fault.connect || fault.request {
                    Some(ListDirectoryAttempt::Offline { substituter_url })
                } else {
                    Some(ListDirectoryAttempt::ServiceError { substituter_url })
                }
            },
            Completion::Answered { substituter_url, .. } => {
                if self.is_served() || self.is_not_found() {
                    Some(ListDirectoryAttempt::Successful { substituter_url })
                } else {
                    Some(ListDirectoryAttempt::ServiceError { substituter_url })
                }
            },
        }
    }
}

/// How the substituters fared, in the order of `completions`.
pub open spec fn attempts_of(completions: Seq<Completion>) -> Seq<ListDirectoryAttempt> {
    completions.filter_map(|completion: Completion| completion.attempt())
}

/// The substituters that were asked, in the order of `completions`.
pub open spec fn requested(completions: Seq<Completion>) -> Seq<Url> {
    completions.filter_map(|completion: Completion| completion.requested_url())
}

/// Whether the completion at `at` is the first that serves the listing.
pub open spec fn is_first_served(completions: Seq<Completion>, at: int) -> bool {
    &&& 0 <= at < completions.len()
    &&& completions[at].is_served()
    &&& forall|i: int| 0 <= i < at ==> !(#[trigger] completions[i]).is_served()
}

/// Whether the requests, over in the order of `completions`, come to `result` and `attempts`.
///
/// The first listing served is the result, and the attempts end with it. Without one the listing
/// fails if some substituter said that it does not have the directory, there is no listing
/// otherwise, and all attempts are reported.
pub open spec fn comes_to(
    store_path_hash: String,
    completions: Seq<Completion>,
    result: Result<Option<ListDirectoryData>, ListDirectoryError>,
    attempts: Seq<ListDirectoryAttempt>,
) -> bool {
    match result {
        Ok(Some(data)) => exists|at: int| #[trigger]
            is_first_served(completions, at) && completions[at].serves(data) && attempts
                == attempts_of(completions.take(at + 1)),
        Ok(None) => {
            &&& forall|i: int|
                0 <= i < completions.len() ==> !(#[trigger] completions[i]).is_served()
                    && !completions[i].is_not_found()
            &&& attempts == attempts_of(completions)
        },
        Err(error) => {
            &&& error.store_path_hash == store_path_hash
            &&& forall|i: int|
                0 <= i < completions.len() ==> !(#[trigger] completions[i]).is_served()
            &&& exists|i: int|
                0 <= i < completions.len() && (#[trigger] completions[i]).is_not_found()
            &&& attempts == attempts_of(completions)
        },
    }
}

impl DirectoryListing {
    /// Takes note of what came of a request in the end. Returns the listing if the response has
    /// it.
    pub fn complete(&mut self, completion: Completion) -> (data: Option<ListDirectoryData>)
        requires
            old(self)@.wf(),
        ensures
            final(self)@.wf(),
            final(self)@.store_path_hash == old(self)@.store_path_hash,
            final(self)@.not_found_count == old(self)@.not_found_count
                + if completion.is_not_found() {
                1int
            } else {
                0int
            },
            final(self)@.attempts == match completion.attempt() {
                Some(attempt) => old(self)@.attempts.push(attempt),
                None => old(self)@.attempts,
            },
            match data {
                Some(data) => completion.serves(data),
                None => !completion.is_served(),
            },
    {
        match completion {
            Completion::Lost => {
                self.advance(ListEvent::Lost);
                None
            },
            Completion::Unanswered { substituter_url, fault } => {
                self.advance(ListEvent::Unanswered { substituter_url, fault });
                None
            },
            Completion::Answered { substituter_url, status, content_type_header, body } => {
                let event = ListEvent::Answered { substituter_url, status, content_type_header };
                match self.advance(event) {
                    ListAction::ReadBody { substituter_url, content_type } => match body {
                        Some(content) => {
                            let event = ListEvent::Read { substituter_url, content, content_type };
                            match self.advance(event) {
                                ListAction::Return { result: Ok(data) } => data,
                                _ => None,
                            }
                        },
                        None => {
                            self.advance(ListEvent::Unreadable { substituter_url });
                            None
                        },
                    },
                    _ => None,
                }
            },
        }
    }
}

/// What came of a request goes by the status of the response. It has the listing with the status
/// 200 and a body that can be read. The directory was not found with the statuses 403 and 404. In
/// both cases the substituter fared well, and with any other response it did not.
pub proof fn law_the_status_of_a_completion_decides(
    completion: Completion,
    url: Url,
    status: u16,
    content_type_header: Option<Vec<u8>>,
    body: Option<String>,
)
    requires
        completion == (Completion::Answered {
            substituter_url: url,
            status,
            content_type_header,
            body,
        }),
    ensures
        completion.requested_url() == Some(url),
        completion.is_served() <==> status == 200 && body is Some,
        completion.is_not_found() <==> status == 403 || status == 404,
        completion.attempt() == Some(
            if (status == 200 && body is Some) || status == 403 || status == 404 {
                ListDirectoryAttempt::Successful { substituter_url: url }
            } else {
                ListDirectoryAttempt::ServiceError { substituter_url: url }
            },
        ),
        forall|data: ListDirectoryData| #[trigger]
            completion.serves(data) <==> status == 200 && body == Some(data.content)
                && match data.content_type {
                Some(text) => content_type_header matches Some(raw) && {
                    &&& text@.len() == raw@.len()
                    &&& forall|i: int|
                        0 <= i < raw@.len() ==> {
                            &&& (32 <= #[trigger] raw@[i] && raw@[i] <= 126) || raw@[i] == 9
                            &&& text@[i] == raw@[i] as char
                        }
                },
                None => content_type_header matches Some(raw) ==> exists|i: int|
                    0 <= i < raw@.len() && !(32 <= #[trigger] raw@[i] && raw@[i] <= 126)
                        && raw@[i] != 9,
            },
{
    if let Some(raw) = content_type_header {
        assert forall|data: ListDirectoryData| #[trigger]
            completion.serves(data) <==> status == 200 && body == Some(data.content)
                && match data.content_type {
                Some(text) => {
                    &&& text@.len() == raw@.len()
                    &&& forall|i: int|
                        0 <= i < raw@.len() ==> {
                            &&& (32 <= #[trigger] raw@[i] && raw@[i] <= 126) || raw@[i] == 9
                            &&& text@[i] == raw@[i] as char
                        }
                },
                None => exists|i: int|
                    0 <= i < raw@.len() && !(32 <= #[trigger] raw@[i] && raw@[i] <= 126)
                        && raw@[i] != 9,
            } by {
            header::law_text_is_read_byte_by_byte(raw@, data.content_type);
        }
    }
}

/// A request that was lost is not reported. A substituter that did not respond is offline if the
/// request timed out, could not connect or could not be sent, and of no service otherwise.
pub proof fn law_a_request_without_response_serves_nothing(completion: Completion)
    requires
        !(completion is Answered),
    ensures
        !completion.is_served(),
        !completion.is_not_found(),
        match completion {
            Completion::Unanswered { substituter_url, fault } => {
                &&& completion.requested_url() == Some(substituter_url)
                &&& completion.attempt() == Some(
                    if fault.timeout || fault.connect || fault.request {
                        ListDirectoryAttempt::Offline { substituter_url }
                    } else {
                        ListDirectoryAttempt::ServiceError { substituter_url }
                    },
                )
            },
            _ => completion.requested_url() is None && completion.attempt() is None,
        },
{
}

/// The listing is the first body that was read of a response with the status 200, with the
/// content type of that response if it has one that is text. Without one the listing fails,
/// naming the store path, if some response had the status 403 or 404, and else there is none.
/// Each request that was not lost is reported once, in order, up to the one that had the listing.
pub proof fn law_the_statuses_decide_the_result(
    store_path_hash: String,
    completions: Seq<Completion>,
    result: Result<Option<ListDirectoryData>, ListDirectoryError>,
    attempts: Seq<ListDirectoryAttempt>,
)
    requires
        comes_to(store_path_hash, completions, result, attempts),
    ensures
        ({
            let served = |i: int|
                0 <= i < completions.len() && (completions[i] matches Completion::Answered {
                    status,
                    body,
                    ..
                } && status == 200 && body is Some);
            let not_found = |i: int|
                0 <= i < completions.len() && (completions[i] matches Completion::Answered {
                    status,
                    ..
                } && (status == 403 || status == 404));
            let reported = |completion: Completion|
                match completion {
                    Completion::Lost => None::<ListDirectoryAttempt>,
                    Completion::Unanswered { substituter_url, fault } => Some(
                        if fault.timeout || fault.connect || fault.request {
                            ListDirectoryAttempt::Offline { substituter_url }
                        } else {
                            ListDirectoryAttempt::ServiceError { substituter_url }
                        },
                    ),
                    Completion::Answered { substituter_url, status, body, .. } => Some(
                        if (status == 200 && body is Some) || status == 403 || status == 404 {
                            ListDirectoryAttempt::Successful { substituter_url }
                        } else {
                            ListDirectoryAttempt::ServiceError { substituter_url }
                        },
                    ),
                };
            match result {
                Ok(Some(data)) => exists|at: int| #[trigger]
                    served(at) && (forall|i: int| #[trigger] served(i) ==> at <= i) && attempts
                        == completions.take(at + 1).filter_map(reported) && (completions[at]
                        matches Completion::Answered { body, content_type_header, .. } && body
                        == Some(data.content) && match data.content_type {
                        Some(text) => content_type_header matches Some(raw) && {
                            &&& text@.len() == raw@.len()
                            &&& forall|i: int|
                                0 <= i < raw@.len() ==> {
                                    &&& (32 <= #[trigger] raw@[i] && raw@[i] <= 126) || raw@[i]
                                        == 9
                                    &&& text@[i] == raw@[i] as char
                                }
                        },
                        None => content_type_header matches Some(raw) ==> exists|i: int|
                            0 <= i < raw@.len() && !(32 <= #[trigger] raw@[i] && raw@[i] <= 126)
                                && raw@[i] != 9,
                    }),
                Ok(None) => {
                    &&& forall|i: int| !(#[trigger] served(i))
                    &&& forall|i: int| !(#[trigger] not_found(i))
                    &&& attempts == completions.filter_map(reported)
                },
                Err(error) => {
                    &&& forall|i: int| !(#[trigger] served(i))
                    &&& exists|i: int| #[trigger] not_found(i)
                    &&& attempts == completions.filter_map(reported)
                    &&& error.store_path_hash == store_path_hash
                },
            }
        }),
{
    let served = |i: int|
        0 <= i < completions.len() && (completions[i] matches Completion::Answered {
            status,
            body,
            ..
        } && status == 200 && body is Some);
    let not_found = |i: int|
        0 <= i < completions.len() && (completions[i] matches Completion::Answered {
            status,
            ..
        } && (status == 403 || status == 404));
    let reported = |completion: Completion|
        match completion {
            Completion::Lost => None::<ListDirectoryAttempt>,
            Completion::Unanswered { substituter_url, fault } => Some(
                if fault.timeout || fault.connect || fault.request {
                    ListDirectoryAttempt::Offline { substituter_url }
                } else {
                    ListDirectoryAttempt::ServiceError { substituter_url }
                },
            ),
            Completion::Answered { substituter_url, status, body, .. } => Some(
                if (status == 200 && body is Some) || status == 403 || status == 404 {
                    ListDirectoryAttempt::Successful { substituter_url }
                } else {
                    ListDirectoryAttempt::ServiceError { substituter_url }
                },
            ),
        };
    assert((|completion: Completion| completion.attempt()) =~= reported);
    assert forall|i: int| #[trigger] served(i) implies completions[i].is_served() by {}
    match result {
        Ok(Some(data)) => {
            let at = choose|at: int| #[trigger]
                is_first_served(completions, at) && completions[at].serves(data) && attempts
                    == attempts_of(completions.take(at + 1));
            assert(served(at));
            if let Completion::Answered { content_type_header: Some(raw), .. } = completions[at] {
                header::law_text_is_read_byte_by_byte(raw@, data.content_type);
            }
        },
        Ok(None) => {},
        Err(_) => {
            let i = choose|i: int|
                0 <= i < completions.len() && (#[trigger] completions[i]).is_not_found();
            assert(not_found(i));
        },
    }
}

/// What came of requests that were over after the listing was served changes nothing.
pub proof fn law_later_completions_change_nothing(
    store_path_hash: String,
    completions: Seq<Completion>,
    later: Seq<Completion>,
    result: Result<Option<ListDirectoryData>, ListDirectoryError>,
    attempts: Seq<ListDirectoryAttempt>,
)
    requires
        comes_to(store_path_hash, completions, result, attempts),
        result matches Ok(data) && data is Some,
    ensures
        comes_to(store_path_hash, completions + later, result, attempts),
{
    let at = choose|at: int| #[trigger]
        is_first_served(completions, at) && completions[at].serves(result->Ok_0->0) && attempts
            == attempts_of(completions.take(at + 1));
    let all = completions + later;
    assert forall|i: int| 0 <= i < at implies !(#[trigger] all[i]).is_served() by {
        assert(all[i] == completions[i]);
    }
    assert(is_first_served(all, at));
    assert(all.take(at + 1) =~= completions.take(at + 1));
}

/// There is a listing if, and only if, some substituter served one.
pub proof fn law_a_served_listing_is_found(
    store_path_hash: String,
    completions: Seq<Completion>,
    result: Result<Option<ListDirectoryData>, ListDirectoryError>,
    attempts: Seq<ListDirectoryAttempt>,
)
    requires
        comes_to(store_path_hash, completions, result, attempts),
    ensures
        (result matches Ok(data) && data is Some) <==> exists|i: int|
            0 <= i < completions.len() && (#[trigger] completions[i]).is_served(),
{
    if let Ok(Some(data)) = result {
        let at = choose|at: int| #[trigger]
            is_first_served(completions, at) && completions[at].serves(data) && attempts
                == attempts_of(completions.take(at + 1));
        assert(completions[at].is_served());
    }
}

proof fn lemma_attempts_of(completions: Seq<Completion>)
    ensures
        conversation::substituters_of(attempts_of(completions)) == requested(completions),
    decreases completions.len(),
{
    if completions.len() == 0 {
        assert(conversation::substituters_of(attempts_of(completions)) =~= requested(completions));
    } else {
        let shorter = completions.drop_last();
        lemma_attempts_of(shorter);
        if let Some(attempt) = completions.last().attempt() {
            assert(attempts_of(completions) =~= attempts_of(shorter).push(attempt));
            assert(conversation::substituters_of(attempts_of(completions))
                =~= conversation::substituters_of(attempts_of(shorter)).push(
                attempt.substituter_url(),
            ));
        }
    }
}

proof fn lemma_requested_take(completions: Seq<Completion>, count: int)
    requires
        0 <= count <= completions.len(),
    ensures
        requested(completions.take(count)).to_multiset().subset_of(
            requested(completions).to_multiset(),
        ),
    decreases completions.len() - count,
{
    broadcast use vstd::seq_lib::group_to_multiset_ensures;

    if count == completions.len() {
        assert(completions.take(count) =~= completions);
    } else {
        lemma_requested_take(completions, count + 1);
        let next = completions.take(count + 1);
        assert(next.drop_last() =~= completions.take(count));
        if let Some(url) = next.last().requested_url() {
            assert(requested(next) =~= requested(completions.take(count)).push(url));
        }
    }
}

/// No more substituters are reported than were asked, and none more often than it was asked. If
/// it is known of each request what came of it, then some substituter is reported where any was
/// asked, and without a listing each is reported as often as it was asked.
pub proof fn law_attempts_account_for_the_substituters_asked(
    store_path_hash: String,
    completions: Seq<Completion>,
    result: Result<Option<ListDirectoryData>, ListDirectoryError>,
    attempts: Seq<ListDirectoryAttempt>,
    asked: Seq<Url>,
)
    requires
        comes_to(store_path_hash, completions, result, attempts),
        requested(completions).to_multiset().subset_of(asked.to_multiset()),
    ensures
        attempts.len() <= asked.len(),
        conversation::substituters_of(attempts).to_multiset().subset_of(asked.to_multiset()),
        asked.no_duplicates() ==> conversation::substituters_of(attempts).no_duplicates(),
        requested(completions).to_multiset() == asked.to_multiset() ==> {
            &&& asked.len() > 0 ==> attempts.len() > 0
            &&& !(result matches Ok(data) && data is Some) ==> {
                &&& attempts.len() == asked.len()
                &&& conversation::substituters_of(attempts).to_multiset() == asked.to_multiset()
            }
        },
{
    let taken = if let Ok(Some(data)) = result {
        let at = choose|at: int| #[trigger]
            is_first_served(completions, at) && completions[at].serves(data) && attempts
                == attempts_of(completions.take(at + 1));
        assert(completions.take(at + 1).last().attempt() is Some);
        assert(attempts.len() > 0);
        at + 1
    } else {
        completions.len() as int
    };
    assert(completions.take(completions.len() as int) =~= completions);
    lemma_attempts_of(completions.take(taken));
    lemma_requested_take(completions, taken);
    conversation::lemma_among(conversation::substituters_of(attempts), asked);
}

/// Lists the directory of a store path from what came of the requests, in the order in which
/// they were over.
pub fn list_completed(store_path_hash: String, completions: Vec<Completion>) -> (listed: (
    Result<Option<ListDirectoryData>, ListDirectoryError>,
    Vec<ListDirectoryAttempt>,
))
    ensures
        comes_to(store_path_hash, completions@, listed.0, listed.1@),
{
    let ghost all = completions@;
    let mut listing = DirectoryListing::new(store_path_hash);
    for completion in over: completions
        invariant
            over.seq() == all,
            completions@ == all,
            listing@.wf(),
            listing@.store_path_hash == store_path_hash,
            listing@.attempts == attempts_of(all.take(over.index())),
            forall|i: int| 0 <= i < over.index() ==> !(#[trigger] all[i]).is_served(),
            listing@.not_found_count > 0 <==> exists|i: int|
                0 <= i < over.index() && (#[trigger] all[i]).is_not_found(),
    {
        let ghost at = over.index();
        let found = listing.complete(completion);
        proof {
            all.lemma_filter_map_take_succ(|done: Completion| done.attempt(), at);
        }
        if let Some(data) = found {
            assert(is_first_served(all, at));
            assert(listing@.attempts =~= attempts_of(all.take(at + 1)));
            return (Ok(Some(data)), listing.into_attempts());
        }
    }
    assert(all.take(all.len() as int) =~= all);
    let result = match listing.advance(ListEvent::Exhausted) {
        ListAction::Return { result } => result,
        _ => Ok(None),
    };
    (result, listing.into_attempts())
}

} // verus!
