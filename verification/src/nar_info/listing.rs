//! Which of the answers of several substituters becomes the listing of a directory.
use vstd::prelude::*;

use crate::nar_info::header;
use crate::nar_info::header::header_text;
use crate::nar_info::directory::{ListDirectoryAttempt, ListDirectoryData, Url};

verus! {

/// What is known about a request that got no response.
#[derive(Debug, Clone, Copy)]
pub struct RequestFault {
    /// It timed out.
    pub timeout: bool,
    /// No connection could be opened.
    pub connect: bool,
    /// It could not be sent.
    pub request: bool,
}

/// What came of the request to a substituter.
#[derive(Debug)]
pub enum ListEvent {
    /// The request was lost, without a trace of which one it was.
    Lost,
    /// There was no response.
    Unanswered { substituter_url: Url, fault: RequestFault },
    /// A response has begun, with a status code and, where it has one, a content type.
    Answered { substituter_url: Url, status: u16, content_type_header: Option<Vec<u8>> },
    /// The body of a response has been read.
    Read { substituter_url: Url, content: String, content_type: Option<String> },
    /// The body of a response could not be read.
    Unreadable { substituter_url: Url },
    /// No request is left.
    Exhausted,
}

/// What is to be done next.
#[derive(Debug)]
pub enum ListAction {
    /// Wait for what comes of another request.
    Join,
    /// Read the body of the response of this substituter.
    ReadBody { substituter_url: Url, content_type: Option<String> },
    /// The listing is over, with this result.
    Return { result: Result<Option<ListDirectoryData>, ListDirectoryError> },
}

/// The directory of a store path could not be listed.
#[derive(Debug, Clone, PartialEq, Eq, Hash)]
pub struct ListDirectoryError {
    pub store_path_hash: String,
}

impl ListDirectoryError {
    /// The error in words.
    pub fn message(&self) -> (message: String)
        ensures
            message@ == "could not list directory of store path hash "@ + self.store_path_hash@,
    {
        "could not list directory of store path hash ".to_owned().concat(
            self.store_path_hash.as_str(),
        )
    }
}

/// What has come of the requests so far.
pub struct DirectoryListing {
    store_path_hash: String,
    not_found_count: usize,
    attempts: Vec<ListDirectoryAttempt>,
}

/// What a [`DirectoryListing`] is.
#[verifier::ext_equal]
pub struct ListingView {
    pub store_path_hash: String,
    /// The number of substituters that said that they do not have the directory.
    pub not_found_count: nat,
    /// How the substituters fared, in the order in which that was learnt.
    pub attempts: Seq<ListDirectoryAttempt>,
}

/// The status of a response with the listing in its body.
pub const STATUS_OK: u16 = 200;

/// The status of a response that denies access.
pub const STATUS_FORBIDDEN: u16 = 403;

/// The status of a response that says that there is nothing.
pub const STATUS_NOT_FOUND: u16 = 404;

impl ListEvent {
    /// Whether a substituter says that it does not have the directory, or does not show it.
    pub open spec fn is_not_found(self) -> bool {
        self matches ListEvent::Answered { status, .. } && (status == STATUS_NOT_FOUND || status
            == STATUS_FORBIDDEN)
    }

    /// How a substituter fared, where the event settles that.
    pub open spec fn attempt(self) -> Option<ListDirectoryAttempt> {
        match self {
            ListEvent::Lost => None,
            ListEvent::Unanswered { substituter_url, fault } => {
                if fault.timeout || fault.connect || fault.request {
                    Some(ListDirectoryAttempt::Offline { substituter_url })
                } else {
                    Some(ListDirectoryAttempt::ServiceError { substituter_url })
                }
            },
            ListEvent::Answered { substituter_url, status, .. } => {
                if status == STATUS_OK {
                    None
                } else if self.is_not_found() {
                    Some(ListDirectoryAttempt::Successful { substituter_url })
                } else {
                    Some(ListDirectoryAttempt::ServiceError { substituter_url })
                }
            },
            ListEvent::Read { substituter_url, .. } => Some(
                ListDirectoryAttempt::Successful { substituter_url },
            ),
            ListEvent::Unreadable { substituter_url } => Some(
                ListDirectoryAttempt::ServiceError { substituter_url },
            ),
            ListEvent::Exhausted => None,
        }
    }
}

impl ListingView {
    /// The listing once `event` has been taken note of.
    pub open spec fn noted(self, event: ListEvent) -> Self {
        ListingView {
            not_found_count: self.not_found_count + if event.is_not_found() {
                1nat
            } else {
                0nat
            },
            attempts: match event.attempt() {
                Some(attempt) => self.attempts.push(attempt),
                None => self.attempts,
            },
            ..self
        }
    }

    /// Whether `action` is what is to be done after `event`: the body of a response that has
    /// the listing is read, the first body that could be read is the result, and when no
    /// request is left the listing fails if any substituter said that it has no such directory.
    pub open spec fn answers(self, event: ListEvent, action: ListAction) -> bool {
        match event {
            ListEvent::Answered { substituter_url, status, content_type_header } if status
                == STATUS_OK => {
                &&& action matches ListAction::ReadBody { substituter_url: url, content_type: text }
                &&& url == substituter_url
                &&& match content_type_header {
                    Some(raw) => header::reads_as(raw@, text),
                    None => text is None,
                }
            },
            ListEvent::Read { content, content_type, .. } => {
                action == (ListAction::Return {
                    result: Ok(Some(ListDirectoryData { content, content_type })),
                })
            },
            ListEvent::Exhausted => {
                if self.not_found_count == 0 {
                    action == (ListAction::Return { result: Ok(None) })
                } else {
                    action == (ListAction::Return {
                        result: Err(ListDirectoryError { store_path_hash: self.store_path_hash }),
                    })
                }
            },
            _ => action is Join,
        }
    }

    /// What holds of every listing.
    pub open spec fn wf(self) -> bool {
        self.not_found_count <= self.attempts.len()
    }
}

/// The listing of the store path with the hash `store_path_hash` once `events` have been taken
/// note of.
pub open spec fn listing_after(store_path_hash: String, events: Seq<ListEvent>) -> ListingView
    decreases events.len(),
{
    if events.len() == 0 {
        ListingView { store_path_hash, not_found_count: 0, attempts: Seq::empty() }
    } else {
        listing_after(store_path_hash, events.drop_last()).noted(events.last())
    }
}

/// What becomes of a listing, and what is to be done next, goes by the status of a response.
///
/// With the status 200 the body is read, and nothing is reported yet. With the statuses 403 and
/// 404 the substituter is reported as successful and counted as one that does not have the
/// directory. With any other status, whatever it is, the substituter is reported with a service
/// error, and is not counted.
pub proof fn law_the_status_decides(
    listing: ListingView,
    url: Url,
    status: u16,
    content_type_header: Option<Vec<u8>>,
    event: ListEvent,
    action: ListAction,
)
    requires
        event == (ListEvent::Answered { substituter_url: url, status, content_type_header }),
        listing.answers(event, action),
    ensures
        listing.noted(event).store_path_hash == listing.store_path_hash,
        listing.noted(event).not_found_count == listing.not_found_count + if status == 403
            || status == 404 {
            1int
        } else {
            0int
        },
        status == 200 ==> listing.noted(event).attempts == listing.attempts,
        status == 403 || status == 404 ==> listing.noted(event).attempts == listing.attempts.push(
            ListDirectoryAttempt::Successful { substituter_url: url },
        ),
        status != 200 && status != 403 && status != 404 ==> listing.noted(event).attempts
            == listing.attempts.push(
            ListDirectoryAttempt::ServiceError { substituter_url: url },
        ),
        status != 200 ==> action is Join,
        status == 200 ==> (action matches ListAction::ReadBody {
            substituter_url,
            content_type,
        } && substituter_url == url && match content_type {
            Some(text) => content_type_header matches Some(raw) && {
                &&& text@.len() == raw@.len()
                &&& forall|i: int|
                    0 <= i < raw@.len() ==> {
                        &&& (32 <= #[trigger] raw@[i] && raw@[i] <= 126) || raw@[i] == 9
                        &&& text@[i] == raw@[i] as char
                    }
            },
            None => content_type_header matches Some(raw) ==> exists|i: int|
                0 <= i < raw@.len() && !(32 <= #[trigger] raw@[i] && raw@[i] <= 126) && raw@[i]
                    != 9,
        }),
{
}

/// What becomes of a listing, and what is to be done next, when anything else than a response is
/// taken note of.
///
/// A substituter that did not respond is reported as offline if the request timed out, could not
/// connect or could not be sent, and with a service error otherwise. A body that was read is the
/// listing, and its substituter is reported as successful; for one that could not be read it is
/// reported with a service error. A lost request is not reported. When no request is left the
/// listing fails if a substituter was counted as one that does not have the directory, and else
/// there is none.
pub proof fn law_other_events_are_noted(listing: ListingView, event: ListEvent, action: ListAction)
    requires
        !(event is Answered),
        listing.answers(event, action),
    ensures
        listing.noted(event).store_path_hash == listing.store_path_hash,
        listing.noted(event).not_found_count == listing.not_found_count,
        match event {
            ListEvent::Lost => listing.noted(event).attempts == listing.attempts && action is Join,
            ListEvent::Unanswered { substituter_url, fault } => {
                &&& action is Join
                &&& fault.timeout || fault.connect || fault.request ==> listing.noted(
                    event,
                ).attempts == listing.attempts.push(
                    ListDirectoryAttempt::Offline { substituter_url },
                )
                &&& !fault.timeout && !fault.connect && !fault.request ==> listing.noted(
                    event,
                ).attempts == listing.attempts.push(
                    ListDirectoryAttempt::ServiceError { substituter_url },
                )
            },
            ListEvent::Answered { .. } => true,
            ListEvent::Read { substituter_url, content, content_type } => {
                &&& action == (ListAction::Return {
                    result: Ok(Some(ListDirectoryData { content, content_type })),
                })
                &&& listing.noted(event).attempts == listing.attempts.push(
                    ListDirectoryAttempt::Successful { substituter_url },
                )
            },
            ListEvent::Unreadable { substituter_url } => {
                &&& action is Join
                &&& listing.noted(event).attempts == listing.attempts.push(
                    ListDirectoryAttempt::ServiceError { substituter_url },
                )
            },
            ListEvent::Exhausted => {
                &&& listing.noted(event).attempts == listing.attempts
                &&& listing.not_found_count == 0 ==> action == (ListAction::Return {
                    result: Ok(None),
                })
                &&& listing.not_found_count > 0 ==> action == (ListAction::Return {
                    result: Err(
                        ListDirectoryError { store_path_hash: listing.store_path_hash },
                    ),
                })
            },
        },
{
}

/// Every request whose outcome is known to be one or the other is reported, once, under the
/// substituter it went to, in the order in which the outcomes came.
pub proof fn law_attempts_follow_the_events(store_path_hash: String, events: Seq<ListEvent>)
    ensures
        listing_after(store_path_hash, events).attempts == events.filter_map(
            |event: ListEvent| event.attempt(),
        ),
        listing_after(store_path_hash, events).not_found_count == events.filter(
            |event: ListEvent| event.is_not_found(),
        ).len(),
        listing_after(store_path_hash, events).store_path_hash == store_path_hash,
        listing_after(store_path_hash, events).wf(),
    decreases events.len(),
{
    reveal(Seq::filter);
    if events.len() > 0 {
        law_attempts_follow_the_events(store_path_hash, events.drop_last());
    }
}

/// When no request is left, the listing fails if some substituter said that it does not have
/// the directory, and else there is no listing.
pub proof fn law_exhausted_listing_fails_if_a_directory_was_not_found(
    store_path_hash: String,
    events: Seq<ListEvent>,
    action: ListAction,
)
    requires
        listing_after(store_path_hash, events).answers(ListEvent::Exhausted, action),
    ensures
        (exists|i: int| 0 <= i < events.len() && (#[trigger] events[i]).is_not_found())
            ==> action == (ListAction::Return {
            result: Err(ListDirectoryError { store_path_hash }),
        }),
        (forall|i: int| 0 <= i < events.len() ==> !(#[trigger] events[i]).is_not_found())
            ==> action == (ListAction::Return { result: Ok(None) }),
{
    law_attempts_follow_the_events(store_path_hash, events);
    let not_found = |event: ListEvent| event.is_not_found();
    if exists|i: int| 0 <= i < events.len() && (#[trigger] events[i]).is_not_found() {
        let i = choose|i: int| 0 <= i < events.len() && (#[trigger] events[i]).is_not_found();
        events.lemma_filter_contains(not_found, i);
        assert(events.filter(not_found).len() > 0);
    }
    if forall|i: int| 0 <= i < events.len() ==> !(#[trigger] events[i]).is_not_found() {
        events.lemma_all_neg_filter_empty(not_found);
    }
}

impl View for DirectoryListing {
    type V = ListingView;

    closed spec fn view(&self) -> ListingView {
        ListingView {
            store_path_hash: self.store_path_hash,
            not_found_count: self.not_found_count as nat,
            attempts: self.attempts@,
        }
    }
}

impl DirectoryListing {
    /// Begins the listing of the directory of a store path.
    pub fn new(store_path_hash: String) -> (listing: Self)
        ensures
            listing@ == (ListingView {
                store_path_hash,
                not_found_count: 0,
                attempts: Seq::empty(),
            }),
            listing@.wf(),
    {
        DirectoryListing { store_path_hash, not_found_count: 0, attempts: Vec::new() }
    }

    /// Takes note of what came of a request, and says what is to be done next.
    pub fn advance(&mut self, event: ListEvent) -> (action: ListAction)
        requires
            old(self)@.wf(),
        ensures
            final(self)@.wf(),
            final(self)@ == old(self)@.noted(event),
            old(self)@.answers(event, action),
    {
        match event {
            ListEvent::Lost => ListAction::Join,
            ListEvent::Unanswered { substituter_url, fault } => {
                if fault.timeout || fault.connect || fault.request {
                    self.attempts.push(ListDirectoryAttempt::Offline { substituter_url });
                } else {
                    self.attempts.push(ListDirectoryAttempt::ServiceError { substituter_url });
                }
                ListAction::Join
            },
            ListEvent::Answered { substituter_url, status, content_type_header } => {
                if status == STATUS_OK {
                    let content_type: Option<String> = match content_type_header {
                        Some(raw) => header_text(raw.as_slice()),
                        None => None,
                    };
                    ListAction::ReadBody { substituter_url, content_type }
                } else if status == STATUS_NOT_FOUND || status == STATUS_FORBIDDEN {
                    self.attempts.push(ListDirectoryAttempt::Successful { substituter_url });
                    assert(self.attempts.len() <= usize::MAX);
                    self.not_found_count = self.not_found_count + 1;
                    ListAction::Join
                } else {
                    self.attempts.push(ListDirectoryAttempt::ServiceError { substituter_url });
                    ListAction::Join
                }
            },
            ListEvent::Read { substituter_url, content, content_type } => {
                self.attempts.push(ListDirectoryAttempt::Successful { substituter_url });
                let data = ListDirectoryData { content, content_type };
                ListAction::Return { result: Ok(Some(data)) }
            },
            ListEvent::Unreadable { substituter_url } => {
                self.attempts.push(ListDirectoryAttempt::ServiceError { substituter_url });
                ListAction::Join
            },
            ListEvent::Exhausted => {
                if self.not_found_count == 0 {
                    ListAction::Return { result: Ok(None) }
                } else {
                    let error = ListDirectoryError {
                        store_path_hash: self.store_path_hash.clone(),
                    };
                    ListAction::Return { result: Err(error) }
                }
            },
        }
    }

    /// How the substituters fared, in the order in which that was learnt.
    pub fn into_attempts(self) -> (attempts: Vec<ListDirectoryAttempt>)
        ensures
            attempts@ == self@.attempts,
    {
        self.attempts
    }
}

} // verus!
