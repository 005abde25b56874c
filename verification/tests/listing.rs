use selector4nix::nar_info::listing::{
    DirectoryListing, ListAction, ListDirectoryError, ListEvent, RequestFault,
};
use selector4nix::nar_info::directory::{ListDirectoryAttempt, ListDirectoryData, Url};

fn url(value: &str) -> Url {
    Url {
        value: value.to_string(),
    }
}

fn listing() -> DirectoryListing {
    DirectoryListing::new("abc123".to_string())
}

fn fault(timeout: bool, connect: bool, request: bool) -> RequestFault {
    RequestFault {
        timeout,
        connect,
        request,
    }
}

fn answered(site: &str, status: u16, content_type: Option<&[u8]>) -> ListEvent {
    ListEvent::Answered {
        substituter_url: url(site),
        status,
        content_type_header: content_type.map(|raw| raw.to_vec()),
    }
}

fn successful(site: &str) -> ListDirectoryAttempt {
    ListDirectoryAttempt::Successful {
        substituter_url: url(site),
    }
}

fn offline(site: &str) -> ListDirectoryAttempt {
    ListDirectoryAttempt::Offline {
        substituter_url: url(site),
    }
}

fn service_error(site: &str) -> ListDirectoryAttempt {
    ListDirectoryAttempt::ServiceError {
        substituter_url: url(site),
    }
}

#[test]
fn the_first_body_read_is_the_listing() {
    let mut listing = listing();
    assert!(matches!(
        listing.advance(answered("a", 404, None)),
        ListAction::Join
    ));
    let action = listing.advance(answered("b", 200, Some(b"application/json")));
    let (substituter_url, content_type) = match action {
        ListAction::ReadBody {
            substituter_url,
            content_type,
        } => (substituter_url, content_type),
        _ => panic!("the body is to be read"),
    };
    assert_eq!(substituter_url, url("b"));
    assert_eq!(content_type, Some("application/json".to_string()));
    let action = listing.advance(ListEvent::Read {
        substituter_url,
        content: "{}".to_string(),
        content_type,
    });
    match action {
        ListAction::Return { result } => assert_eq!(
            result,
            Ok(Some(ListDirectoryData {
                content: "{}".to_string(),
                content_type: Some("application/json".to_string()),
            }))
        ),
        _ => panic!("the listing is over"),
    }
    assert_eq!(
        listing.into_attempts(),
        vec![successful("a"), successful("b")]
    );
}

fn content_type_text(raw: Option<&[u8]>) -> Option<String> {
    match listing().advance(answered("a", 200, raw)) {
        ListAction::ReadBody { content_type, .. } => content_type,
        _ => panic!("the body is to be read"),
    }
}

#[test]
fn a_content_type_that_is_not_text_is_left_out() {
    assert_eq!(content_type_text(None), None);
    assert_eq!(content_type_text(Some(b"")), Some("".to_string()));
    assert_eq!(
        content_type_text(Some(b"text/plain;\tq=~ 1")),
        Some("text/plain;\tq=~ 1".to_string())
    );
    assert_eq!(content_type_text(Some(b"text/\xe9")), None);
    assert_eq!(content_type_text(Some(b"text\n")), None);
    assert_eq!(content_type_text(Some(&[127])), None);
    assert_eq!(content_type_text(Some(&[31])), None);
}

#[test]
fn each_outcome_is_recorded_in_its_turn() {
    let mut listing = listing();
    let events = vec![
        ListEvent::Unanswered {
            substituter_url: url("timeout"),
            fault: fault(true, false, false),
        },
        ListEvent::Unanswered {
            substituter_url: url("connect"),
            fault: fault(false, true, false),
        },
        ListEvent::Lost,
        ListEvent::Unanswered {
            substituter_url: url("request"),
            fault: fault(false, false, true),
        },
        ListEvent::Unanswered {
            substituter_url: url("other"),
            fault: fault(false, false, false),
        },
        answered("error", 500, None),
        ListEvent::Unreadable {
            substituter_url: url("cut"),
        },
        answered("redirect", 301, None),
    ];
    for event in events {
        assert!(matches!(listing.advance(event), ListAction::Join));
    }
    match listing.advance(ListEvent::Exhausted) {
        ListAction::Return { result } => assert_eq!(result, Ok(None)),
        _ => panic!("the listing is over"),
    }
    assert_eq!(
        listing.into_attempts(),
        vec![
            offline("timeout"),
            offline("connect"),
            offline("request"),
            service_error("other"),
            service_error("error"),
            service_error("cut"),
            service_error("redirect"),
        ]
    );
}

#[test]
fn an_exhausted_listing_fails_after_a_directory_was_not_found() {
    for status in [403, 404] {
        let mut listing = listing();
        assert!(matches!(
            listing.advance(answered("a", status, None)),
            ListAction::Join
        ));
        let error = match listing.advance(ListEvent::Exhausted) {
            ListAction::Return { result } => result.unwrap_err(),
            _ => panic!("the listing is over"),
        };
        assert_eq!(
            error,
            ListDirectoryError {
                store_path_hash: "abc123".to_string()
            }
        );
        assert_eq!(
            error.message(),
            "could not list directory of store path hash abc123"
        );
        assert_eq!(listing.into_attempts(), vec![successful("a")]);
    }
}
