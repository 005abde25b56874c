use selector4nix::nar_info::completion::{list_completed, Completion};
use selector4nix::nar_info::directory::{ListDirectoryAttempt, ListDirectoryData, Url};
use selector4nix::nar_info::listing::{
    DirectoryListing, ListAction, ListDirectoryError, ListEvent, RequestFault,
};

fn url(value: &str) -> Url {
    Url {
        value: value.to_string(),
    }
}

fn answered(site: &str, status: u16, body: Option<&str>) -> Completion {
    Completion::Answered {
        substituter_url: url(site),
        status,
        content_type_header: Some(b"application/json".to_vec()),
        body: body.map(|body| body.to_string()),
    }
}

fn unanswered(site: &str, timeout: bool) -> Completion {
    Completion::Unanswered {
        substituter_url: url(site),
        fault: RequestFault {
            timeout,
            connect: false,
            request: false,
        },
    }
}

fn successful(site: &str) -> ListDirectoryAttempt {
    ListDirectoryAttempt::Successful {
        substituter_url: url(site),
    }
}

fn offline(site: &str) -> ListDirectoryAttempt {
    ListDirectoryAttempt::Offline {
        substituter_url: url(site),
    }
}

fn service_error(site: &str) -> ListDirectoryAttempt {
    ListDirectoryAttempt::ServiceError {
        substituter_url: url(site),
    }
}

fn list(
    completions: Vec<Completion>,
) -> (
    Result<Option<ListDirectoryData>, ListDirectoryError>,
    Vec<ListDirectoryAttempt>,
) {
    list_completed("abc123".to_string(), completions)
}

fn data(content: &str, content_type: Option<&str>) -> ListDirectoryData {
    ListDirectoryData {
        content: content.to_string(),
        content_type: content_type.map(|text| text.to_string()),
    }
}

#[test]
fn the_first_listing_served_wins_over_all_that_comes_later() {
    let before = || {
        vec![
            answered("a", 404, None),
            unanswered("b", true),
            answered("c", 200, None),
            answered("d", 200, Some("first")),
        ]
    };
    let mut more = before();
    more.push(answered("e", 200, Some("second")));
    more.push(answered("f", 500, None));
    more.push(Completion::Lost);

    let expected = (
        Ok(Some(data("first", Some("application/json")))),
        vec![
            successful("a"),
            offline("b"),
            service_error("c"),
            successful("d"),
        ],
    );
    assert_eq!(list(before()), expected);
    assert_eq!(list(more), expected);
}

#[test]
fn a_content_type_that_is_not_text_is_dropped_from_the_listing() {
    let completion = Completion::Answered {
        substituter_url: url("a"),
        status: 200,
        content_type_header: Some(vec![0xff, b'x']),
        body: Some("{}".to_string()),
    };
    assert_eq!(
        list(vec![completion]),
        (Ok(Some(data("{}", None))), vec![successful("a")])
    );
}

#[test]
fn without_a_listing_a_directory_not_found_is_an_error() {
    for status in [403, 404] {
        let (result, attempts) = list(vec![
            unanswered("a", false),
            answered("b", status, Some("not read")),
            answered("c", 503, None),
        ]);
        let error = result.unwrap_err();
        assert_eq!(
            error.message(),
            "could not list directory of store path hash abc123"
        );
        assert_eq!(
            attempts,
            vec![service_error("a"), successful("b"), service_error("c")]
        );
    }
}

#[test]
fn without_a_listing_every_substituter_is_accounted_for() {
    assert_eq!(list(Vec::new()), (Ok(None), Vec::new()));
    assert_eq!(
        list(vec![
            answered("a", 500, None),
            unanswered("b", true),
            answered("c", 200, None),
        ]),
        (
            Ok(None),
            vec![service_error("a"), offline("b"), service_error("c")]
        )
    );
}

#[test]
fn a_lost_request_is_not_reported() {
    assert_eq!(
        list(vec![Completion::Lost, answered("a", 404, None)]),
        (
            Err(ListDirectoryError {
                store_path_hash: "abc123".to_string()
            }),
            vec![successful("a")]
        )
    );
}

#[test]
fn a_listing_told_step_by_step_comes_to_the_same() {
    let mut listing = DirectoryListing::new("abc123".to_string());
    assert!(listing.complete(answered("a", 404, None)).is_none());
    assert_eq!(
        listing.complete(answered("b", 200, Some("{}"))),
        Some(data("{}", Some("application/json")))
    );
    assert_eq!(
        listing.into_attempts(),
        vec![successful("a"), successful("b")]
    );

    let mut listing = DirectoryListing::new("abc123".to_string());
    assert!(listing.complete(unanswered("a", true)).is_none());
    match listing.advance(ListEvent::Exhausted) {
        ListAction::Return { result } => assert_eq!(result, Ok(None)),
        _ => panic!("the listing is over"),
    }
}
