use selector4nix::nar_info::directory::Url;
use selector4nix::nar_info::request::{plan_requests, ListingSites};

struct Sites;

impl ListingSites for Sites {
    type Substituter = &'static str;
    type StorePathHash = String;
    type Credential = String;

    fn substituter_url(&self, substituter: &&'static str) -> Url {
        Url {
            value: format!("https://{substituter}/"),
        }
    }

    fn listing_url(&self, store_path_hash: &String, substituter: &&'static str) -> Url {
        Url {
            value: format!("https://{substituter}/{store_path_hash}.ls"),
        }
    }

    fn credential(&self, url: &Url) -> Option<String> {
        if url.value == "https://b/abc123.ls" {
            Some("login of b".to_string())
        } else {
            None
        }
    }
}

#[test]
fn one_request_is_planned_for_each_substituter() {
    let plan = plan_requests(&Sites, &["a", "b", "a"], &"abc123".to_string());
    let planned: Vec<(&str, &str, Option<&str>)> = plan
        .iter()
        .map(|request| {
            (
                request.substituter_url.value.as_str(),
                request.url.value.as_str(),
                request.credential.as_deref(),
            )
        })
        .collect();
    assert_eq!(
        planned,
        vec![
            ("https://a/", "https://a/abc123.ls", None),
            ("https://b/", "https://b/abc123.ls", Some("login of b")),
            ("https://a/", "https://a/abc123.ls", None),
        ]
    );
}

#[test]
fn without_substituters_no_request_is_planned() {
    assert!(plan_requests(&Sites, &[], &"abc123".to_string()).is_empty());
}
