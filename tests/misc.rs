use nesbox_hub::auth::extract_token_from_str;
use nesbox_hub::github::{GithubIssue, GithubPayload, GithubRepo, GithubUser};

#[test]
fn bearer_token_is_extracted_and_trimmed() {
    assert_eq!(extract_token_from_str("Bearer abc.def"), "abc.def");
    assert_eq!(extract_token_from_str("bearer   tok  "), "tok");
    assert_eq!(extract_token_from_str("BEARERxyz"), "xyz");
    assert_eq!(extract_token_from_str("Bearer"), "");
    assert_eq!(extract_token_from_str("Bearer \u{3000}t\u{a0}"), "t");
    assert_eq!(extract_token_from_str("Basic abc"), "");
    assert_eq!(extract_token_from_str("Bear"), "");
    assert_eq!(extract_token_from_str(""), "");
}

fn payload(sender: &str, owner: &str) -> GithubPayload {
    GithubPayload {
        action: "opened".to_string(),
        issue: GithubIssue {
            title: "name".to_string(),
            body: String::new(),
            state: "open".to_string(),
            labels: Vec::new(),
        },
        repository: GithubRepo { owner: GithubUser { login: owner.to_string() } },
        sender: GithubUser { login: sender.to_string() },
    }
}

#[test]
fn owner_is_recognised() {
    assert!(payload("mantou132", "mantou132").is_owner());
    assert!(!payload("someone", "mantou132").is_owner());
}
