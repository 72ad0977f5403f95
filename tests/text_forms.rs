use bound::{get_all_codeowners, next_page_url};

#[test]
fn next_page_link_is_found() {
    let link = "<https://api.github.com/orgs/o/teams?page=2>; rel=\"next\", <https://api.github.com/orgs/o/teams?page=5>; rel=\"last\"";
    assert_eq!(next_page_url(link), Some("https://api.github.com/orgs/o/teams?page=2".to_string()));
}

#[test]
fn next_page_link_after_other_parts() {
    let link = "<https://x/1>; rel=\"prev\",  <https://x/3> ; rel=\"next\"";
    assert_eq!(next_page_url(link), Some("https://x/3".to_string()));
}

#[test]
fn no_next_page_link() {
    assert_eq!(next_page_url("<https://x/1>; rel=\"prev\""), None);
    assert_eq!(next_page_url(""), None);
}

#[test]
fn owners_named_in_an_ownership_file() {
    let text = "# comment @nobody\n*.rs @org/rust @alice\n\n/docs/ @org/docs @org/rust\n   \nlonely\n";
    let mut owners = get_all_codeowners(text);
    owners.sort();
    assert_eq!(owners, vec!["@alice", "@org/docs", "@org/rust"]);
}

#[test]
fn owners_of_empty_text() {
    assert!(get_all_codeowners("").is_empty());
}
