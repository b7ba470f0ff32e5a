use instant_file_search::content_terms::extract_content_terms;

fn extract(q: &str) -> (String, Vec<String>) {
    extract_content_terms(q)
}

fn rest_words(rest: &str) -> Vec<&str> {
    rest.split_whitespace().collect()
}

#[test]
fn protocol_plain_query_passthrough() {
    let (rest, needles) = extract("foo bar");
    assert_eq!(rest_words(&rest), vec!["foo", "bar"]);
    assert!(needles.is_empty());
}

#[test]
fn protocol_bare_content_token() {
    let (rest, needles) = extract("foo content:needle bar");
    assert_eq!(rest_words(&rest), vec!["foo", "bar"]);
    assert_eq!(needles, vec!["needle"]);
}

#[test]
fn protocol_quoted_content_token() {
    let (rest, needles) = extract(r#"content:"fn main""#);
    assert_eq!(rest, "");
    assert_eq!(needles, vec!["fn main"]);
}

#[test]
fn protocol_quoted_content_mixed_with_query() {
    let (rest, needles) = extract(r#"src content:"pub struct Foo" baz"#);
    assert_eq!(rest_words(&rest), vec!["src", "baz"]);
    assert_eq!(needles, vec!["pub struct Foo"]);
}

#[test]
fn protocol_fully_quoted_content_token() {
    let (rest, needles) = extract(r#""content:fn main""#);
    assert_eq!(rest, "");
    assert_eq!(needles, vec!["fn main"]);
}

#[test]
fn protocol_multiple_content_tokens() {
    let (rest, needles) = extract(r#"content:"a b" content:c"#);
    assert_eq!(rest, "");
    assert_eq!(needles, vec!["a b", "c"]);
}

#[test]
fn protocol_unquoted_content_with_following_words() {
    let (rest, needles) = extract("content:needle rest here");
    assert_eq!(rest_words(&rest), vec!["rest", "here"]);
    assert_eq!(needles, vec!["needle"]);
}
