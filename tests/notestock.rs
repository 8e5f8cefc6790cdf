use markov_notestock::notestock::{filter, html_to_text, posts_to_texts, Post};

fn post(s: &str) -> Post {
    Post { content: s.to_string() }
}

#[test]
fn filter_drops_spam_markers() {
    assert!(!filter("<p>#クイズMondo 問題</p>"));
    assert!(!filter("<p>play https://puzzlega.me/ now</p>"));
    assert!(filter("<p>hello</p>"));
    assert!(filter(""));
}

#[test]
fn html_to_text_strips_markup() {
    assert_eq!(html_to_text("<p>hello</p>"), vec!["hello".to_string()]);
}

#[test]
fn html_to_text_drops_links_and_code() {
    let out = html_to_text("<p>see <a href=\"x\">link</a>this <code>x</code>now</p>");
    assert_eq!(out, vec!["see this now".to_string()]);
}

#[test]
fn html_to_text_collapses_spaces() {
    let out = html_to_text("<p>a   b　　c</p>");
    assert_eq!(out, vec!["a b c".to_string()]);
}

#[test]
fn html_to_text_drops_reply_lines() {
    let out = html_to_text("<p>RE: old<br>new</p>");
    assert_eq!(out, vec!["new".to_string()]);
}

#[test]
fn posts_to_texts_keeps_order_and_filters() {
    let posts = vec![
        post("<p>first</p>"),
        post("<p>#クイズMondo</p>"),
        post("<p>second</p>"),
    ];
    assert_eq!(
        posts_to_texts(&posts),
        vec!["first".to_string(), "second".to_string()]
    );
    assert_eq!(posts_to_texts(&[]), Vec::<String>::new());
}

#[test]
fn html_to_text_trims_outer_spaces() {
    let out = html_to_text("   hello   ");
    assert_eq!(out, vec!["hello".to_string()]);
}
