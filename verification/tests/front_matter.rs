use sitegen::front_matter::{is_delimiter_line, split_key_value};
use sitegen::parse_front_matter;

fn chars(s: &str) -> Vec<char> {
    s.chars().collect()
}

fn text(c: &[char]) -> String {
    c.iter().collect()
}

#[test]
fn document_without_delimiter_is_all_body() {
    let (metadata, body) = parse_front_matter("# Title\n\nsome text\n");
    assert!(metadata.is_empty());
    assert_eq!(metadata.len(), 0);
    assert_eq!(body, "# Title\n\nsome text\n");
}

#[test]
fn body_lines_are_newline_terminated() {
    let (metadata, body) = parse_front_matter("first\nsecond");
    assert!(metadata.is_empty());
    assert_eq!(body, "first\nsecond\n");
}

#[test]
fn empty_document_gives_nothing() {
    let (metadata, body) = parse_front_matter("");
    assert!(metadata.is_empty());
    assert_eq!(body, "");
}

#[test]
fn carriage_returns_before_line_feeds_are_dropped() {
    let (metadata, body) = parse_front_matter("---\r\ntitle: Hello\r\n---\r\nline one\r\nline two\r\n");
    assert_eq!(metadata.get("title").map(|v| v.as_str()), Some("Hello"));
    assert_eq!(body, "line one\nline two\n");
}

#[test]
fn bare_carriage_return_at_the_end_stays() {
    let (_, body) = parse_front_matter("a\r\nb\r");
    assert_eq!(body, "a\nb\r\n");
}

#[test]
fn matched_delimiters_give_trimmed_pairs() {
    let document = "---\ntitle: Hello\n  author :  Jane Doe  \n---\n# Welcome\ntext\n";
    let (metadata, body) = parse_front_matter(document);
    assert_eq!(metadata.len(), 2);
    assert_eq!(metadata.get("title").map(|v| v.as_str()), Some("Hello"));
    assert_eq!(metadata.get("author").map(|v| v.as_str()), Some("Jane Doe"));
    assert_eq!(metadata.get("missing"), None);
    assert_eq!(body, "# Welcome\ntext\n");
}

#[test]
fn entries_keep_the_order_of_the_document() {
    let (metadata, _) = parse_front_matter("---\nb: 2\na: 1\nc: 3\n---\n");
    let keys: Vec<String> = (0..metadata.len())
        .map(|i| metadata.entry(i).unwrap().0.clone())
        .collect();
    assert_eq!(keys, vec!["b".to_string(), "a".to_string(), "c".to_string()]);
    assert!(metadata.entry(3).is_none());
}

#[test]
fn body_excludes_the_block_and_both_delimiters() {
    let document = "intro\n---\nkey: value\nnot a pair\n---\nrest\n";
    let (metadata, body) = parse_front_matter(document);
    assert_eq!(metadata.len(), 1);
    assert_eq!(metadata.get("key").map(|v| v.as_str()), Some("value"));
    assert_eq!(body, "intro\nrest\n");
}

#[test]
fn lines_before_the_opening_delimiter_are_body() {
    let (metadata, body) = parse_front_matter("title: not metadata\n---\ntitle: real\n---\n");
    assert_eq!(metadata.len(), 1);
    assert_eq!(metadata.get("title").map(|v| v.as_str()), Some("real"));
    assert_eq!(body, "title: not metadata\n");
}

#[test]
fn unclosed_block_takes_every_following_line() {
    let (metadata, body) = parse_front_matter("before\n---\ntitle: Hello\n# Heading\nplain\n");
    assert_eq!(metadata.len(), 1);
    assert_eq!(metadata.get("title").map(|v| v.as_str()), Some("Hello"));
    assert_eq!(body, "before\n");
}

#[test]
fn lines_without_separator_inside_the_block_are_ignored() {
    let (metadata, body) = parse_front_matter("---\njust words\n\ntitle: T\n---\nbody\n");
    assert_eq!(metadata.len(), 1);
    assert_eq!(metadata.get("title").map(|v| v.as_str()), Some("T"));
    assert_eq!(body, "body\n");
}

#[test]
fn only_the_first_separator_splits() {
    let (metadata, _) = parse_front_matter("---\nurl: http://example.com:80/x\n---\n");
    assert_eq!(metadata.get("url").map(|v| v.as_str()), Some("http://example.com:80/x"));
}

#[test]
fn last_occurrence_of_a_key_wins_and_keeps_its_place() {
    let (metadata, _) = parse_front_matter("---\ntitle: one\nother: x\ntitle: two\n---\n");
    assert_eq!(metadata.len(), 2);
    assert_eq!(metadata.get("title").map(|v| v.as_str()), Some("two"));
    let first = metadata.entry(0).unwrap();
    assert_eq!((first.0.as_str(), first.1.as_str()), ("title", "two"));
    let second = metadata.entry(1).unwrap();
    assert_eq!((second.0.as_str(), second.1.as_str()), ("other", "x"));
}

#[test]
fn empty_key_and_empty_value_are_kept() {
    let (metadata, _) = parse_front_matter("---\n: value\nkey:\n---\n");
    assert_eq!(metadata.len(), 2);
    assert_eq!(metadata.get("").map(|v| v.as_str()), Some("value"));
    assert_eq!(metadata.get("key").map(|v| v.as_str()), Some(""));
}

#[test]
fn delimiter_may_be_surrounded_by_white_space() {
    let (metadata, body) = parse_front_matter("  ---\t\nk: v\n\u{a0}---\u{2003}\nbody\n");
    assert_eq!(metadata.get("k").map(|v| v.as_str()), Some("v"));
    assert_eq!(body, "body\n");
}

#[test]
fn longer_or_shorter_dashes_are_no_delimiter() {
    let (metadata, body) = parse_front_matter("----\n--\n- --\n");
    assert!(metadata.is_empty());
    assert_eq!(body, "----\n--\n- --\n");
}

#[test]
fn delimiters_toggle_more_than_once() {
    let document = "a\n---\nx: 1\n---\nb\n---\ny: 2\n---\nc\n";
    let (metadata, body) = parse_front_matter(document);
    assert_eq!(metadata.len(), 2);
    assert_eq!(metadata.get("x").map(|v| v.as_str()), Some("1"));
    assert_eq!(metadata.get("y").map(|v| v.as_str()), Some("2"));
    assert_eq!(body, "a\nb\nc\n");
}

#[test]
fn delimiter_line_is_recognised() {
    assert!(is_delimiter_line(&chars("---")));
    assert!(is_delimiter_line(&chars(" \t--- ")));
    assert!(!is_delimiter_line(&chars("--- x")));
    assert!(!is_delimiter_line(&chars("")));
    assert!(!is_delimiter_line(&chars("___")));
}

#[test]
fn key_value_is_cut_at_the_first_colon() {
    let line = chars(" name : a : b ");
    let (key, value) = split_key_value(&line).unwrap();
    assert_eq!(text(key), "name");
    assert_eq!(text(value), "a : b");
    assert!(split_key_value(&chars("no separator")).is_none());
    let only = chars(":");
    let (key, value) = split_key_value(&only).unwrap();
    assert_eq!(text(key), "");
    assert_eq!(text(value), "");
}
