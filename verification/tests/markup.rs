use sitegen::markdown_to_html;
use sitegen::markup::{classify_line, render_line, LineKind};

fn chars(s: &str) -> Vec<char> {
    s.chars().collect()
}

fn element(line: &str) -> String {
    let mut out = String::new();
    render_line(&mut out, &chars(line));
    out
}

#[test]
fn heading_three() {
    assert_eq!(classify_line(&chars("### Title")), LineKind::Heading3);
    assert_eq!(element("### Title"), "<h3>Title</h3>\n");
}

#[test]
fn heading_two() {
    assert_eq!(classify_line(&chars("## Title")), LineKind::Heading2);
    assert_eq!(element("## Title"), "<h2>Title</h2>\n");
}

#[test]
fn heading_one() {
    assert_eq!(classify_line(&chars("# Title")), LineKind::Heading1);
    assert_eq!(element("# Title"), "<h1>Title</h1>\n");
}

#[test]
fn list_item() {
    assert_eq!(classify_line(&chars("* item")), LineKind::ListItem);
    assert_eq!(element("* item"), "<li>item</li>\n");
}

#[test]
fn empty_line_is_a_line_break() {
    assert_eq!(classify_line(&chars("")), LineKind::Blank);
    assert_eq!(element(""), "<br/>\n");
}

#[test]
fn white_space_line_is_a_line_break() {
    assert_eq!(classify_line(&chars(" \t \u{3000}")), LineKind::Blank);
    assert_eq!(element("   "), "<br/>\n");
}

#[test]
fn plain_text_is_a_paragraph() {
    assert_eq!(classify_line(&chars("plain text")), LineKind::Paragraph);
    assert_eq!(element("plain text"), "<p>plain text</p>\n");
}

#[test]
fn paragraph_keeps_the_line_verbatim() {
    assert_eq!(element("  indented  "), "<p>  indented  </p>\n");
}

#[test]
fn prefix_needs_its_space() {
    assert_eq!(classify_line(&chars("#Title")), LineKind::Paragraph);
    assert_eq!(classify_line(&chars("###")), LineKind::Paragraph);
    assert_eq!(classify_line(&chars("#")), LineKind::Paragraph);
    assert_eq!(classify_line(&chars("*item")), LineKind::Paragraph);
    assert_eq!(classify_line(&chars("#### deep")), LineKind::Paragraph);
    assert_eq!(element("#### deep"), "<p>#### deep</p>\n");
}

#[test]
fn prefix_is_matched_against_the_untrimmed_line() {
    assert_eq!(classify_line(&chars(" # Title")), LineKind::Paragraph);
    assert_eq!(element(" * item"), "<p> * item</p>\n");
}

#[test]
fn prefix_alone_gives_an_empty_element() {
    assert_eq!(element("# "), "<h1></h1>\n");
    assert_eq!(element("## "), "<h2></h2>\n");
    assert_eq!(element("### "), "<h3></h3>\n");
    assert_eq!(element("* "), "<li></li>\n");
}

#[test]
fn remainder_is_not_trimmed() {
    assert_eq!(element("#  two spaces "), "<h1> two spaces </h1>\n");
    assert_eq!(element("* # not a heading"), "<li># not a heading</li>\n");
}

#[test]
fn special_characters_pass_unescaped() {
    assert_eq!(element("a < b && c > d"), "<p>a < b && c > d</p>\n");
    assert_eq!(element("# <em>x</em>"), "<h1><em>x</em></h1>\n");
}

#[test]
fn render_line_appends_to_what_is_there() {
    let mut out = String::from("before|");
    render_line(&mut out, &chars("* x"));
    assert_eq!(out, "before|<li>x</li>\n");
}

#[test]
fn each_line_becomes_one_element() {
    let html = markdown_to_html("# Welcome\n* one\n* two\n");
    assert_eq!(html, "<h1>Welcome</h1>\n<li>one</li>\n<li>two</li>\n");
}

#[test]
fn list_items_get_no_enclosing_list() {
    let html = markdown_to_html("* a\n* b");
    assert_eq!(html, "<li>a</li>\n<li>b</li>\n");
}

#[test]
fn lines_do_not_join_into_paragraphs() {
    let html = markdown_to_html("one\ntwo\n\nthree\n");
    assert_eq!(html, "<p>one</p>\n<p>two</p>\n<br/>\n<p>three</p>\n");
}

#[test]
fn all_kinds_in_one_body() {
    let html = markdown_to_html("### c\n## b\n# a\n* i\n \nend");
    assert_eq!(html, "<h3>c</h3>\n<h2>b</h2>\n<h1>a</h1>\n<li>i</li>\n<br/>\n<p>end</p>\n");
}

#[test]
fn empty_body_gives_empty_fragment() {
    assert_eq!(markdown_to_html(""), "");
    assert_eq!(markdown_to_html("\n"), "<br/>\n");
}

#[test]
fn windows_line_endings() {
    assert_eq!(markdown_to_html("# a\r\nb\r\n"), "<h1>a</h1>\n<p>b</p>\n");
}
