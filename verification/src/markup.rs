//! The line-oriented markup: each line of a body becomes one HTML element,
//! chosen by the way the line begins.
//!
//! | the line                      | becomes                                  |
//! |-------------------------------|------------------------------------------|
//! | begins with `### `            | `<h3>`, holding what follows the prefix  |
//! | begins with `## `             | `<h2>`, holding what follows the prefix  |
//! | begins with `# `              | `<h1>`, holding what follows the prefix  |
//! | begins with `* `              | `<li>`, holding what follows the prefix  |
//! | holds nothing but white space | `<br/>`                                  |
//! | is anything else              | `<p>`, holding the whole line            |
//!
//! The first row that matches counts, and a line feed follows each element.
//! Lines do not influence one another: there are no paragraphs over several
//! lines, and list items get no enclosing list. The characters `<`, `>` and
//! `&` of a line pass into the element unescaped.

use crate::text::{
    append_chars, lemma_trimmed, lines, split_lines, starts_with_str, to_chars, trim, trimmed, views,
};
use vstd::prelude::*;
use vstd::slice::slice_subrange;

verus! {

/// What a line of markup is.
#[derive(Clone, Copy, Debug, PartialEq, Eq, Structural)]
pub enum LineKind {
    /// The line begins with `### `.
    Heading3,
    /// The line begins with `## `.
    Heading2,
    /// The line begins with `# `.
    Heading1,
    /// The line begins with `* `.
    ListItem,
    /// The line holds nothing but white space.
    Blank,
    /// Any other line.
    Paragraph,
}

/// The kind of a line: the first row of the table that the line matches.
/// The prefixes are matched against the line as it stands, leading white
/// space included.
pub open spec fn kind_of(line: Seq<char>) -> LineKind {
    if "### "@.is_prefix_of(line) {
        LineKind::Heading3
    } else if "## "@.is_prefix_of(line) {
        LineKind::Heading2
    } else if "# "@.is_prefix_of(line) {
        LineKind::Heading1
    } else if "* "@.is_prefix_of(line) {
        LineKind::ListItem
    } else if trimmed(line).len() == 0 {
        LineKind::Blank
    } else {
        LineKind::Paragraph
    }
}

/// The element that a line becomes, with the line feed that follows it.
pub open spec fn html_of_line(line: Seq<char>) -> Seq<char> {
    match kind_of(line) {
        LineKind::Heading3 => "<h3>"@ + line.skip(4) + "</h3>\n"@,
        LineKind::Heading2 => "<h2>"@ + line.skip(3) + "</h2>\n"@,
        LineKind::Heading1 => "<h1>"@ + line.skip(2) + "</h1>\n"@,
        LineKind::ListItem => "<li>"@ + line.skip(2) + "</li>\n"@,
        LineKind::Blank => "<br/>\n"@,
        LineKind::Paragraph => "<p>"@ + line + "</p>\n"@,
    }
}

/// The elements of the lines, one after the other.
pub open spec fn html_of_lines(lines: Seq<Seq<char>>) -> Seq<char>
    decreases lines.len(),
{
    if lines.len() == 0 {
        Seq::empty()
    } else {
        html_of_lines(lines.drop_last()) + html_of_line(lines.last())
    }
}

/// The HTML fragment of a body.
pub open spec fn html_of(markdown: Seq<char>) -> Seq<char> {
    html_of_lines(lines(markdown))
}

/// The rows of the table exclude one another: a line begins with at most one
/// of the four prefixes, and one that does is not blank. So each line matches
/// exactly one row, whatever the order in which the rows are tried.
pub proof fn lemma_kinds_exclusive(line: Seq<char>)
    ensures
        kind_of(line) == LineKind::Heading3 <==> "### "@.is_prefix_of(line),
        kind_of(line) == LineKind::Heading2 <==> "## "@.is_prefix_of(line),
        kind_of(line) == LineKind::Heading1 <==> "# "@.is_prefix_of(line),
        kind_of(line) == LineKind::ListItem <==> "* "@.is_prefix_of(line),
        kind_of(line) == LineKind::Blank <==> trimmed(line).len() == 0,
        kind_of(line) == LineKind::Paragraph <==> !"### "@.is_prefix_of(line) && !"## "@.is_prefix_of(
            line,
        ) && !"# "@.is_prefix_of(line) && !"* "@.is_prefix_of(line) && trimmed(line).len() != 0,
{
    reveal_strlit("### ");
    reveal_strlit("## ");
    reveal_strlit("# ");
    reveal_strlit("* ");
    let marked = "### "@.is_prefix_of(line) || "## "@.is_prefix_of(line) || "# "@.is_prefix_of(line)
        || "* "@.is_prefix_of(line);
    if "### "@.is_prefix_of(line) {
        assert(line.subrange(0, 4)[2] == '#');
        assert(line.subrange(0, 4)[1] == '#');
        assert(line.subrange(0, 4)[0] == '#');
    }
    if "## "@.is_prefix_of(line) {
        assert(line.subrange(0, 3)[2] == ' ');
        assert(line.subrange(0, 3)[1] == '#');
        assert(line.subrange(0, 3)[0] == '#');
    }
    if "# "@.is_prefix_of(line) {
        assert(line.subrange(0, 2)[1] == ' ');
        assert(line.subrange(0, 2)[0] == '#');
    }
    if "* "@.is_prefix_of(line) {
        assert(line.subrange(0, 2)[0] == '*');
    }
    if marked {
        assert(line.len() > 0 && (line[0] == '#' || line[0] == '*'));
        let bounds = lemma_trimmed(line);
        assert(bounds.0 == 0 && bounds.1 > 0);
    }
}

/// The kind of `line`.
pub fn classify_line(line: &[char]) -> (kind: LineKind)
    ensures
        kind == kind_of(line@),
{
    if starts_with_str(line, "### ") {
        LineKind::Heading3
    } else if starts_with_str(line, "## ") {
        LineKind::Heading2
    } else if starts_with_str(line, "# ") {
        LineKind::Heading1
    } else if starts_with_str(line, "* ") {
        LineKind::ListItem
    } else if trim(line).len() == 0 {
        LineKind::Blank
    } else {
        LineKind::Paragraph
    }
}

/// Appends to `out` the element that `line` becomes.
pub fn render_line(out: &mut String, line: &[char])
    ensures
        final(out)@ == old(out)@ + html_of_line(line@),
{
    proof {
        reveal_strlit("### ");
        reveal_strlit("## ");
        reveal_strlit("# ");
        reveal_strlit("* ");
    }
    match classify_line(line) {
        LineKind::Heading3 => {
            out.append("<h3>");
            append_chars(out, slice_subrange(line, 4, line.len()));
            out.append("</h3>\n");
        },
        LineKind::Heading2 => {
            out.append("<h2>");
            append_chars(out, slice_subrange(line, 3, line.len()));
            out.append("</h2>\n");
        },
        LineKind::Heading1 => {
            out.append("<h1>");
            append_chars(out, slice_subrange(line, 2, line.len()));
            out.append("</h1>\n");
        },
        LineKind::ListItem => {
            out.append("<li>");
            append_chars(out, slice_subrange(line, 2, line.len()));
            out.append("</li>\n");
        },
        LineKind::Blank => {
            out.append("<br/>\n");
        },
        LineKind::Paragraph => {
            out.append("<p>");
            append_chars(out, line);
            out.append("</p>\n");
        },
    }
    assert(final(out)@ =~= old(out)@ + html_of_line(line@));
}

/// The HTML fragment of `markdown`: for each of its lines one element, in order.
pub fn markdown_to_html(markdown: &str) -> (html: String)
    ensures
        html@ == html_of(markdown@),
{
    let text = to_chars(markdown);
    let lines = split_lines(text.as_slice());
    let mut html = String::new();
    let mut i: usize = 0;
    while i < lines.len()
        invariant
            i <= lines.len(),
            html@ == html_of_lines(views(lines@).take(i as int)),
        decreases lines.len() - i,
    {
        proof {
            let next = views(lines@).take(i as int + 1);
            assert(next.drop_last() == views(lines@).take(i as int));
            assert(next.last() == lines@[i as int]@);
        }
        render_line(&mut html, lines[i]);
        i += 1;
    }
    assert(views(lines@).take(lines@.len() as int) == views(lines@));
    html
}

} // verus!
