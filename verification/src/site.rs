//! What a run over a source directory decides and computes apart from
//! reading and writing: which directory entries are documents, what the page
//! of a document is called, and what stands in it.
//!
//! A name here is the name of a directory entry, without separators. Its
//! extension is what follows its last `.`; a name without `.`, or with its
//! only `.` at the front, has none.

use crate::front_matter::{body_of, entries_of, parse_front_matter};
use crate::markup::{html_of, markdown_to_html};
use crate::template::{render_template, rendered};
use crate::text::{append_chars, find_last, last_position, lemma_last_position, to_chars};
use vstd::prelude::*;
use vstd::slice::slice_subrange;

verus! {

/// The extension of a file name, if it has one.
pub open spec fn extension(name: Seq<char>) -> Option<Seq<char>> {
    let dot = last_position(name, '.');
    if dot > 0 {
        Some(name.skip(dot + 1))
    } else {
        None
    }
}

/// The file name without its extension and the `.` before it.
pub open spec fn stem(name: Seq<char>) -> Seq<char> {
    let dot = last_position(name, '.');
    if dot > 0 {
        name.take(dot)
    } else {
        name
    }
}

/// Whether a file name has the extension of a document, `md` in lower case.
pub open spec fn is_markup_name(name: Seq<char>) -> bool {
    extension(name) == Some("md"@)
}

/// The name of the page of a file: the file's name with `html` as its
/// extension, in place of the one it has or added if it has none.
pub open spec fn destination_name(name: Seq<char>) -> Seq<char> {
    stem(name) + "."@ + "html"@
}

/// The page of a document under a template: the template filled with the
/// document's metadata and with the HTML fragment of its body.
pub open spec fn page_of(template: Seq<char>, document: Seq<char>) -> Seq<char> {
    rendered(template, entries_of(document), html_of(body_of(document)))
}

/// The names of documents are those that end in `.md` after at least one
/// other character, and the page of such a file has `.html` for that `.md`.
pub proof fn lemma_markup_name(name: Seq<char>)
    ensures
        is_markup_name(name) <==> name.len() > 3 && name.skip(name.len() - 3) == ".md"@,
        is_markup_name(name) ==> destination_name(name) == name.take(name.len() - 3) + ".html"@,
{
    reveal_strlit("md");
    reveal_strlit(".md");
    reveal_strlit(".");
    reveal_strlit("html");
    reveal_strlit(".html");
    lemma_last_position(name, '.');
    let dot = last_position(name, '.');
    let n = name.len() as int;
    if is_markup_name(name) {
        let tail = name.skip(dot + 1);
        assert(tail.len() == 2);
        assert(tail[0] == 'm' && tail[1] == 'd');
        assert(name.skip(n - 3) =~= ".md"@);
        assert(destination_name(name) =~= name.take(n - 3) + ".html"@);
    }
    if n > 3 && name.skip(n - 3) == ".md"@ {
        let tail = name.skip(n - 3);
        assert(tail[0] == '.' && tail[1] == 'm' && tail[2] == 'd');
        assert(name[n - 3] == '.' && name[n - 2] == 'm' && name[n - 1] == 'd');
        assert(dot == n - 3);
        assert(name.skip(dot + 1) =~= "md"@);
    }
}

/// Whether `name` is the name of a document.
pub fn is_markup_file_name(name: &str) -> (b: bool)
    ensures
        b == is_markup_name(name@),
{
    let chars = to_chars(name);
    proof {
        reveal_strlit("md");
        lemma_last_position(chars@, '.');
    }
    match find_last(chars.as_slice(), '.') {
        Some(dot) => {
            if dot > 0 && chars.len() - dot == 3 && chars[dot + 1] == 'm' && chars[dot + 2] == 'd' {
                assert(chars@.skip(dot as int + 1) =~= "md"@);
                true
            } else {
                proof {
                    if dot > 0 && chars@.skip(dot as int + 1) == "md"@ {
                        let tail = chars@.skip(dot as int + 1);
                        assert(tail[0] == 'm' && tail[1] == 'd');
                    }
                }
                false
            }
        },
        None => false,
    }
}

/// The name of the page of the file called `name`.
pub fn destination_file_name(name: &str) -> (page_name: String)
    ensures
        page_name@ == destination_name(name@),
{
    let chars = to_chars(name);
    let stem_length = match find_last(chars.as_slice(), '.') {
        Some(dot) => if dot > 0 {
            dot
        } else {
            chars.len()
        },
        None => chars.len(),
    };
    proof {
        lemma_last_position(chars@, '.');
        assert(chars@.take(chars@.len() as int) == chars@);
    }
    let mut page_name = String::new();
    append_chars(&mut page_name, slice_subrange(chars.as_slice(), 0, stem_length));
    page_name.append(".");
    page_name.append("html");
    page_name
}

/// What becomes of a directory entry: the name of its page if the entry is a
/// regular file with the name of a document, and nothing otherwise. An entry
/// that is no regular file (a directory, say) gives no page, whatever its
/// name, and so does a file with another extension or none.
pub fn plan_entry(file_name: &str, is_regular_file: bool) -> (page_name: Option<String>)
    ensures
        page_name is Some <==> is_regular_file && is_markup_name(file_name@),
        page_name is Some ==> page_name->0@ == destination_name(file_name@),
        !is_regular_file ==> page_name is None,
        !is_markup_name(file_name@) ==> page_name is None,
{
    if is_regular_file && is_markup_file_name(file_name) {
        Some(destination_file_name(file_name))
    } else {
        None
    }
}

/// The page of `document` under `template`.
pub fn render_document(template: &str, document: &str) -> (page: String)
    ensures
        page@ == page_of(template@, document@),
{
    let (metadata, body) = parse_front_matter(document);
    let html = markdown_to_html(body.as_str());
    render_template(template, &metadata, html.as_str())
}

} // verus!
