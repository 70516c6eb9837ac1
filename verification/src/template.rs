//! The layout: a text with placeholders of the shape `{{ name }}`, each
//! replaced by the value that the metadata gives to `name`, and `{{ content }}`
//! by the HTML fragment of the document.
//!
//! The entries are substituted one after the other, in their order in the
//! metadata, each in the text that the one before has left; the fragment comes
//! last. A placeholder whose name has no value is no pattern of any of these
//! replacements: it is text like any other, and stays unless a pattern that
//! is replaced overlaps it. Placeholders of different names without braces
//! never overlap.

use crate::metadata::Metadata;
use crate::text::{
    append, from_chars, lemma_replaced_absent, lemma_replaced_keeps, occurs_at, occurs_in,
    replace_all, replaced, to_chars,
};
use vstd::prelude::*;

verus! {

/// The placeholder for `name`: two opening braces, a space, the name, a space, two closing braces.
pub open spec fn placeholder(name: Seq<char>) -> Seq<char> {
    "{{ "@ + name + " }}"@
}

/// `text` after the placeholder of each entry has been replaced by the
/// entry's value, the entries taken in order.
pub open spec fn substituted(text: Seq<char>, entries: Seq<(Seq<char>, Seq<char>)>) -> Seq<char>
    decreases entries.len(),
{
    if entries.len() == 0 {
        text
    } else {
        replaced(
            substituted(text, entries.drop_last()),
            placeholder(entries.last().0),
            entries.last().1,
        )
    }
}

/// The page: the template with the entries substituted, and then `content`
/// in place of the placeholder for `content`.
pub open spec fn rendered(
    template: Seq<char>,
    entries: Seq<(Seq<char>, Seq<char>)>,
    content: Seq<char>,
) -> Seq<char> {
    replaced(substituted(template, entries), placeholder("content"@), content)
}

/// The placeholder for `name`.
pub fn placeholder_for(name: &str) -> (pattern: Vec<char>)
    ensures
        pattern@ == placeholder(name@),
{
    let mut pattern = to_chars("{{ ");
    let name_chars = to_chars(name);
    append(&mut pattern, name_chars.as_slice());
    let closing = to_chars(" }}");
    append(&mut pattern, closing.as_slice());
    pattern
}

/// Fills the template: each placeholder that names a key of `metadata`
/// becomes that key's value, `{{ content }}` becomes `content`, and all other
/// text stays.
pub fn render_template(template: &str, metadata: &Metadata, content: &str) -> (page: String)
    ensures
        page@ == rendered(template@, metadata.entries(), content@),
{
    let mut text = to_chars(template);
    let n = metadata.len();
    let mut i: usize = 0;
    while i < n
        invariant
            i <= n,
            n == metadata.entries().len(),
            text@ == substituted(template@, metadata.entries().take(i as int)),
        decreases n - i,
    {
        proof {
            let next = metadata.entries().take(i as int + 1);
            assert(next.drop_last() == metadata.entries().take(i as int));
            assert(next.last() == metadata.entries()[i as int]);
        }
        match metadata.entry(i) {
            Some((key, value)) => {
                let pattern = placeholder_for(key.as_str());
                let with = to_chars(value.as_str());
                text = replace_all(text.as_slice(), pattern.as_slice(), with.as_slice());
            },
            None => {},
        }
        i += 1;
    }
    assert(metadata.entries().take(n as int) == metadata.entries());
    let pattern = placeholder_for("content");
    let with = to_chars(content);
    let page = replace_all(text.as_slice(), pattern.as_slice(), with.as_slice());
    from_chars(page.as_slice())
}

/// Whether `name` holds neither an opening nor a closing brace.
pub open spec fn brace_free(name: Seq<char>) -> bool {
    forall|i: int| 0 <= i < name.len() ==> name[i] != '{' && name[i] != '}'
}

/// The length of a placeholder: that of the name and six more.
pub proof fn lemma_placeholder_length(name: Seq<char>)
    ensures
        placeholder(name).len() == name.len() + 6,
{
    reveal_strlit("{{ ");
    reveal_strlit(" }}");
}

/// The character at index `x` of a text, where `x` lies in an occurrence of
/// the placeholder of a name without braces: the first two characters of the
/// occurrence are its only opening braces, the last two its only closing
/// braces, a space follows and a space precedes them, and the name stands
/// between.
pub proof fn lemma_placeholder_char(text: Seq<char>, name: Seq<char>, at: int, x: int)
    requires
        brace_free(name),
        occurs_at(text, placeholder(name), at),
        at <= x < at + placeholder(name).len(),
    ensures
        placeholder(name).len() == name.len() + 6,
        text[x] == '{' <==> x < at + 2,
        text[x] == '}' <==> x >= at + name.len() + 4,
        x == at + 2 || x == at + name.len() + 3 ==> text[x] == ' ',
        at + 3 <= x < at + name.len() + 3 ==> text[x] == name[x - at - 3],
{
    reveal_strlit("{{ ");
    reveal_strlit(" }}");
    let p = placeholder(name);
    let o = x - at;
    assert(text.subrange(at, at + p.len())[o] == text[x]);
    if 3 <= o < name.len() + 3 {
        assert(p[o] == name[o - 3]);
    }
}

/// Whether no occurrence of `first` shares a character of a text with an
/// occurrence of `second`: where both stand in one text, one ends before the
/// other begins.
pub open spec fn apart(first: Seq<char>, second: Seq<char>) -> bool {
    forall|text: Seq<char>, i: int, j: int|
        occurs_at(text, first, i) && occurs_at(text, second, j) ==> i + first.len() <= j || j
            + second.len() <= i
}

/// Two occurrences of placeholders of names without braces are the same
/// occurrence of the same placeholder, or share no character.
pub proof fn lemma_occurrences_apart(
    text: Seq<char>,
    first: Seq<char>,
    second: Seq<char>,
    i: int,
    j: int,
)
    requires
        brace_free(first),
        brace_free(second),
        occurs_at(text, placeholder(first), i),
        occurs_at(text, placeholder(second), j),
    ensures
        (first == second && i == j) || i + placeholder(first).len() <= j || j + placeholder(
            second,
        ).len() <= i,
{
    lemma_placeholder_length(first);
    lemma_placeholder_length(second);
    if i == j {
        if first.len() < second.len() {
            let x = i + first.len() + 4;
            lemma_placeholder_char(text, first, i, x);
            lemma_placeholder_char(text, second, j, x);
        } else if second.len() < first.len() {
            let x = i + second.len() + 4;
            lemma_placeholder_char(text, first, i, x);
            lemma_placeholder_char(text, second, j, x);
        } else {
            assert forall|k: int| 0 <= k < first.len() implies first[k] == second[k] by {
                lemma_placeholder_char(text, first, i, i + 3 + k);
                lemma_placeholder_char(text, second, j, i + 3 + k);
            }
            assert(first =~= second);
        }
    } else if i < j && j < i + placeholder(first).len() {
        lemma_placeholder_char(text, second, j, j);
        lemma_placeholder_char(text, first, i, j);
        lemma_placeholder_char(text, second, j, j + 1);
        lemma_placeholder_char(text, first, i, i + 2);
    } else if j < i && i < j + placeholder(second).len() {
        lemma_placeholder_char(text, first, i, i);
        lemma_placeholder_char(text, second, j, i);
        lemma_placeholder_char(text, first, i, i + 1);
        lemma_placeholder_char(text, second, j, j + 2);
    }
}

/// The placeholders of two different names without braces are apart.
pub proof fn lemma_placeholders_apart(first: Seq<char>, second: Seq<char>)
    requires
        brace_free(first),
        brace_free(second),
        first != second,
    ensures
        apart(placeholder(first), placeholder(second)),
{
    assert forall|text: Seq<char>, i: int, j: int|
        occurs_at(text, placeholder(first), i) && occurs_at(
            text,
            placeholder(second),
            j,
        ) implies i + placeholder(first).len() <= j || j + placeholder(second).len() <= i by {
        lemma_occurrences_apart(text, first, second, i, j);
    }
}

/// What stands in a text, apart from the placeholder of every entry, still
/// stands in it after the entries have been substituted.
pub proof fn lemma_substituted_keeps(
    text: Seq<char>,
    entries: Seq<(Seq<char>, Seq<char>)>,
    kept: Seq<char>,
)
    requires
        forall|i: int| 0 <= i < entries.len() ==> apart(placeholder(#[trigger] entries[i].0), kept),
        occurs_in(text, kept),
    ensures
        occurs_in(substituted(text, entries), kept),
    decreases entries.len(),
{
    if entries.len() > 0 {
        let front = entries.drop_last();
        let key = entries.last().0;
        assert forall|i: int| 0 <= i < front.len() implies apart(
            placeholder(#[trigger] front[i].0),
            kept,
        ) by {
            assert(front[i] == entries[i]);
        }
        lemma_substituted_keeps(text, front, kept);
        let before = substituted(text, front);
        let at = choose|at: int| occurs_at(before, kept, at);
        assert(apart(placeholder(entries[entries.len() - 1].0), kept));
        lemma_placeholder_length(key);
        lemma_replaced_keeps(before, placeholder(key), entries.last().1, kept, at);
    }
}

/// A placeholder that is apart from the placeholder of every key and from
/// the one for `content` stays: a template that holds it gives a page that
/// holds it. A placeholder for a key of the metadata, or for `content`, is
/// not apart from itself, so this speaks of names without a value only.
pub proof fn lemma_unmatched_placeholder_stays(
    template: Seq<char>,
    entries: Seq<(Seq<char>, Seq<char>)>,
    content: Seq<char>,
    name: Seq<char>,
)
    requires
        forall|i: int|
            0 <= i < entries.len() ==> apart(
                placeholder(#[trigger] entries[i].0),
                placeholder(name),
            ),
        apart(placeholder("content"@), placeholder(name)),
        occurs_in(template, placeholder(name)),
    ensures
        occurs_in(rendered(template, entries, content), placeholder(name)),
{
    lemma_substituted_keeps(template, entries, placeholder(name));
    let before = substituted(template, entries);
    let at = choose|at: int| occurs_at(before, placeholder(name), at);
    lemma_placeholder_length("content"@);
    lemma_replaced_keeps(before, placeholder("content"@), content, placeholder(name), at);
}

/// A placeholder whose name has no value stays in the page: where the name
/// is no key of the metadata and is not `content`, and neither it nor any key
/// holds a brace, a template with that placeholder gives a page with it.
pub proof fn lemma_absent_key_stays(
    template: Seq<char>,
    entries: Seq<(Seq<char>, Seq<char>)>,
    content: Seq<char>,
    name: Seq<char>,
)
    requires
        brace_free(name),
        name != "content"@,
        forall|i: int| 0 <= i < entries.len() ==> brace_free(#[trigger] entries[i].0),
        forall|i: int| 0 <= i < entries.len() ==> #[trigger] entries[i].0 != name,
        occurs_in(template, placeholder(name)),
    ensures
        occurs_in(rendered(template, entries, content), placeholder(name)),
{
    reveal_strlit("content");
    assert(brace_free("content"@));
    lemma_placeholders_apart("content"@, name);
    assert forall|i: int| 0 <= i < entries.len() implies apart(
        placeholder(#[trigger] entries[i].0),
        placeholder(name),
    ) by {
        lemma_placeholders_apart(entries[i].0, name);
    }
    lemma_unmatched_placeholder_stays(template, entries, content, name);
}

/// A template in which no placeholder of the metadata and no placeholder for
/// `content` occurs is its own page.
pub proof fn lemma_nothing_to_replace(
    template: Seq<char>,
    entries: Seq<(Seq<char>, Seq<char>)>,
    content: Seq<char>,
)
    requires
        forall|i: int|
            0 <= i < entries.len() ==> !occurs_in(template, placeholder(#[trigger] entries[i].0)),
        !occurs_in(template, placeholder("content"@)),
    ensures
        substituted(template, entries) == template,
        rendered(template, entries, content) == template,
    decreases entries.len(),
{
    if entries.len() > 0 {
        let front = entries.drop_last();
        assert forall|i: int| 0 <= i < front.len() implies !occurs_in(
            template,
            placeholder(#[trigger] front[i].0),
        ) by {
            assert(front[i] == entries[i]);
        }
        lemma_nothing_to_replace(template, front, content);
        assert(!occurs_in(template, placeholder(entries[entries.len() - 1].0)));
        lemma_placeholder_length(entries.last().0);
        lemma_replaced_absent(template, placeholder(entries.last().0), entries.last().1);
    }
    lemma_placeholder_length("content"@);
    lemma_replaced_absent(template, placeholder("content"@), content);
}

} // verus!
