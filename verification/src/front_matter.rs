//! Front matter: a block of `key: value` lines between two delimiter lines,
//! split off from the body of a document.
//!
//! A delimiter line is a line that is `---` once trimmed. Delimiters toggle:
//! the first opens the front matter, the second closes it, a third opens it
//! again. Lines outside are the body; lines inside that hold a `:` give a key
//! and a value; other lines inside are passed over. A block that is never
//! closed takes all the lines after its opening delimiter.

use crate::metadata::{as_map, distinct_keys, lemma_upsert, upsert, Metadata};
use crate::text::{
    append_chars, find, from_chars, lemma_position, lines, position, push_char, split_lines,
    to_chars, trim, trimmed, views,
};
use vstd::prelude::*;
use vstd::slice::slice_subrange;

verus! {

/// Whether a line delimits the front matter.
pub open spec fn is_delimiter(line: Seq<char>) -> bool {
    trimmed(line) == "---"@
}

/// The key and the value of a line of front matter: what stands before and
/// after the first `:` of the line, each trimmed. A line without `:` has none.
pub open spec fn key_value(line: Seq<char>) -> Option<(Seq<char>, Seq<char>)> {
    let i = position(line, ':');
    if 0 <= i < line.len() {
        Some((trimmed(line.take(i)), trimmed(line.skip(i + 1))))
    } else {
        None
    }
}

/// The number of delimiters among `lines`.
pub open spec fn delimiters(lines: Seq<Seq<char>>) -> nat
    decreases lines.len(),
{
    if lines.len() == 0 {
        0
    } else if is_delimiter(lines.last()) {
        delimiters(lines.drop_last()) + 1
    } else {
        delimiters(lines.drop_last())
    }
}

/// Whether the front matter is open after `lines`: whether the number of
/// delimiters among them is odd.
pub open spec fn inside(lines: Seq<Seq<char>>) -> bool {
    delimiters(lines) % 2 == 1
}

/// The body of `lines`: the lines outside the front matter that are no
/// delimiters, in order, each followed by a line feed.
pub open spec fn body_of_lines(lines: Seq<Seq<char>>) -> Seq<char>
    decreases lines.len(),
{
    if lines.len() == 0 {
        Seq::empty()
    } else if !is_delimiter(lines.last()) && !inside(lines.drop_last()) {
        body_of_lines(lines.drop_last()) + lines.last() + seq!['\n']
    } else {
        body_of_lines(lines.drop_last())
    }
}

/// The pairs of key and value that `lines` give: those of the lines inside
/// the front matter that are no delimiters and hold a `:`, in order.
pub open spec fn pairs_of_lines(lines: Seq<Seq<char>>) -> Seq<(Seq<char>, Seq<char>)>
    decreases lines.len(),
{
    if lines.len() == 0 {
        Seq::empty()
    } else if !is_delimiter(lines.last()) && inside(lines.drop_last()) && key_value(
        lines.last(),
    ) is Some {
        pairs_of_lines(lines.drop_last()).push(key_value(lines.last())->0)
    } else {
        pairs_of_lines(lines.drop_last())
    }
}

/// The entries that a sequence of pairs leaves when each pair in turn gives
/// its key its value: of the pairs with one key the first fixes the place
/// and the last the value.
pub open spec fn collected(pairs: Seq<(Seq<char>, Seq<char>)>) -> Seq<(Seq<char>, Seq<char>)>
    decreases pairs.len(),
{
    if pairs.len() == 0 {
        Seq::empty()
    } else {
        upsert(collected(pairs.drop_last()), pairs.last().0, pairs.last().1)
    }
}

/// The body of a document.
pub open spec fn body_of(document: Seq<char>) -> Seq<char> {
    body_of_lines(lines(document))
}

/// The metadata entries of a document.
pub open spec fn entries_of(document: Seq<char>) -> Seq<(Seq<char>, Seq<char>)> {
    collected(pairs_of_lines(lines(document)))
}

/// Whether `line` delimits the front matter.
pub fn is_delimiter_line(line: &[char]) -> (b: bool)
    ensures
        b == is_delimiter(line@),
{
    proof {
        reveal_strlit("---");
    }
    let t = trim(line);
    if t.len() == 3 && t[0] == '-' && t[1] == '-' && t[2] == '-' {
        assert(t@ =~= "---"@);
        true
    } else {
        proof {
            if t@ == "---"@ {
                assert(t@[0] == '-' && t@[1] == '-' && t@[2] == '-');
            }
        }
        false
    }
}

/// The trimmed key and the trimmed value of `line`, cut at its first `:`.
pub fn split_key_value(line: &[char]) -> (r: Option<(&[char], &[char])>)
    ensures
        match r {
            Some((key, value)) => key_value(line@) == Some((key@, value@)),
            None => key_value(line@) is None,
        },
{
    let i = find(line, ':');
    if i < line.len() {
        let key = trim(slice_subrange(line, 0, i));
        let value = trim(slice_subrange(line, i + 1, line.len()));
        Some((key, value))
    } else {
        None
    }
}

/// Splits a document into its metadata and its body. The metadata holds the
/// pairs of the front matter, each key once, with the value of its last pair
/// and at the place of its first; the body holds the lines outside the front
/// matter, each followed by a line feed.
pub fn parse_front_matter(content: &str) -> (r: (Metadata, String))
    ensures
        r.0.entries() == entries_of(content@),
        r.0@ == as_map(pairs_of_lines(lines(content@))),
        r.1@ == body_of(content@),
{
    let text = to_chars(content);
    let lines = split_lines(text.as_slice());
    let mut metadata = Metadata::new();
    let mut body = String::new();
    let mut in_front_matter = false;
    let mut i: usize = 0;
    while i < lines.len()
        invariant
            i <= lines.len(),
            in_front_matter == inside(views(lines@).take(i as int)),
            body@ == body_of_lines(views(lines@).take(i as int)),
            metadata.entries() == collected(pairs_of_lines(views(lines@).take(i as int))),
        decreases lines.len() - i,
    {
        let line = lines[i];
        proof {
            let next = views(lines@).take(i as int + 1);
            assert(next.drop_last() == views(lines@).take(i as int));
            assert(next.last() == line@);
        }
        if is_delimiter_line(line) {
            in_front_matter = !in_front_matter;
        } else if in_front_matter {
            match split_key_value(line) {
                Some((key, value)) => {
                    proof {
                        let pairs = pairs_of_lines(views(lines@).take(i as int));
                        let pair = (key@, value@);
                        assert(pairs.push(pair).drop_last() == pairs);
                        assert(pairs.push(pair).last() == pair);
                    }
                    metadata.insert(from_chars(key), from_chars(value));
                },
                None => {},
            }
        } else {
            append_chars(&mut body, line);
            push_char(&mut body, '\n');
            assert(body@ =~= body_of_lines(views(lines@).take(i as int)) + line@ + seq!['\n']);
        }
        i += 1;
    }
    proof {
        assert(views(lines@).take(lines@.len() as int) == views(lines@));
        lemma_collected(pairs_of_lines(views(lines@)));
    }
    (metadata, body)
}

/// No line of `lines` is a delimiter.
pub open spec fn no_delimiter(lines: Seq<Seq<char>>) -> bool {
    forall|i: int| 0 <= i < lines.len() ==> !is_delimiter(#[trigger] lines[i])
}

/// The lines one after the other, each followed by a line feed.
pub open spec fn terminated(lines: Seq<Seq<char>>) -> Seq<char>
    decreases lines.len(),
{
    if lines.len() == 0 {
        Seq::empty()
    } else {
        terminated(lines.drop_last()) + lines.last() + seq!['\n']
    }
}

/// The pairs of key and value of the lines of `block` that hold a `:`, in order.
pub open spec fn pairs_in(block: Seq<Seq<char>>) -> Seq<(Seq<char>, Seq<char>)>
    decreases block.len(),
{
    if block.len() == 0 {
        Seq::empty()
    } else if key_value(block.last()) is Some {
        pairs_in(block.drop_last()).push(key_value(block.last())->0)
    } else {
        pairs_in(block.drop_last())
    }
}

/// Lines without a delimiter, put after `before`, add no delimiter, so the
/// front matter stays as open or closed as it was. Where it was closed they
/// all go to the body; where it was open they give their pairs.
pub proof fn lemma_plain_lines(before: Seq<Seq<char>>, plain: Seq<Seq<char>>)
    requires
        no_delimiter(plain),
    ensures
        delimiters(before + plain) == delimiters(before),
        body_of_lines(before + plain) == if inside(before) {
            body_of_lines(before)
        } else {
            body_of_lines(before) + terminated(plain)
        },
        pairs_of_lines(before + plain) == if inside(before) {
            pairs_of_lines(before) + pairs_in(plain)
        } else {
            pairs_of_lines(before)
        },
    decreases plain.len(),
{
    if plain.len() == 0 {
        assert(before + plain == before);
        assert(body_of_lines(before) + terminated(plain) == body_of_lines(before));
        assert(pairs_of_lines(before) + pairs_in(plain) == pairs_of_lines(before));
    } else {
        let front = plain.drop_last();
        let line = plain.last();
        assert(!is_delimiter(plain[plain.len() - 1]));
        assert((before + plain).drop_last() == before + front);
        assert((before + plain).last() == line);
        assert forall|i: int| 0 <= i < front.len() implies !is_delimiter(#[trigger] front[i]) by {
            assert(front[i] == plain[i]);
        }
        lemma_plain_lines(before, front);
        if inside(before) {
            if key_value(line) is Some {
                assert((pairs_of_lines(before) + pairs_in(front)).push(key_value(line)->0)
                    == pairs_of_lines(before) + pairs_in(plain));
            }
        } else {
            assert(body_of_lines(before) + terminated(front) + line + seq!['\n'] == body_of_lines(
                before,
            ) + terminated(plain));
        }
    }
}

/// A delimiter put after `before` opens the front matter if it was closed and
/// closes it if it was open; the body and the pairs stay as they were.
pub proof fn lemma_delimiter_line(before: Seq<Seq<char>>, delimiter: Seq<char>)
    requires
        is_delimiter(delimiter),
    ensures
        delimiters(before.push(delimiter)) == delimiters(before) + 1,
        inside(before.push(delimiter)) == !inside(before),
        body_of_lines(before.push(delimiter)) == body_of_lines(before),
        pairs_of_lines(before.push(delimiter)) == pairs_of_lines(before),
{
    assert(before.push(delimiter).drop_last() == before);
    assert(before.push(delimiter).last() == delimiter);
}

/// The entries collected from pairs hold no key twice, and stand for the
/// same map as the pairs: each key with the value of its last pair.
pub proof fn lemma_collected(pairs: Seq<(Seq<char>, Seq<char>)>)
    ensures
        distinct_keys(collected(pairs)),
        as_map(collected(pairs)) == as_map(pairs),
    decreases pairs.len(),
{
    if pairs.len() > 0 {
        lemma_collected(pairs.drop_last());
        lemma_upsert(collected(pairs.drop_last()), pairs.last().0, pairs.last().1);
    }
}

/// The lines of `first` followed by those of `second`, each with its line
/// feed, are those of the two sequences joined.
pub proof fn lemma_terminated_concat(first: Seq<Seq<char>>, second: Seq<Seq<char>>)
    ensures
        terminated(first + second) == terminated(first) + terminated(second),
    decreases second.len(),
{
    if second.len() == 0 {
        assert(first + second == first);
        assert(terminated(first) + terminated(second) == terminated(first));
    } else {
        assert((first + second).drop_last() == first + second.drop_last());
        assert((first + second).last() == second.last());
        lemma_terminated_concat(first, second.drop_last());
        assert(terminated(first) + terminated(second.drop_last()) + second.last() + seq!['\n']
            == terminated(first) + terminated(second));
    }
}

/// A document without a delimiter line has no metadata, and all its lines
/// are its body, each followed by a line feed.
pub proof fn lemma_no_front_matter(document: Seq<char>)
    requires
        no_delimiter(lines(document)),
    ensures
        entries_of(document) == Seq::<(Seq<char>, Seq<char>)>::empty(),
        as_map(entries_of(document)) == Map::<Seq<char>, Seq<char>>::empty(),
        body_of(document) == terminated(lines(document)),
{
    let none = Seq::<Seq<char>>::empty();
    lemma_plain_lines(none, lines(document));
    assert(none + lines(document) == lines(document));
    assert(body_of_lines(none) + terminated(lines(document)) == terminated(lines(document)));
}

/// The lines of a text without carriage returns, each followed by a line
/// feed, are the text again, with a line feed added if it ends without one.
pub proof fn lemma_terminated_lines(text: Seq<char>)
    requires
        forall|i: int| 0 <= i < text.len() ==> text[i] != '\r',
    ensures
        terminated(lines(text)) == if text.len() == 0 || text.last() == '\n' {
            text
        } else {
            text.push('\n')
        },
    decreases text.len(),
{
    let n = position(text, '\n');
    lemma_position(text, '\n');
    if text.len() == 0 {
    } else if n < text.len() {
        let line = text.take(n);
        let rest = text.skip(n + 1);
        assert(n > 0 ==> line.last() == text[n - 1]);
        assert forall|i: int| 0 <= i < rest.len() implies rest[i] != '\r' by {
            assert(rest[i] == text[i + n + 1]);
        }
        lemma_terminated_lines(rest);
        lemma_terminated_concat(seq![line], lines(rest));
        assert(seq![line].drop_last() == Seq::<Seq<char>>::empty());
        assert(seq![line].last() == line);
        assert(terminated(seq![line].drop_last()) == Seq::<char>::empty());
        assert(terminated(seq![line]) == line + seq!['\n']);
        if rest.len() == 0 {
            assert(text.last() == '\n');
            assert(line + seq!['\n'] + rest == text);
        } else {
            assert(rest.last() == text.last());
            if rest.last() == '\n' {
                assert(line + seq!['\n'] + rest == text);
            } else {
                assert(line + seq!['\n'] + rest.push('\n') == text.push('\n'));
            }
        }
    } else {
        assert(text.last() == text[text.len() - 1]);
        assert(seq![text].drop_last() == Seq::<Seq<char>>::empty());
        assert(seq![text].last() == text);
        assert(terminated(seq![text].drop_last()) == Seq::<char>::empty());
        assert(terminated(seq![text]) == text + seq!['\n']);
        assert(text + seq!['\n'] == text.push('\n'));
    }
}

/// A document with one front-matter block: lines without a delimiter, an
/// opening delimiter, the lines of the block, a closing delimiter, and again
/// lines without a delimiter. Its pairs are those of the lines of the block,
/// its metadata maps each of their keys to the value of the last pair with
/// that key, and its body is the lines before and after the block: no line of
/// the block and neither delimiter is in it.
pub proof fn lemma_one_block(
    document: Seq<char>,
    before: Seq<Seq<char>>,
    opening: Seq<char>,
    block: Seq<Seq<char>>,
    closing: Seq<char>,
    after: Seq<Seq<char>>,
)
    requires
        lines(document) == before.push(opening) + block.push(closing) + after,
        is_delimiter(opening),
        is_delimiter(closing),
        no_delimiter(before),
        no_delimiter(block),
        no_delimiter(after),
    ensures
        pairs_of_lines(lines(document)) == pairs_in(block),
        entries_of(document) == collected(pairs_in(block)),
        as_map(entries_of(document)) == as_map(pairs_in(block)),
        body_of(document) == terminated(before + after),
        body_of(document) == terminated(before) + terminated(after),
{
    let none = Seq::<Seq<char>>::empty();
    let opened = before.push(opening);
    let closed = (opened + block).push(closing);
    lemma_plain_lines(none, before);
    assert(none + before == before);
    lemma_delimiter_line(before, opening);
    lemma_plain_lines(opened, block);
    lemma_delimiter_line(opened + block, closing);
    lemma_plain_lines(closed, after);
    assert(closed + after == lines(document));
    assert(pairs_of_lines(none) + pairs_in(block) == pairs_in(block));
    assert(body_of_lines(none) + terminated(before) == terminated(before));
    lemma_collected(pairs_in(block));
    lemma_terminated_concat(before, after);
}

/// A document whose front-matter block is never closed: lines without a
/// delimiter, an opening delimiter, and then lines without a delimiter. All
/// the lines after the delimiter are front matter and none of them is body.
pub proof fn lemma_unclosed_block(
    document: Seq<char>,
    before: Seq<Seq<char>>,
    opening: Seq<char>,
    block: Seq<Seq<char>>,
)
    requires
        lines(document) == before.push(opening) + block,
        is_delimiter(opening),
        no_delimiter(before),
        no_delimiter(block),
    ensures
        entries_of(document) == collected(pairs_in(block)),
        as_map(entries_of(document)) == as_map(pairs_in(block)),
        body_of(document) == terminated(before),
{
    let none = Seq::<Seq<char>>::empty();
    lemma_plain_lines(none, before);
    assert(none + before == before);
    lemma_delimiter_line(before, opening);
    lemma_plain_lines(before.push(opening), block);
    assert(pairs_of_lines(none) + pairs_in(block) == pairs_in(block));
    assert(body_of_lines(none) + terminated(before) == terminated(before));
    lemma_collected(pairs_in(block));
}

} // verus!
