//! Text primitives over sequences of characters: searching, trimming,
//! splitting into lines and replacing a pattern. Every executable function
//! works on a slice of `char` and is specified by a function on `Seq<char>`.

use vstd::prelude::*;
use vstd::slice::slice_subrange;

verus! {

/// Appends one character to a string.
///
/// Trusted: `String::push` of the standard library, which vstd leaves
/// unspecified. The contract claims what its documentation says: the
/// character is added at the end and nothing else changes.
#[verifier::external_body]
pub(crate) fn push_char(s: &mut String, c: char)
    ensures
        final(s)@ == old(s)@.push(c),
{
    s.push(c)
}

/// The characters of a string, in order.
pub fn to_chars(s: &str) -> (chars: Vec<char>)
    ensures
        chars@ == s@,
{
    let mut chars: Vec<char> = Vec::new();
    for c in it: s.chars()
        invariant
            it.seq() == s@,
            chars@ == it.seq().take(it.index() as int),
    {
        chars.push(c);
    }
    chars
}

/// Appends all of `chars` to `out`.
pub fn append_chars(out: &mut String, chars: &[char])
    ensures
        final(out)@ == old(out)@ + chars@,
{
    let mut i: usize = 0;
    while i < chars.len()
        invariant
            i <= chars.len(),
            out@ == old(out)@ + chars@.take(i as int),
        decreases chars.len() - i,
    {
        push_char(out, chars[i]);
        i += 1;
    }
}

/// The string made of `chars`.
pub fn from_chars(chars: &[char]) -> (s: String)
    ensures
        s@ == chars@,
{
    let mut s = String::new();
    append_chars(&mut s, chars);
    s
}

/// The characters with the Unicode property `White_Space`.
pub open spec fn whitespace(c: char) -> bool {
    ||| '\u{9}' <= c <= '\u{d}'
    ||| c == ' '
    ||| c == '\u{85}'
    ||| c == '\u{a0}'
    ||| c == '\u{1680}'
    ||| '\u{2000}' <= c <= '\u{200a}'
    ||| c == '\u{2028}'
    ||| c == '\u{2029}'
    ||| c == '\u{202f}'
    ||| c == '\u{205f}'
    ||| c == '\u{3000}'
}

/// Whether `c` is a white-space character.
pub fn is_whitespace(c: char) -> (b: bool)
    ensures
        b == whitespace(c),
{
    ('\u{9}' <= c && c <= '\u{d}') || c == ' ' || c == '\u{85}' || c == '\u{a0}' || c == '\u{1680}'
        || ('\u{2000}' <= c && c <= '\u{200a}') || c == '\u{2028}' || c == '\u{2029}' || c
        == '\u{202f}' || c == '\u{205f}' || c == '\u{3000}'
}

/// The index of the first occurrence of `c` in `s`, or `s.len()` if there is none.
pub open spec fn position(s: Seq<char>, c: char) -> int
    decreases s.len(),
{
    if s.len() == 0 || s[0] == c {
        0
    } else {
        1 + position(s.drop_first(), c)
    }
}

/// `position(s, c)` is the least index that holds `c`, and the length of `s` if none does.
pub proof fn lemma_position(s: Seq<char>, c: char)
    ensures
        0 <= position(s, c) <= s.len(),
        forall|k: int| 0 <= k < position(s, c) ==> s[k] != c,
        position(s, c) < s.len() ==> s[position(s, c)] == c,
    decreases s.len(),
{
    if s.len() != 0 && s[0] != c {
        let rest = s.drop_first();
        lemma_position(rest, c);
        assert forall|k: int| 0 <= k < position(s, c) implies s[k] != c by {
            if k > 0 {
                assert(s[k] == rest[k - 1]);
            }
        }
    }
}

/// An index before which `c` does not occur, and which holds `c` or ends `s`, is `position(s, c)`.
pub proof fn lemma_position_unique(s: Seq<char>, c: char, i: int)
    requires
        0 <= i <= s.len(),
        forall|k: int| 0 <= k < i ==> s[k] != c,
        i < s.len() ==> s[i] == c,
    ensures
        position(s, c) == i,
{
    lemma_position(s, c);
}

/// The index of the first `c` in `s`, or the length of `s`.
pub fn find(s: &[char], c: char) -> (i: usize)
    ensures
        i == position(s@, c),
{
    let mut i: usize = 0;
    while i < s.len() && s[i] != c
        invariant
            i <= s.len(),
            forall|k: int| 0 <= k < i ==> s@[k] != c,
        decreases s.len() - i,
    {
        i += 1;
    }
    proof {
        lemma_position_unique(s@, c, i as int);
    }
    i
}

/// The index of the last occurrence of `c` in `s`, or `-1` if there is none.
pub open spec fn last_position(s: Seq<char>, c: char) -> int
    decreases s.len(),
{
    if s.len() == 0 {
        -1
    } else if s.last() == c {
        s.len() - 1
    } else {
        last_position(s.drop_last(), c)
    }
}

/// `last_position(s, c)` is the greatest index that holds `c`, and `-1` if none does.
pub proof fn lemma_last_position(s: Seq<char>, c: char)
    ensures
        -1 <= last_position(s, c) < s.len(),
        forall|k: int| last_position(s, c) < k < s.len() ==> s[k] != c,
        0 <= last_position(s, c) ==> s[last_position(s, c)] == c,
    decreases s.len(),
{
    if s.len() != 0 && s.last() != c {
        let front = s.drop_last();
        lemma_last_position(front, c);
        assert forall|k: int| last_position(s, c) < k < s.len() implies s[k] != c by {
            if k < front.len() {
                assert(s[k] == front[k]);
            }
        }
    }
}

/// The index of the last `c` in `s`, if there is one.
pub fn find_last(s: &[char], c: char) -> (r: Option<usize>)
    ensures
        match r {
            Some(i) => i == last_position(s@, c),
            None => last_position(s@, c) == -1,
        },
{
    let mut end: usize = s.len();
    assert(s@.take(end as int) == s@);
    while end > 0 && s[end - 1] != c
        invariant
            end <= s.len(),
            last_position(s@, c) == last_position(s@.take(end as int), c),
        decreases end,
    {
        assert(s@.take(end as int).drop_last() == s@.take(end as int - 1));
        end -= 1;
    }
    if end > 0 {
        Some(end - 1)
    } else {
        None
    }
}

/// `s` without its leading white space.
pub open spec fn trimmed_start(s: Seq<char>) -> Seq<char>
    decreases s.len(),
{
    if s.len() > 0 && whitespace(s[0]) {
        trimmed_start(s.drop_first())
    } else {
        s
    }
}

/// `s` without its trailing white space.
pub open spec fn trimmed_end(s: Seq<char>) -> Seq<char>
    decreases s.len(),
{
    if s.len() > 0 && whitespace(s.last()) {
        trimmed_end(s.drop_last())
    } else {
        s
    }
}

/// `s` without its leading and trailing white space.
pub open spec fn trimmed(s: Seq<char>) -> Seq<char> {
    trimmed_end(trimmed_start(s))
}

/// What trimming removes and what it leaves: `trimmed(s)` is the part of `s`
/// between the two indices returned; before the first and from the second on
/// `s` holds white space only, and the part, unless empty, begins and ends
/// with a character that is no white space.
pub proof fn lemma_trimmed(s: Seq<char>) -> (bounds: (int, int))
    ensures
        0 <= bounds.0 <= bounds.1 <= s.len(),
        trimmed(s) == s.subrange(bounds.0, bounds.1),
        forall|k: int| 0 <= k < bounds.0 ==> whitespace(s[k]),
        forall|k: int| bounds.1 <= k < s.len() ==> whitespace(s[k]),
        bounds.0 < bounds.1 ==> !whitespace(s[bounds.0]) && !whitespace(s[bounds.1 - 1]),
{
    let start = lemma_trimmed_start(s);
    let rest = s.skip(start);
    let end = lemma_trimmed_end(rest);
    assert(rest.take(end) == s.subrange(start, start + end));
    assert forall|k: int| start + end <= k < s.len() implies whitespace(s[k]) by {
        assert(rest[k - start] == s[k]);
    }
    if end > 0 {
        assert(rest[end - 1] == s[start + end - 1]);
        assert(rest[0] == s[start]);
    }
    (start, start + end)
}

/// The number of leading white-space characters of `s`.
proof fn lemma_trimmed_start(s: Seq<char>) -> (start: int)
    ensures
        0 <= start <= s.len(),
        trimmed_start(s) == s.skip(start),
        forall|k: int| 0 <= k < start ==> whitespace(s[k]),
        start < s.len() ==> !whitespace(s[start]),
    decreases s.len(),
{
    if s.len() > 0 && whitespace(s[0]) {
        let rest = s.drop_first();
        let inner = lemma_trimmed_start(rest);
        assert(rest.skip(inner) == s.skip(inner + 1));
        assert forall|k: int| 0 <= k < inner + 1 implies whitespace(s[k]) by {
            if k > 0 {
                assert(rest[k - 1] == s[k]);
            }
        }
        if inner + 1 < s.len() {
            assert(rest[inner] == s[inner + 1]);
        }
        inner + 1
    } else {
        assert(s.skip(0) == s);
        0
    }
}

/// The length of `s` without its trailing white-space characters. A text
/// that begins with a character that is no white space keeps it.
proof fn lemma_trimmed_end(s: Seq<char>) -> (end: int)
    ensures
        0 <= end <= s.len(),
        trimmed_end(s) == s.take(end),
        forall|k: int| end <= k < s.len() ==> whitespace(s[k]),
        end > 0 ==> !whitespace(s[end - 1]),
        s.len() > 0 && !whitespace(s[0]) ==> end > 0,
    decreases s.len(),
{
    if s.len() > 0 && whitespace(s.last()) {
        let front = s.drop_last();
        let inner = lemma_trimmed_end(front);
        assert(front.take(inner) == s.take(inner));
        assert forall|k: int| inner <= k < s.len() implies whitespace(s[k]) by {
            if k < front.len() {
                assert(front[k] == s[k]);
            }
        }
        if inner > 0 {
            assert(front[inner - 1] == s[inner - 1]);
        }
        if !whitespace(s[0]) {
            assert(front[0] == s[0]);
        }
        inner
    } else {
        assert(s.take(s.len() as int) == s);
        s.len() as int
    }
}

/// The part of `s` between its leading and its trailing white space.
pub fn trim(s: &[char]) -> (r: &[char])
    ensures
        r@ == trimmed(s@),
{
    let mut start: usize = 0;
    assert(s@.skip(0) == s@);
    while start < s.len() && is_whitespace(s[start])
        invariant
            start <= s.len(),
            trimmed_start(s@) == trimmed_start(s@.skip(start as int)),
        decreases s.len() - start,
    {
        assert(s@.skip(start as int).drop_first() == s@.skip(start as int + 1));
        start += 1;
    }
    let mut end: usize = s.len();
    assert(s@.subrange(start as int, end as int) == s@.skip(start as int));
    while start < end && is_whitespace(s[end - 1])
        invariant
            start <= end <= s.len(),
            trimmed(s@) == trimmed_end(s@.subrange(start as int, end as int)),
        decreases end - start,
    {
        assert(s@.subrange(start as int, end as int).drop_last() == s@.subrange(
            start as int,
            end as int - 1,
        ));
        end -= 1;
    }
    slice_subrange(s, start, end)
}

/// Whether `s` begins with `prefix`.
pub fn starts_with(s: &[char], prefix: &[char]) -> (b: bool)
    ensures
        b == prefix@.is_prefix_of(s@),
{
    if s.len() < prefix.len() {
        return false;
    }
    let mut i: usize = 0;
    while i < prefix.len()
        invariant
            i <= prefix.len() <= s.len(),
            prefix@.take(i as int) == s@.take(i as int),
        decreases prefix.len() - i,
    {
        if s[i] != prefix[i] {
            assert(s@.subrange(0, prefix@.len() as int)[i as int] != prefix@[i as int]);
            return false;
        }
        assert(prefix@.take(i as int + 1) == prefix@.take(i as int).push(prefix@[i as int]));
        assert(s@.take(i as int + 1) == s@.take(i as int).push(s@[i as int]));
        i += 1;
    }
    assert(prefix@.take(prefix@.len() as int) == prefix@);
    true
}

/// Whether `s` begins with the characters of `prefix`.
pub fn starts_with_str(s: &[char], prefix: &str) -> (b: bool)
    ensures
        b == prefix@.is_prefix_of(s@),
{
    let mut i: usize = 0;
    for c in it: prefix.chars()
        invariant
            it.seq() == prefix@,
            i == it.index(),
            i <= s.len(),
            prefix@.take(i as int) == s@.take(i as int),
    {
        if i >= s.len() || s[i] != c {
            proof {
                if prefix@.len() <= s@.len() {
                    assert(s@.subrange(0, prefix@.len() as int)[i as int] != prefix@[i as int]);
                }
            }
            return false;
        }
        assert(prefix@.take(i as int + 1) == prefix@.take(i as int).push(prefix@[i as int]));
        assert(s@.take(i as int + 1) == s@.take(i as int).push(s@[i as int]));
        i += 1;
    }
    assert(prefix@.take(prefix@.len() as int) == prefix@);
    true
}

/// `line` without a carriage return at its end.
pub open spec fn without_carriage_return(line: Seq<char>) -> Seq<char> {
    if line.len() > 0 && line.last() == '\r' {
        line.drop_last()
    } else {
        line
    }
}

/// The lines of `text`. A line ends at a line feed, or at the end of the
/// text if characters are left there. The line feed is not part of the line,
/// nor is a carriage return directly before it; one at the end of an
/// unterminated last line stays.
pub open spec fn lines(text: Seq<char>) -> Seq<Seq<char>>
    decreases text.len(),
{
    let n = position(text, '\n');
    if text.len() == 0 {
        Seq::empty()
    } else if 0 <= n < text.len() {
        seq![without_carriage_return(text.take(n))] + lines(text.skip(n + 1))
    } else {
        seq![text]
    }
}

/// No line holds a line feed.
pub proof fn lemma_lines_hold_no_line_feed(text: Seq<char>)
    ensures
        forall|i: int, k: int|
            0 <= i < lines(text).len() && 0 <= k < lines(text)[i].len() ==> lines(text)[i][k]
                != '\n',
    decreases text.len(),
{
    let n = position(text, '\n');
    lemma_position(text, '\n');
    if text.len() > 0 && n < text.len() {
        let first = without_carriage_return(text.take(n));
        let rest = lines(text.skip(n + 1));
        lemma_lines_hold_no_line_feed(text.skip(n + 1));
        assert forall|i: int, k: int|
            0 <= i < lines(text).len() && 0 <= k < lines(text)[i].len() implies lines(text)[i][k]
            != '\n' by {
            if i == 0 {
                assert(lines(text)[0] == first);
                assert(first[k] == text[k]);
            } else {
                assert(lines(text)[i] == rest[i - 1]);
            }
        }
    }
}

/// The contents of a sequence of slices.
pub open spec fn views(slices: Seq<&[char]>) -> Seq<Seq<char>> {
    slices.map_values(|s: &[char]| s@)
}

/// The lines of `text`, each a part of it.
pub fn split_lines<'a>(text: &'a [char]) -> (out: Vec<&'a [char]>)
    ensures
        views(out@) == lines(text@),
{
    let mut out: Vec<&[char]> = Vec::new();
    let mut start: usize = 0;
    assert(text@.skip(0) == text@);
    while start < text.len()
        invariant
            start <= text.len(),
            views(out@) + lines(text@.skip(start as int)) == lines(text@),
        decreases text.len() - start,
    {
        let rest = slice_subrange(text, start, text.len());
        let n = find(rest, '\n');
        let ghost before = out@;
        proof {
            lemma_position(rest@, '\n');
            assert(rest@ == text@.skip(start as int));
        }
        if n < rest.len() {
            let end = if n > 0 && rest[n - 1] == '\r' {
                n - 1
            } else {
                n
            };
            let line = slice_subrange(rest, 0, end);
            out.push(line);
            proof {
                assert(line@ == without_carriage_return(rest@.take(n as int)));
                assert(rest@.skip(n as int + 1) == text@.skip(start as int + n as int + 1));
                assert(views(out@) == views(before).push(line@));
                assert(views(out@) + lines(text@.skip(start as int + n as int + 1)) == views(before)
                    + lines(rest@));
            }
            start = start + n + 1;
        } else {
            out.push(rest);
            proof {
                assert(views(out@) == views(before).push(rest@));
                assert(text@.skip(text@.len() as int).len() == 0);
                assert(views(out@) + lines(text@.skip(text@.len() as int)) == views(before)
                    + lines(rest@));
            }
            start = text.len();
        }
    }
    assert(text@.skip(start as int).len() == 0);
    out
}

/// `text` with each occurrence of `pattern` replaced by `with`. The
/// occurrences are found from left to right and do not overlap. An empty
/// pattern occurs before each character and at the end.
pub open spec fn replaced(text: Seq<char>, pattern: Seq<char>, with: Seq<char>) -> Seq<char>
    decreases text.len(),
{
    if pattern.len() == 0 {
        if text.len() == 0 {
            with
        } else {
            with + seq![text[0]] + replaced(text.skip(1), pattern, with)
        }
    } else if pattern.is_prefix_of(text) {
        with + replaced(text.skip(pattern.len() as int), pattern, with)
    } else if text.len() == 0 {
        text
    } else {
        seq![text[0]] + replaced(text.skip(1), pattern, with)
    }
}

/// Whether `pattern` stands in `text` at index `at`.
pub open spec fn occurs_at(text: Seq<char>, pattern: Seq<char>, at: int) -> bool {
    0 <= at && at + pattern.len() <= text.len() && text.subrange(at, at + pattern.len()) == pattern
}

/// Whether `pattern` stands somewhere in `text`.
pub open spec fn occurs_in(text: Seq<char>, pattern: Seq<char>) -> bool {
    exists|at: int| occurs_at(text, pattern, at)
}

/// Where no occurrence of the pattern begins before index `n`, the first
/// `n` characters of the text are copied.
pub proof fn lemma_replaced_after_prefix(
    text: Seq<char>,
    pattern: Seq<char>,
    with: Seq<char>,
    n: int,
)
    requires
        pattern.len() > 0,
        0 <= n <= text.len(),
        forall|j: int| occurs_at(text, pattern, j) ==> n <= j,
    ensures
        replaced(text, pattern, with) == text.take(n) + replaced(text.skip(n), pattern, with),
    decreases n,
{
    if n == 0 {
        assert(text.skip(0) == text);
        assert(text.take(0) + replaced(text, pattern, with) == replaced(text, pattern, with));
    } else {
        if pattern.is_prefix_of(text) {
            assert(occurs_at(text, pattern, 0));
        }
        let rest = text.skip(1);
        assert forall|j: int| occurs_at(rest, pattern, j) implies n - 1 <= j by {
            assert(rest.subrange(j, j + pattern.len()) == text.subrange(j + 1, j + 1 + pattern.len()));
            assert(occurs_at(text, pattern, j + 1));
        }
        lemma_replaced_after_prefix(rest, pattern, with, n - 1);
        assert(rest.skip(n - 1) == text.skip(n));
        assert(seq![text[0]] + rest.take(n - 1) == text.take(n));
        assert(seq![text[0]] + (rest.take(n - 1) + replaced(text.skip(n), pattern, with)) == text.take(
            n,
        ) + replaced(text.skip(n), pattern, with));
    }
}

/// Replacing a pattern that does not occur changes nothing.
pub proof fn lemma_replaced_absent(text: Seq<char>, pattern: Seq<char>, with: Seq<char>)
    requires
        pattern.len() > 0,
        !occurs_in(text, pattern),
    ensures
        replaced(text, pattern, with) == text,
{
    lemma_replaced_after_prefix(text, pattern, with, text.len() as int);
    assert(text.take(text.len() as int) == text);
    assert(text.skip(text.len() as int).len() == 0);
    assert(text + text.skip(text.len() as int) == text);
}

/// A part of the text that no occurrence of the pattern touches is still
/// there after the replacement.
pub proof fn lemma_replaced_keeps(
    text: Seq<char>,
    pattern: Seq<char>,
    with: Seq<char>,
    kept: Seq<char>,
    at: int,
)
    requires
        pattern.len() > 0,
        occurs_at(text, kept, at),
        forall|j: int|
            occurs_at(text, pattern, j) ==> j + pattern.len() <= at || at + kept.len() <= j,
    ensures
        occurs_in(replaced(text, pattern, with), kept),
    decreases text.len(),
{
    let result = replaced(text, pattern, with);
    if kept.len() == 0 {
        assert(result.subrange(0, 0) == kept);
        assert(occurs_at(result, kept, 0));
    } else if pattern.is_prefix_of(text) {
        let m = pattern.len() as int;
        let rest = text.skip(m);
        assert(occurs_at(text, pattern, 0));
        assert(m <= at);
        assert(rest.subrange(at - m, at - m + kept.len()) == text.subrange(at, at + kept.len()));
        assert forall|j: int| occurs_at(rest, pattern, j) implies j + pattern.len() <= at - m || at
            - m + kept.len() <= j by {
            assert(rest.subrange(j, j + pattern.len()) == text.subrange(j + m, j + m + pattern.len()));
            assert(occurs_at(text, pattern, j + m));
        }
        lemma_replaced_keeps(rest, pattern, with, kept, at - m);
        let k = choose|k: int| occurs_at(replaced(rest, pattern, with), kept, k);
        assert(result.subrange(with.len() + k, with.len() + k + kept.len()) == replaced(
            rest,
            pattern,
            with,
        ).subrange(k, k + kept.len()));
        assert(occurs_at(result, kept, with.len() + k));
    } else if at == 0 {
        let n = kept.len() as int;
        assert forall|j: int| occurs_at(text, pattern, j) implies n <= j by {}
        lemma_replaced_after_prefix(text, pattern, with, n);
        assert(text.take(n) == kept);
        assert(result.subrange(0, n) == kept);
        assert(occurs_at(result, kept, 0));
    } else {
        let rest = text.skip(1);
        assert(rest.subrange(at - 1, at - 1 + kept.len()) == text.subrange(at, at + kept.len()));
        assert forall|j: int| occurs_at(rest, pattern, j) implies j + pattern.len() <= at - 1 || at
            - 1 + kept.len() <= j by {
            assert(rest.subrange(j, j + pattern.len()) == text.subrange(j + 1, j + 1 + pattern.len()));
            assert(occurs_at(text, pattern, j + 1));
        }
        lemma_replaced_keeps(rest, pattern, with, kept, at - 1);
        let k = choose|k: int| occurs_at(replaced(rest, pattern, with), kept, k);
        assert(result.subrange(1 + k, 1 + k + kept.len()) == replaced(rest, pattern, with).subrange(
            k,
            k + kept.len(),
        ));
        assert(occurs_at(result, kept, 1 + k));
    }
}

/// A copy of `text` in which `with` stands for each occurrence of `pattern`.
pub fn replace_all(text: &[char], pattern: &[char], with: &[char]) -> (out: Vec<char>)
    ensures
        out@ == replaced(text@, pattern@, with@),
{
    let mut out: Vec<char> = Vec::new();
    let mut i: usize = 0;
    assert(text@.skip(0) == text@);
    while i < text.len()
        invariant
            i <= text.len(),
            out@ + replaced(text@.skip(i as int), pattern@, with@) == replaced(
                text@,
                pattern@,
                with@,
            ),
        decreases text.len() - i,
    {
        let rest = slice_subrange(text, i, text.len());
        let ghost before = out@;
        assert(rest@ == text@.skip(i as int));
        if pattern.len() > 0 && starts_with(rest, pattern) {
            append(&mut out, with);
            proof {
                assert(rest@.skip(pattern@.len() as int) == text@.skip(i as int + pattern@.len()));
                assert(out@ + replaced(text@.skip(i as int + pattern@.len()), pattern@, with@)
                    == before + replaced(rest@, pattern@, with@));
            }
            i += pattern.len();
        } else {
            if pattern.len() == 0 {
                append(&mut out, with);
            }
            out.push(text[i]);
            proof {
                assert(rest@.skip(1) == text@.skip(i as int + 1));
                assert(rest@[0] == text@[i as int]);
                assert(out@ + replaced(text@.skip(i as int + 1), pattern@, with@) == before
                    + replaced(rest@, pattern@, with@));
            }
            i += 1;
        }
    }
    assert(text@.skip(i as int).len() == 0);
    if pattern.len() == 0 {
        append(&mut out, with);
    }
    out
}

/// Appends all of `chars` to `out`.
pub fn append(out: &mut Vec<char>, chars: &[char])
    ensures
        final(out)@ == old(out)@ + chars@,
{
    let mut i: usize = 0;
    while i < chars.len()
        invariant
            i <= chars.len(),
            out@ == old(out)@ + chars@.take(i as int),
        decreases chars.len() - i,
    {
        out.push(chars[i]);
        i += 1;
    }
}

} // verus!
