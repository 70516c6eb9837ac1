//! When the order of the metadata does not matter.
//!
//! The entries of the metadata are substituted one after the other, and in
//! general the page depends on their order: a value may hold the placeholder
//! of a later key, or complete one together with the text around it. For a
//! tidy template, keys without braces and values without an opening brace,
//! the page is the same in every order: it depends on the map from keys to
//! values alone.

use crate::metadata::{as_map, distinct_keys, has_key, lemma_as_map};
use crate::template::{
    brace_free, lemma_occurrences_apart, lemma_placeholder_char, lemma_placeholder_length,
    placeholder, rendered, substituted,
};
use crate::text::{lemma_replaced_after_prefix, occurs_at, replaced};
use vstd::prelude::*;

verus! {

/// Whether `value` holds no opening brace.
pub open spec fn opens_nothing(value: Seq<char>) -> bool {
    forall|i: int| 0 <= i < value.len() ==> value[i] != '{'
}

/// Whether index `i` of `text` lies in a placeholder of a name without braces.
pub open spec fn covered(text: Seq<char>, i: int) -> bool {
    exists|name: Seq<char>, at: int|
        brace_free(name) && #[trigger] occurs_at(text, placeholder(name), at) && at <= i < at
            + placeholder(name).len()
}

/// Whether every opening brace of `text` belongs to a placeholder of a name
/// without braces: a template is tidy if it uses opening braces for
/// placeholders only.
pub open spec fn tidy(text: Seq<char>) -> bool {
    forall|i: int| 0 <= i < text.len() && text[i] == '{' ==> #[trigger] covered(text, i)
}

/// A tidy text that begins with an opening brace begins with a placeholder
/// of a name without braces; the name is returned.
pub proof fn lemma_tidy_start(text: Seq<char>) -> (name: Seq<char>)
    requires
        tidy(text),
        text.len() > 0,
        text[0] == '{',
    ensures
        brace_free(name),
        occurs_at(text, placeholder(name), 0),
{
    assert(covered(text, 0));
    let (name, at) = choose|name: Seq<char>, at: int|
        brace_free(name) && #[trigger] occurs_at(text, placeholder(name), at) && at <= 0 < at
            + placeholder(name).len();
    name
}

/// What follows the first character of a tidy text is tidy, if that
/// character is no opening brace.
pub proof fn lemma_tidy_after_char(text: Seq<char>)
    requires
        tidy(text),
        text.len() > 0,
        text[0] != '{',
    ensures
        tidy(text.skip(1)),
{
    let rest = text.skip(1);
    assert forall|i: int| 0 <= i < rest.len() && rest[i] == '{' implies #[trigger] covered(
        rest,
        i,
    ) by {
        assert(text[i + 1] == rest[i]);
        assert(covered(text, i + 1));
        let (name, at) = choose|name: Seq<char>, at: int|
            brace_free(name) && #[trigger] occurs_at(text, placeholder(name), at) && at <= i + 1
                < at + placeholder(name).len();
        lemma_placeholder_char(text, name, at, at);
        assert(at >= 1);
        assert(rest.subrange(at - 1, at - 1 + placeholder(name).len()) == text.subrange(
            at,
            at + placeholder(name).len(),
        ));
        assert(occurs_at(rest, placeholder(name), at - 1));
    }
}

/// What follows a placeholder at the beginning of a tidy text is tidy.
pub proof fn lemma_tidy_after_placeholder(text: Seq<char>, name: Seq<char>)
    requires
        tidy(text),
        brace_free(name),
        occurs_at(text, placeholder(name), 0),
    ensures
        tidy(text.skip(placeholder(name).len() as int)),
{
    let m = placeholder(name).len() as int;
    let rest = text.skip(m);
    assert forall|i: int| 0 <= i < rest.len() && rest[i] == '{' implies #[trigger] covered(
        rest,
        i,
    ) by {
        assert(text[i + m] == rest[i]);
        assert(covered(text, i + m));
        let (other, at) = choose|other: Seq<char>, at: int|
            brace_free(other) && #[trigger] occurs_at(text, placeholder(other), at) && at <= i + m
                < at + placeholder(other).len();
        lemma_occurrences_apart(text, name, other, 0, at);
        lemma_placeholder_length(other);
        assert(at >= m);
        assert(rest.subrange(at - m, at - m + placeholder(other).len()) == text.subrange(
            at,
            at + placeholder(other).len(),
        ));
        assert(occurs_at(rest, placeholder(other), at - m));
    }
}

/// A tidy text stays tidy when a text without opening braces is put before it.
pub proof fn lemma_tidy_behind_plain(plain: Seq<char>, text: Seq<char>)
    requires
        opens_nothing(plain),
        tidy(text),
    ensures
        tidy(plain + text),
{
    let whole = plain + text;
    let m = plain.len() as int;
    assert forall|i: int| 0 <= i < whole.len() && whole[i] == '{' implies #[trigger] covered(
        whole,
        i,
    ) by {
        assert(i >= m);
        assert(text[i - m] == whole[i]);
        assert(covered(text, i - m));
        let (name, at) = choose|name: Seq<char>, at: int|
            brace_free(name) && #[trigger] occurs_at(text, placeholder(name), at) && at <= i - m
                < at + placeholder(name).len();
        assert(whole.subrange(at + m, at + m + placeholder(name).len()) == text.subrange(
            at,
            at + placeholder(name).len(),
        ));
        assert(occurs_at(whole, placeholder(name), at + m));
    }
}

/// A tidy text stays tidy when a placeholder of a name without braces is put before it.
pub proof fn lemma_tidy_behind_placeholder(name: Seq<char>, text: Seq<char>)
    requires
        brace_free(name),
        tidy(text),
    ensures
        tidy(placeholder(name) + text),
{
    let whole = placeholder(name) + text;
    let m = placeholder(name).len() as int;
    assert(whole.subrange(0, m) == placeholder(name));
    assert(occurs_at(whole, placeholder(name), 0));
    assert forall|i: int| 0 <= i < whole.len() && whole[i] == '{' implies #[trigger] covered(
        whole,
        i,
    ) by {
        if i >= m {
            assert(text[i - m] == whole[i]);
            assert(covered(text, i - m));
            let (other, at) = choose|other: Seq<char>, at: int|
                brace_free(other) && #[trigger] occurs_at(text, placeholder(other), at) && at <= i
                    - m < at + placeholder(other).len();
            assert(whole.subrange(at + m, at + m + placeholder(other).len()) == text.subrange(
                at,
                at + placeholder(other).len(),
            ));
            assert(occurs_at(whole, placeholder(other), at + m));
        }
    }
}

/// A text without opening braces before another is copied when a placeholder is replaced.
pub proof fn lemma_replaced_behind_plain(
    plain: Seq<char>,
    text: Seq<char>,
    name: Seq<char>,
    with: Seq<char>,
)
    requires
        opens_nothing(plain),
    ensures
        replaced(plain + text, placeholder(name), with) == plain + replaced(
            text,
            placeholder(name),
            with,
        ),
{
    reveal_strlit("{{ ");
    let whole = plain + text;
    let pattern = placeholder(name);
    let m = plain.len() as int;
    lemma_placeholder_length(name);
    assert forall|j: int| occurs_at(whole, pattern, j) implies m <= j by {
        if j < m {
            assert(whole.subrange(j, j + pattern.len())[0] == whole[j]);
            assert(pattern[0] == '{');
            assert(whole[j] == plain[j]);
        }
    }
    lemma_replaced_after_prefix(whole, pattern, with, m);
    assert(whole.take(m) == plain);
    assert(whole.skip(m) == text);
}

/// The placeholder of one name before a text is copied when the placeholder
/// of another name is replaced.
pub proof fn lemma_replaced_behind_placeholder(
    other: Seq<char>,
    text: Seq<char>,
    name: Seq<char>,
    with: Seq<char>,
)
    requires
        brace_free(other),
        brace_free(name),
        other != name,
    ensures
        replaced(placeholder(other) + text, placeholder(name), with) == placeholder(other)
            + replaced(text, placeholder(name), with),
{
    let whole = placeholder(other) + text;
    let pattern = placeholder(name);
    let m = placeholder(other).len() as int;
    lemma_placeholder_length(name);
    lemma_placeholder_length(other);
    assert(whole.subrange(0, m) == placeholder(other));
    assert(occurs_at(whole, placeholder(other), 0));
    assert forall|j: int| occurs_at(whole, pattern, j) implies m <= j by {
        lemma_occurrences_apart(whole, other, name, 0, j);
    }
    lemma_replaced_after_prefix(whole, pattern, with, m);
    assert(whole.take(m) == placeholder(other));
    assert(whole.skip(m) == text);
}

/// The placeholder that is replaced, before a text, becomes its value.
pub proof fn lemma_replaced_at_start(text: Seq<char>, name: Seq<char>, with: Seq<char>)
    ensures
        replaced(placeholder(name) + text, placeholder(name), with) == with + replaced(
            text,
            placeholder(name),
            with,
        ),
{
    let whole = placeholder(name) + text;
    let m = placeholder(name).len() as int;
    lemma_placeholder_length(name);
    assert(whole.subrange(0, m) == placeholder(name));
    assert(whole.skip(m) == text);
}

/// How a tidy text begins: it is empty, or begins with a character that is
/// no opening brace, or with the placeholder of a name without braces.
pub enum Start {
    /// The text is empty.
    Nothing,
    /// The text begins with a character that is no opening brace.
    Plain,
    /// The text begins with the placeholder of this name.
    Placeholder(Seq<char>),
}

/// The way a tidy text begins, and what follows: the text is its beginning
/// put before a tidy rest.
pub proof fn lemma_tidy_split(text: Seq<char>) -> (start: Start)
    requires
        tidy(text),
    ensures
        match start {
            Start::Nothing => text.len() == 0,
            Start::Plain => text.len() > 0 && text[0] != '{' && tidy(text.skip(1)) && text
                == seq![text[0]] + text.skip(1),
            Start::Placeholder(name) => brace_free(name) && placeholder(name).len() <= text.len()
                && tidy(text.skip(placeholder(name).len() as int)) && text == placeholder(name)
                + text.skip(placeholder(name).len() as int),
        },
{
    if text.len() == 0 {
        Start::Nothing
    } else if text[0] != '{' {
        lemma_tidy_after_char(text);
        assert(text == seq![text[0]] + text.skip(1));
        Start::Plain
    } else {
        let name = lemma_tidy_start(text);
        lemma_tidy_after_placeholder(text, name);
        let m = placeholder(name).len() as int;
        assert(text == text.subrange(0, m) + text.skip(m));
        Start::Placeholder(name)
    }
}

/// Replacing a placeholder by a value without opening braces keeps a text tidy.
pub proof fn lemma_replaced_tidy(text: Seq<char>, name: Seq<char>, with: Seq<char>)
    requires
        tidy(text),
        brace_free(name),
        opens_nothing(with),
    ensures
        tidy(replaced(text, placeholder(name), with)),
    decreases text.len(),
{
    lemma_placeholder_length(name);
    match lemma_tidy_split(text) {
        Start::Nothing => {},
        Start::Plain => {
            let rest = text.skip(1);
            lemma_replaced_tidy(rest, name, with);
            lemma_replaced_behind_plain(seq![text[0]], rest, name, with);
            lemma_tidy_behind_plain(seq![text[0]], replaced(rest, placeholder(name), with));
        },
        Start::Placeholder(other) => {
            let rest = text.skip(placeholder(other).len() as int);
            lemma_placeholder_length(other);
            lemma_replaced_tidy(rest, name, with);
            let after = replaced(rest, placeholder(name), with);
            if other == name {
                lemma_replaced_at_start(rest, name, with);
                lemma_tidy_behind_plain(with, after);
            } else {
                lemma_replaced_behind_placeholder(other, rest, name, with);
                lemma_tidy_behind_placeholder(other, after);
            }
        },
    }
}

/// In a tidy text two placeholders of different names without braces can be
/// replaced in either order, if neither value holds an opening brace.
pub proof fn lemma_replacements_commute(
    text: Seq<char>,
    first: Seq<char>,
    with_first: Seq<char>,
    second: Seq<char>,
    with_second: Seq<char>,
)
    requires
        tidy(text),
        brace_free(first),
        brace_free(second),
        first != second,
        opens_nothing(with_first),
        opens_nothing(with_second),
    ensures
        replaced(replaced(text, placeholder(first), with_first), placeholder(second), with_second)
            == replaced(
            replaced(text, placeholder(second), with_second),
            placeholder(first),
            with_first,
        ),
    decreases text.len(),
{
    let p = placeholder(first);
    let q = placeholder(second);
    lemma_placeholder_length(first);
    lemma_placeholder_length(second);
    match lemma_tidy_split(text) {
        Start::Nothing => {},
        Start::Plain => {
            let c = seq![text[0]];
            let rest = text.skip(1);
            lemma_replacements_commute(rest, first, with_first, second, with_second);
            lemma_replaced_behind_plain(c, rest, first, with_first);
            lemma_replaced_behind_plain(c, replaced(rest, p, with_first), second, with_second);
            lemma_replaced_behind_plain(c, rest, second, with_second);
            lemma_replaced_behind_plain(c, replaced(rest, q, with_second), first, with_first);
        },
        Start::Placeholder(other) => {
            let rest = text.skip(placeholder(other).len() as int);
            lemma_placeholder_length(other);
            lemma_replacements_commute(rest, first, with_first, second, with_second);
            if other == first {
                lemma_replaced_at_start(rest, first, with_first);
                lemma_replaced_behind_plain(
                    with_first,
                    replaced(rest, p, with_first),
                    second,
                    with_second,
                );
                lemma_replaced_behind_placeholder(first, rest, second, with_second);
                lemma_replaced_at_start(replaced(rest, q, with_second), first, with_first);
            } else if other == second {
                lemma_replaced_behind_placeholder(second, rest, first, with_first);
                lemma_replaced_at_start(replaced(rest, p, with_first), second, with_second);
                lemma_replaced_at_start(rest, second, with_second);
                lemma_replaced_behind_plain(
                    with_second,
                    replaced(rest, q, with_second),
                    first,
                    with_first,
                );
            } else {
                lemma_replaced_behind_placeholder(other, rest, first, with_first);
                lemma_replaced_behind_placeholder(
                    other,
                    replaced(rest, p, with_first),
                    second,
                    with_second,
                );
                lemma_replaced_behind_placeholder(other, rest, second, with_second);
                lemma_replaced_behind_placeholder(
                    other,
                    replaced(rest, q, with_second),
                    first,
                    with_first,
                );
            }
        },
    }
}

/// Whether no key of `entries` holds a brace and no value an opening brace.
pub open spec fn plain_entries(entries: Seq<(Seq<char>, Seq<char>)>) -> bool {
    forall|i: int|
        #![trigger entries[i]]
        0 <= i < entries.len() ==> brace_free(entries[i].0) && opens_nothing(entries[i].1)
}

/// `entries` with those at `k` and at `k + 1` in each other's place.
pub open spec fn swapped(entries: Seq<(Seq<char>, Seq<char>)>, k: int) -> Seq<
    (Seq<char>, Seq<char>),
> {
    entries.update(k, entries[k + 1]).update(k + 1, entries[k])
}

/// Substituting plain entries keeps a text tidy.
pub proof fn lemma_substituted_tidy(text: Seq<char>, entries: Seq<(Seq<char>, Seq<char>)>)
    requires
        tidy(text),
        plain_entries(entries),
    ensures
        tidy(substituted(text, entries)),
    decreases entries.len(),
{
    if entries.len() > 0 {
        let front = entries.drop_last();
        assert forall|i: int| #![trigger front[i]] 0 <= i < front.len() implies brace_free(
            front[i].0,
        ) && opens_nothing(front[i].1) by {
            assert(front[i] == entries[i]);
        }
        lemma_substituted_tidy(text, front);
        let last = entries[entries.len() - 1];
        lemma_replaced_tidy(substituted(text, front), last.0, last.1);
    }
}

/// Two neighbours among the entries can change places.
pub proof fn lemma_swap_neighbours(
    text: Seq<char>,
    entries: Seq<(Seq<char>, Seq<char>)>,
    k: int,
)
    requires
        tidy(text),
        plain_entries(entries),
        0 <= k,
        k + 1 < entries.len(),
        entries[k].0 != entries[k + 1].0,
    ensures
        substituted(text, swapped(entries, k)) == substituted(text, entries),
    decreases entries.len(),
{
    let other = swapped(entries, k);
    let front = entries.drop_last();
    assert forall|i: int| #![trigger front[i]] 0 <= i < front.len() implies brace_free(front[i].0)
        && opens_nothing(front[i].1) by {
        assert(front[i] == entries[i]);
    }
    if k + 2 == entries.len() {
        let before = entries.take(k);
        assert(front.drop_last() == before);
        assert(other.drop_last().drop_last() == before);
        assert(front.last() == entries[k]);
        assert(other.drop_last().last() == entries[k + 1]);
        assert(other.last() == entries[k]);
        assert forall|i: int| #![trigger before[i]] 0 <= i < before.len() implies brace_free(
            before[i].0,
        ) && opens_nothing(before[i].1) by {
            assert(before[i] == entries[i]);
        }
        lemma_substituted_tidy(text, before);
        let inner = substituted(text, before);
        lemma_replacements_commute(
            inner,
            entries[k].0,
            entries[k].1,
            entries[k + 1].0,
            entries[k + 1].1,
        );
        assert(entries.last() == entries[k + 1]);
        assert(substituted(text, front) == replaced(
            inner,
            placeholder(entries[k].0),
            entries[k].1,
        ));
        assert(substituted(text, other.drop_last()) == replaced(
            inner,
            placeholder(entries[k + 1].0),
            entries[k + 1].1,
        ));
    } else {
        assert(other.drop_last() == swapped(front, k));
        assert(other.last() == entries.last());
        assert(front[k] == entries[k] && front[k + 1] == entries[k + 1]);
        lemma_swap_neighbours(text, front, k);
    }
}

/// An entry can be taken from its place and put at the end.
pub proof fn lemma_move_to_end(text: Seq<char>, entries: Seq<(Seq<char>, Seq<char>)>, k: int)
    requires
        tidy(text),
        plain_entries(entries),
        distinct_keys(entries),
        0 <= k < entries.len(),
    ensures
        substituted(text, entries.remove(k).push(entries[k])) == substituted(text, entries),
    decreases entries.len() - k,
{
    if k + 1 == entries.len() {
        assert(entries.remove(k).push(entries[k]) == entries);
    } else {
        let other = swapped(entries, k);
        lemma_swap_neighbours(text, entries, k);
        assert forall|i: int| #![trigger other[i]] 0 <= i < other.len() implies brace_free(
            other[i].0,
        ) && opens_nothing(other[i].1) by {
            if i == k {
                assert(other[i] == entries[k + 1]);
            } else if i == k + 1 {
                assert(other[i] == entries[k]);
            } else {
                assert(other[i] == entries[i]);
            }
        }
        assert forall|i: int, j: int| 0 <= i < j < other.len() implies other[i].0 != other[j].0 by {
            let a = if i == k {
                k + 1
            } else if i == k + 1 {
                k
            } else {
                i
            };
            let b = if j == k {
                k + 1
            } else if j == k + 1 {
                k
            } else {
                j
            };
            assert(other[i] == entries[a] && other[j] == entries[b]);
            if a < b {
                assert(entries[a].0 != entries[b].0);
            } else {
                assert(entries[b].0 != entries[a].0);
            }
        }
        lemma_move_to_end(text, other, k + 1);
        assert(other.remove(k + 1).push(other[k + 1]) == entries.remove(k).push(entries[k]));
    }
}

/// Without the entry at `k`, entries with distinct keys stand for the map without that entry's key.
pub proof fn lemma_as_map_remove(entries: Seq<(Seq<char>, Seq<char>)>, k: int)
    requires
        distinct_keys(entries),
        0 <= k < entries.len(),
    ensures
        distinct_keys(entries.remove(k)),
        as_map(entries.remove(k)) == as_map(entries).remove(entries[k].0),
{
    let rest = entries.remove(k);
    let expected = as_map(entries).remove(entries[k].0);
    assert forall|i: int, j: int| 0 <= i < j < rest.len() implies rest[i].0 != rest[j].0 by {
        let a = if i < k {
            i
        } else {
            i + 1
        };
        let b = if j < k {
            j
        } else {
            j + 1
        };
        assert(rest[i] == entries[a] && rest[j] == entries[b]);
    }
    lemma_as_map(entries);
    lemma_as_map(rest);
    assert forall|key: Seq<char>| as_map(rest).contains_key(key) <==> expected.contains_key(
        key,
    ) by {
        if has_key(rest, key) {
            let i = choose|i: int| 0 <= i < rest.len() && #[trigger] rest[i].0 == key;
            let a = if i < k {
                i
            } else {
                i + 1
            };
            assert(rest[i] == entries[a]);
            assert(entries[a].0 == key);
            if a < k {
                assert(entries[a].0 != entries[k].0);
            } else {
                assert(entries[k].0 != entries[a].0);
            }
        }
        if has_key(entries, key) && key != entries[k].0 {
            let a = choose|a: int| 0 <= a < entries.len() && #[trigger] entries[a].0 == key;
            let i = if a < k {
                a
            } else {
                a - 1
            };
            assert(rest[i] == entries[a]);
            assert(rest[i].0 == key);
        }
    }
    assert forall|key: Seq<char>| as_map(rest).contains_key(key) implies as_map(rest)[key]
        == expected[key] by {
        let i = choose|i: int| 0 <= i < rest.len() && #[trigger] rest[i].0 == key;
        let a = if i < k {
            i
        } else {
            i + 1
        };
        assert(rest[i] == entries[a]);
        assert(as_map(rest)[rest[i].0] == rest[i].1);
        assert(as_map(entries)[entries[a].0] == entries[a].1);
    }
    assert(as_map(rest) =~= expected);
}

/// The text that the substitution leaves depends on the map of the entries
/// alone: entries with distinct keys that stand for the same map can come in
/// any order, if the text is tidy, no key holds a brace and no value an
/// opening brace.
pub proof fn lemma_substituted_by_map(
    text: Seq<char>,
    entries: Seq<(Seq<char>, Seq<char>)>,
    other: Seq<(Seq<char>, Seq<char>)>,
)
    requires
        tidy(text),
        plain_entries(entries),
        distinct_keys(entries),
        distinct_keys(other),
        as_map(entries) == as_map(other),
    ensures
        substituted(text, entries) == substituted(text, other),
    decreases other.len(),
{
    lemma_as_map(entries);
    lemma_as_map(other);
    if other.len() == 0 {
        if entries.len() > 0 {
            assert(entries[0].0 == entries[0].0);
            assert(has_key(entries, entries[0].0));
            assert(as_map(entries).contains_key(entries[0].0));
        }
    } else {
        let last = other[other.len() - 1];
        assert(other[other.len() - 1].0 == last.0);
        assert(has_key(other, last.0));
        assert(as_map(other).contains_key(last.0));
        assert(has_key(entries, last.0));
        let k = choose|k: int| 0 <= k < entries.len() && #[trigger] entries[k].0 == last.0;
        assert(as_map(entries)[entries[k].0] == entries[k].1);
        assert(as_map(other)[other[other.len() - 1].0] == other[other.len() - 1].1);
        assert(entries[k] == last);
        let rest = entries.remove(k);
        let front = other.drop_last();
        lemma_as_map_remove(entries, k);
        assert(front == other.remove(other.len() - 1));
        lemma_as_map_remove(other, other.len() - 1);
        assert forall|i: int| #![trigger rest[i]] 0 <= i < rest.len() implies brace_free(rest[i].0)
            && opens_nothing(rest[i].1) by {
            let a = if i < k {
                i
            } else {
                i + 1
            };
            assert(rest[i] == entries[a]);
        }
        lemma_substituted_by_map(text, rest, front);
        lemma_move_to_end(text, entries, k);
        assert(rest.push(last).drop_last() == rest);
        assert(rest.push(last).last() == last);
    }
}

/// The page depends on the map of the metadata alone, and not on the order
/// of its entries, if the template is tidy, no key holds a brace and no value
/// an opening brace.
pub proof fn lemma_page_by_map(
    template: Seq<char>,
    entries: Seq<(Seq<char>, Seq<char>)>,
    other: Seq<(Seq<char>, Seq<char>)>,
    content: Seq<char>,
)
    requires
        tidy(template),
        plain_entries(entries),
        distinct_keys(entries),
        distinct_keys(other),
        as_map(entries) == as_map(other),
    ensures
        rendered(template, entries, content) == rendered(template, other, content),
{
    lemma_substituted_by_map(template, entries, other);
}

} // verus!
