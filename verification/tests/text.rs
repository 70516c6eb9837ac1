use sitegen::text::{
    append, append_chars, find, find_last, from_chars, is_whitespace, replace_all, split_lines,
    starts_with, to_chars, trim,
};

fn chars(s: &str) -> Vec<char> {
    s.chars().collect()
}

fn text(c: &[char]) -> String {
    c.iter().collect()
}

const SAMPLES: [&str; 24] = [
    "",
    " ",
    "a",
    "abc",
    "  abc  ",
    "\t\n abc \r\n",
    "a b c",
    " \u{a0}\u{2003}x\u{3000}\u{85}",
    "\u{200b}x\u{200b}",
    "line one\nline two\n",
    "line one\nline two",
    "\n",
    "\n\n",
    "a\r\nb\r\n",
    "a\rb\n",
    "a\r",
    "\r\n",
    "\r",
    "a\n\r\nb",
    "x\r\r\ny",
    "{{ a }}{{ a }}",
    "aaaa",
    "日本語\nテキスト\r\n",
    "---\ntitle: x\n---\n",
];

#[test]
fn to_chars_and_back() {
    for s in SAMPLES {
        let c = to_chars(s);
        assert_eq!(c, chars(s));
        assert_eq!(from_chars(&c), s);
    }
}

#[test]
fn from_chars_builds_the_string() {
    assert_eq!(from_chars(&['h', 'é', '!']), "hé!");
    assert_eq!(from_chars(&[]), "");
}

#[test]
fn append_chars_extends_the_string() {
    let mut s = String::from("ab");
    append_chars(&mut s, &['c', 'd']);
    assert_eq!(s, "abcd");
    append_chars(&mut s, &[]);
    assert_eq!(s, "abcd");
}

#[test]
fn append_extends_the_vector() {
    let mut v = vec!['a'];
    append(&mut v, &['b', 'c']);
    assert_eq!(v, vec!['a', 'b', 'c']);
}

#[test]
fn white_space_is_that_of_the_standard_library() {
    for code in 0..=0x10ffff_u32 {
        if let Some(c) = char::from_u32(code) {
            assert_eq!(is_whitespace(c), c.is_whitespace(), "U+{:04X}", code);
        }
    }
}

#[test]
fn trim_is_that_of_the_standard_library() {
    for s in SAMPLES {
        assert_eq!(text(trim(&chars(s))), s.trim(), "{:?}", s);
    }
}

#[test]
fn trim_of_white_space_is_empty() {
    assert_eq!(text(trim(&chars(" \t\r\n\u{2028}"))), "");
    assert_eq!(text(trim(&chars("  a  b  "))), "a  b");
}

#[test]
fn lines_are_those_of_the_standard_library() {
    for s in SAMPLES {
        let c = chars(s);
        let got: Vec<String> = split_lines(&c).iter().map(|l| text(l)).collect();
        let expected: Vec<String> = s.lines().map(|l| l.to_string()).collect();
        assert_eq!(got, expected, "{:?}", s);
    }
}

#[test]
fn lines_of_a_small_text() {
    let c = chars("a\n\nb\r\nc");
    let got: Vec<String> = split_lines(&c).iter().map(|l| text(l)).collect();
    assert_eq!(got, vec!["a", "", "b", "c"]);
}

#[test]
fn find_gives_the_first_index_or_the_length() {
    assert_eq!(find(&chars("a:b:c"), ':'), 1);
    assert_eq!(find(&chars(":"), ':'), 0);
    assert_eq!(find(&chars("abc"), ':'), 3);
    assert_eq!(find(&chars(""), ':'), 0);
}

#[test]
fn find_last_gives_the_last_index() {
    assert_eq!(find_last(&chars("a.b.c"), '.'), Some(3));
    assert_eq!(find_last(&chars(".a"), '.'), Some(0));
    assert_eq!(find_last(&chars("abc"), '.'), None);
    assert_eq!(find_last(&chars(""), '.'), None);
}

#[test]
fn starts_with_is_that_of_the_standard_library() {
    for s in SAMPLES {
        for p in ["", "a", "ab", " ", "{{ ", "---", "line one\nline two\n", "日本"] {
            assert_eq!(starts_with(&chars(s), &chars(p)), s.starts_with(p), "{:?} {:?}", s, p);
        }
    }
}

#[test]
fn replace_is_that_of_the_standard_library() {
    for s in SAMPLES {
        for p in ["", "a", "aa", "{{ a }}", "\n", "line", "b", " ", "x\r"] {
            for w in ["", "Z", "aa", "{{ a }}", "longer than the pattern"] {
                let got = text(&replace_all(&chars(s), &chars(p), &chars(w)));
                assert_eq!(got, s.replace(p, w), "{:?} {:?} {:?}", s, p, w);
            }
        }
    }
}

#[test]
fn replace_takes_occurrences_from_the_left_without_overlap() {
    assert_eq!(text(&replace_all(&chars("aaa"), &chars("aa"), &chars("b"))), "ba");
    assert_eq!(text(&replace_all(&chars("aaaa"), &chars("aa"), &chars("b"))), "bb");
    assert_eq!(text(&replace_all(&chars("abab"), &chars("ab"), &chars("abab"))), "abababab");
    assert_eq!(text(&replace_all(&chars("abc"), &chars(""), &chars("-"))), "-a-b-c-");
    assert_eq!(text(&replace_all(&chars(""), &chars(""), &chars("-"))), "-");
    assert_eq!(text(&replace_all(&chars("abc"), &chars("abcd"), &chars("-"))), "abc");
}
