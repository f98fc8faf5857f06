use things_report::text::{
    append_chars, append_text, extend_chars, find_from, from_chars, is_whitespace, matches_at,
    push_spaces, replace, split, to_chars, trim_bounds,
};

fn chars(s: &str) -> Vec<char> {
    s.chars().collect()
}

fn text(v: &Vec<char>) -> String {
    v.iter().collect()
}

#[test]
fn characters_go_to_a_vector_and_back() {
    assert_eq!(to_chars("h\u{e9}llo"), vec!['h', '\u{e9}', 'l', 'l', 'o']);
    assert_eq!(from_chars(&chars("h\u{e9}llo")), "h\u{e9}llo");
    assert_eq!(to_chars(""), Vec::<char>::new());
    assert_eq!(from_chars(&vec![]), "");
}

#[test]
fn white_space_is_what_unicode_says_it_is() {
    for n in 0..=0x10FFFFu32 {
        if let Some(c) = char::from_u32(n) {
            assert_eq!(is_whitespace(c), c.is_whitespace(), "U+{:04X}", n);
        }
    }
}

#[test]
fn a_pattern_is_found_where_it_stands() {
    let s = chars("abcabc");
    assert!(matches_at(&s, &chars("abc"), 0));
    assert!(matches_at(&s, &chars("abc"), 3));
    assert!(!matches_at(&s, &chars("abc"), 1));
    assert!(!matches_at(&s, &chars("abc"), 4));
    assert!(matches_at(&s, &chars(""), 6));
    assert_eq!(find_from(&s, &chars("bc"), 0), Some(1));
    assert_eq!(find_from(&s, &chars("bc"), 2), Some(4));
    assert_eq!(find_from(&s, &chars("bc"), 5), None);
    assert_eq!(find_from(&s, &chars("x"), 0), None);
    assert_eq!(find_from(&s, &chars(""), 6), Some(6));
}

#[test]
fn splitting_cuts_at_every_separator() {
    let pieces = |s: &str, sep: &str| -> Vec<String> {
        split(&chars(s), &chars(sep)).iter().map(text).collect()
    };
    assert_eq!(pieces("a,b,,c", ","), vec!["a", "b", "", "c"]);
    assert_eq!(pieces("abc", ","), vec!["abc"]);
    assert_eq!(pieces("", ","), vec![""]);
    assert_eq!(pieces(",", ","), vec!["", ""]);
    assert_eq!(pieces("a```b````c", "```"), vec!["a", "b", "`c"]);
    assert_eq!(pieces("abc", ""), vec!["abc"]);
    for (s, sep) in [("a--b---c", "--"), ("xx", "x"), ("no cut", "zz"), ("----", "--")] {
        let expected: Vec<String> = s.split(sep).map(|p| p.to_string()).collect();
        assert_eq!(pieces(s, sep), expected);
    }
}

#[test]
fn replacing_agrees_with_the_standard_replace() {
    let cases = [
        ("hello alice and alice", "alice", "ALICE"),
        ("aaaa", "aa", "b"),
        ("aaa", "aa", "b"),
        ("abc", "x", "y"),
        ("", "x", "y"),
        ("babab", "bab", "X"),
        ("one two", " ", ""),
    ];
    for (s, pat, rep) in cases {
        assert_eq!(text(&replace(&chars(s), &chars(pat), &chars(rep))), s.replace(pat, rep));
    }
    assert_eq!(text(&replace(&chars("abc"), &chars(""), &chars("x"))), "abc");
}

#[test]
fn trimming_finds_the_bounds_of_what_is_left() {
    let s = chars("  hello world \t\n");
    assert_eq!(trim_bounds(&s, 0, s.len()), (2, 13));
    assert_eq!(trim_bounds(&s, 4, 9), (4, 9));
    assert_eq!(trim_bounds(&s, 5, 8), (5, 7));
    assert_eq!(trim_bounds(&s, 7, 9), (8, 9));
    assert_eq!(trim_bounds(&s, 0, 2), (2, 2));
    let blank = chars(" \t ");
    let (a, b) = trim_bounds(&blank, 0, 3);
    assert_eq!(a, b);
    for t in ["", "x", " x", "x ", " a b ", "\u{2003}wide\u{a0}"] {
        let v = chars(t);
        let (a, b) = trim_bounds(&v, 0, v.len());
        assert_eq!(v[a..b].iter().collect::<String>(), t.trim());
    }
}

#[test]
fn text_is_appended_at_the_end() {
    let mut out = String::from("ab");
    append_text(&mut out, "cd");
    append_chars(&mut out, &chars("01234"), 1, 3);
    push_spaces(&mut out, 3);
    push_spaces(&mut out, 0);
    assert_eq!(out, "abcd12   ");
    let mut v = chars("ab");
    extend_chars(&mut v, &chars("01234"), 2, 5);
    extend_chars(&mut v, &chars("01234"), 2, 2);
    assert_eq!(text(&v), "ab234");
}
