use things_report::names::{
    extract_names_from_tags, has_name, homoglyph_of, name_of_tag, sanitize, sanitize_names,
    sanitize_strings,
};

fn tags(list: &[&str]) -> Vec<String> {
    list.iter().map(|t| t.to_string()).collect()
}

#[test]
fn vowels_are_replaced_by_their_look_alikes() {
    assert_eq!(sanitize("aeiou"), "\u{430}\u{435}\u{456}\u{43e}\u{57d}");
    assert_eq!(sanitize("alice"), "\u{430}l\u{456}c\u{435}");
}

#[test]
fn a_look_alike_is_never_the_vowel_itself() {
    for vowel in ['a', 'e', 'i', 'o', 'u'] {
        assert_ne!(homoglyph_of(vowel), vowel);
    }
}

#[test]
fn capitals_and_consonants_are_left_alone() {
    assert_eq!(sanitize("AEIOU xyz BCD"), "AEIOU xyz BCD");
    assert_eq!(homoglyph_of('b'), 'b');
    assert_eq!(homoglyph_of('A'), 'A');
    assert_eq!(sanitize(""), "");
}

#[test]
fn names_are_the_tags_that_begin_with_an_at_sign() {
    let names = extract_names_from_tags(&tags(&["@alice", "work", "@bob", "a@b", "@"]));
    assert_eq!(names, tags(&["alice", "bob", ""]));
}

#[test]
fn only_one_at_sign_is_taken_off_a_name() {
    assert_eq!(extract_names_from_tags(&tags(&["@@alice"])), tags(&["@alice"]));
    assert_eq!(name_of_tag("@alice"), "alice");
    assert!(has_name("@alice"));
    assert!(!has_name("alice"));
    assert!(!has_name(""));
}

#[test]
fn every_occurrence_of_a_name_is_disguised() {
    let out = sanitize_names("alice met alice and malice", &tags(&["@alice"]));
    assert_eq!(
        out,
        "\u{430}l\u{456}c\u{435} met \u{430}l\u{456}c\u{435} and m\u{430}l\u{456}c\u{435}"
    );
    assert!(!out.contains("alice"));
}

#[test]
fn text_without_the_name_is_untouched() {
    assert_eq!(sanitize_names("bob was here", &tags(&["@alice"])), "bob was here");
    assert_eq!(sanitize_names("alice was here", &tags(&["alice", "work"])), "alice was here");
    assert_eq!(sanitize_names("alice was here", &tags(&[])), "alice was here");
}

#[test]
fn a_name_is_matched_with_its_case() {
    assert_eq!(sanitize_names("Alice and ALICE", &tags(&["@alice"])), "Alice and ALICE");
}

#[test]
fn an_empty_name_changes_nothing() {
    assert_eq!(sanitize_names("alice", &tags(&["@"])), "alice");
    assert_eq!(sanitize_strings("alice", &tags(&[""])), "alice");
}

#[test]
fn names_are_scrubbed_in_the_order_of_the_tags() {
    let out = sanitize_strings("ann and bob", &tags(&["ann", "bob"]));
    assert_eq!(out, "\u{430}nn and b\u{43e}b");
    // A name that only appears once an earlier name is disguised is not found.
    let out = sanitize_strings("xay", &tags(&["a", "xay"]));
    assert_eq!(out, "x\u{430}y");
}

#[test]
fn occurrences_are_taken_from_the_left_without_overlap() {
    assert_eq!(sanitize_strings("aaa", &tags(&["aa"])), "\u{430}\u{430}a");
    assert_eq!(sanitize_strings("babab", &tags(&["bab"])), "b\u{430}bab");
}

#[test]
fn scrubbing_keeps_the_number_of_characters() {
    let text = "alice, bob and eve went out";
    let out = sanitize_names(text, &tags(&["@alice", "@bob", "@eve"]));
    assert_eq!(out.chars().count(), text.chars().count());
    assert_eq!(
        out,
        "\u{430}l\u{456}c\u{435}, b\u{43e}b and \u{435}v\u{435} went out"
    );
}
