use things_report::reporter::extract_tagged_notes;

fn tags(list: &[&str]) -> Vec<String> {
    list.iter().map(|t| t.to_string()).collect()
}

#[test]
fn a_tagged_section_gives_its_trimmed_content() {
    let found = extract_tagged_notes("```report\nDid X\n```", &tags(&["report"]));
    assert_eq!(found, vec!["Did X".to_string()]);
}

#[test]
fn a_section_with_another_tag_gives_nothing() {
    let found = extract_tagged_notes("```report\nDid X\n```", &tags(&["other"]));
    assert!(found.is_empty());
}

#[test]
fn text_outside_the_fences_gives_nothing() {
    assert!(extract_tagged_notes("just some text", &tags(&["report"])).is_empty());
    assert!(extract_tagged_notes("report due Friday", &tags(&["report"])).is_empty());
    assert!(extract_tagged_notes("report of the day", &tags(&["report", "of"])).is_empty());
    assert_eq!(
        extract_tagged_notes("report x ```report y``` report z", &tags(&["report"])),
        vec!["y".to_string()]
    );
    assert!(extract_tagged_notes("```other a```report b", &tags(&["report"])).is_empty());
}

#[test]
fn fences_open_and_close_in_turn() {
    let notes = "```report one```report two```report three```report four";
    assert_eq!(
        extract_tagged_notes(notes, &tags(&["report"])),
        vec!["one".to_string(), "three".to_string()]
    );
}

#[test]
fn empty_notes_give_nothing() {
    assert!(extract_tagged_notes("", &tags(&["report"])).is_empty());
    assert!(extract_tagged_notes("```report\nDid X\n```", &tags(&[])).is_empty());
}

#[test]
fn sections_come_out_in_the_order_of_the_notes() {
    let notes = "intro ```report\nfirst\n``` between ```standup second ``` ```report third```";
    let found = extract_tagged_notes(notes, &tags(&["report", "standup"]));
    assert_eq!(
        found,
        vec!["first".to_string(), "second".to_string(), "third".to_string()]
    );
}

#[test]
fn a_section_of_several_lines_is_one_note() {
    let found = extract_tagged_notes("```report\nline one\nline two\n```", &tags(&["report"]));
    assert_eq!(found, vec!["line one\nline two".to_string()]);
}

#[test]
fn the_first_matching_tag_is_the_one_stripped() {
    let notes = "```reporting live```";
    assert_eq!(
        extract_tagged_notes(notes, &tags(&["report", "reporting"])),
        vec!["ing live".to_string()]
    );
    assert_eq!(
        extract_tagged_notes(notes, &tags(&["reporting", "report"])),
        vec!["live".to_string()]
    );
}

#[test]
fn a_tag_must_stand_at_the_very_start_of_a_section() {
    assert!(extract_tagged_notes("``` report\nDid X```", &tags(&["report"])).is_empty());
    assert!(extract_tagged_notes("```Report\nDid X```", &tags(&["report"])).is_empty());
}

#[test]
fn a_fence_that_is_never_closed_still_opens_a_section() {
    let found = extract_tagged_notes("before ```report  unfinished  ", &tags(&["report"]));
    assert_eq!(found, vec!["unfinished".to_string()]);
}

#[test]
fn a_section_that_holds_only_its_tag_gives_an_empty_note() {
    let found = extract_tagged_notes("```report```", &tags(&["report"]));
    assert_eq!(found, vec![String::new()]);
}

#[test]
fn unicode_white_space_is_trimmed() {
    let found = extract_tagged_notes("```report\u{a0}\u{2003}Did X\u{3000}\t```", &tags(&["report"]));
    assert_eq!(found, vec!["Did X".to_string()]);
}

#[test]
fn four_backticks_leave_one_in_the_section() {
    let found = extract_tagged_notes("````report x```", &tags(&["`report"]));
    assert_eq!(found, vec!["x".to_string()]);
}
