use things_report::reporter::{
    join_blocks, AreaTree, MarkdownReporter, ReportOptions, Reporter, Resolution, ThingsTree,
};
use things_report::things::task::{Area, Project, Status, Task};

fn task(id: &str, title: &str, project: Option<Project>, area: Option<Area>) -> Task {
    Task {
        id: id.to_string(),
        title: title.to_string(),
        notes: None,
        status: Status::Open,
        tags: vec![],
        completion_date: None,
        project,
        area,
    }
}

fn project(id: &str, title: &str) -> Option<Project> {
    Some(Project {
        id: id.to_string(),
        title: title.to_string(),
        tags: vec![],
        notes: None,
        status: Status::Open,
    })
}

fn area(id: &str, title: &str) -> Option<Area> {
    Some(Area { id: id.to_string(), title: title.to_string() })
}

fn options(resolution: Resolution, tags: &[&str], sanitize_names: bool) -> ReportOptions {
    ReportOptions {
        resolution,
        tags: tags.iter().map(|t| t.to_string()).collect(),
        sanitize_names,
    }
}

fn full() -> ReportOptions {
    options(Resolution::FullTask, &["report"], true)
}

fn brief() -> ReportOptions {
    options(Resolution::Project, &["report"], true)
}

#[test]
fn no_tasks_give_an_empty_report() {
    assert_eq!(MarkdownReporter.report(vec![], &full()), "");
    assert_eq!(MarkdownReporter.report(vec![], &brief()), "");
}

#[test]
fn a_task_is_its_indent_a_bullet_and_its_title() {
    let t = task("1", "Write docs", None, None);
    assert_eq!(MarkdownReporter.report_task(&t, 0, &full()), "- Write docs");
    assert_eq!(MarkdownReporter.report_task(&t, 4, &full()), "    - Write docs");
    assert_eq!(MarkdownReporter.report_task(&t, 1, &brief()), " - Write docs");
    let plain = options(Resolution::FullTask, &[], false);
    assert_eq!(MarkdownReporter.report_task(&t, 4, &plain), "    - Write docs");
}

#[test]
fn a_canceled_task_is_struck_through() {
    let mut t = task("1", "Dropped", None, None);
    t.status = Status::Canceled;
    assert_eq!(MarkdownReporter.report_task(&t, 0, &full()), "- ~Dropped~");
    t.status = Status::Completed;
    assert_eq!(MarkdownReporter.report_task(&t, 0, &full()), "- Dropped");
    t.status = Status::Incomplete;
    assert_eq!(MarkdownReporter.report_task(&t, 0, &full()), "- Dropped");
}

#[test]
fn tagged_notes_follow_a_task_four_spaces_deeper() {
    let mut t = task("1", "Ship it", None, None);
    t.notes = Some("```report\nDid X\n``` and ```report Did Y```".to_string());
    assert_eq!(
        MarkdownReporter.report_task(&t, 0, &full()),
        "- Ship it\n    - Did X\n    - Did Y"
    );
    assert_eq!(
        MarkdownReporter.report_task(&t, 4, &full()),
        "    - Ship it\n        - Did X\n        - Did Y"
    );
    assert_eq!(
        MarkdownReporter.report_task(&t, 0, &options(Resolution::FullTask, &["other"], true)),
        "- Ship it"
    );
}

#[test]
fn a_task_is_scrubbed_of_the_names_in_its_own_tags() {
    let mut t = task("1", "Ping alice and bob", None, None);
    t.tags = vec!["@alice".to_string(), "work".to_string()];
    t.notes = Some("```report alice said yes```".to_string());
    assert_eq!(
        MarkdownReporter.report_task(&t, 0, &full()),
        "- Ping \u{430}l\u{456}c\u{435} and bob\n    - \u{430}l\u{456}c\u{435} said yes"
    );
    assert_eq!(
        MarkdownReporter.report_task(&t, 0, &options(Resolution::FullTask, &["report"], false)),
        "- Ping alice and bob\n    - alice said yes"
    );
}

#[test]
fn a_project_at_full_resolution_is_its_title_notes_and_tasks() {
    let mut p = project("p", "Launch").unwrap();
    p.notes = Some("```report on track```".to_string());
    let mut tree = AreaTree::new("x", "X");
    tree.add_task(task("1", "one", Some(p.clone()), None));
    tree.add_task(task("2", "two", Some(p), None));
    let group = &tree.projects()[0];
    assert_eq!(
        MarkdownReporter.report_project(group, 0, &full()),
        "Launch\n    - on track\n    - one\n    - two"
    );
    assert_eq!(
        MarkdownReporter.report_project(group, 2, &full()),
        "  Launch\n      - on track\n      - one\n      - two"
    );
}

#[test]
fn a_project_at_project_resolution_is_one_bullet_with_its_notes() {
    let mut p = project("p", "Launch").unwrap();
    p.notes = Some("```report on track```".to_string());
    let mut tree = AreaTree::new("x", "X");
    tree.add_task(task("1", "one", Some(p), None));
    let group = &tree.projects()[0];
    assert_eq!(MarkdownReporter.report_project(group, 0, &brief()), "- Launch\n    - on track");
    assert_eq!(MarkdownReporter.report_project(group, 4, &brief()), "    - Launch\n        - on track");
}

#[test]
fn a_project_is_scrubbed_of_the_names_in_its_own_tags_only() {
    let mut p = project("p", "With alice and bob").unwrap();
    p.tags = vec!["@bob".to_string()];
    let mut t = task("1", "Ask alice and bob", Some(p), None);
    t.tags = vec!["@alice".to_string()];
    let mut tree = AreaTree::new("x", "X");
    tree.add_task(t);
    let group = &tree.projects()[0];
    assert_eq!(
        MarkdownReporter.report_project(group, 0, &full()),
        "With alice and b\u{43e}b\n    - Ask \u{430}l\u{456}c\u{435} and b\u{43e}b"
    );
    assert_eq!(MarkdownReporter.report_project(group, 0, &brief()), "- With alice and b\u{43e}b");
}

#[test]
fn an_area_without_tasks_of_its_own_ends_with_its_last_project() {
    let mut x = AreaTree::new("x", "X");
    x.add_task(task("1", "one", project("p", "P"), None));
    x.add_task(task("2", "two", project("q", "Q"), None));
    let out = MarkdownReporter.report_single_area(&x, &full());
    assert_eq!(out, "P\n    - one\nQ\n    - two");
    assert!(!out.ends_with('\n'));
}

#[test]
fn an_area_with_projects_and_tasks_has_one_blank_line_between_the_blocks() {
    let mut x = AreaTree::new("x", "X");
    x.add_task(task("1", "one", project("p", "P"), None));
    x.add_task(task("2", "two", None, None));
    x.add_task(task("3", "three", None, None));
    let out = MarkdownReporter.report_single_area(&x, &full());
    assert_eq!(out, "P\n    - one\n\n- two\n- three");
    assert_eq!(out.matches("\n\n").count(), 1);
    assert!(!out.contains("\n\n\n"));
    assert_eq!(out, join_blocks("P\n    - one", "- two\n- three"));
}

#[test]
fn an_area_with_tasks_alone_has_no_blank_line_before_them() {
    let mut x = AreaTree::new("x", "X");
    x.add_task(task("2", "two", None, None));
    x.add_task(task("3", "three", None, None));
    assert_eq!(MarkdownReporter.report_single_area(&x, &full()), "- two\n- three");
    assert_eq!(MarkdownReporter.report_single_area(&x, &brief()), "");
}

#[test]
fn blocks_are_joined_by_a_blank_line_only_where_both_hold_something() {
    assert_eq!(join_blocks("a", "b"), "a\n\nb");
    assert_eq!(join_blocks("a", ""), "a");
    assert_eq!(join_blocks("", "b"), "b");
    assert_eq!(join_blocks("", ""), "");
}

#[test]
fn a_single_area_has_no_heading() {
    let tasks = vec![
        task("1", "one", project("p", "P"), area("x", "X")),
        task("2", "two", None, area("x", "X")),
    ];
    let tree = ThingsTree::from_tasks(tasks.clone());
    let single = MarkdownReporter.report_single_area(&tree.areas()[0], &full());
    assert_eq!(single, "P\n    - one\n\n- two");
    assert_eq!(MarkdownReporter.report_multiple_areas(tree.areas(), &full()), single);
    assert_eq!(MarkdownReporter.report(tasks, &full()), single);
}

#[test]
fn several_areas_stand_each_under_its_title_in_bold() {
    let tasks = vec![
        task("1", "one", project("p", "P"), area("x", "Work")),
        task("2", "two", None, area("y", "Home")),
        task("3", "three", None, area("x", "Work")),
    ];
    let tree = ThingsTree::from_tasks(tasks.clone());
    let out = MarkdownReporter.report_multiple_areas(tree.areas(), &full());
    assert_eq!(out, "*Work*\nP\n    - one\n\n- three\n\n*Home*\n- two");
    assert_eq!(MarkdownReporter.report(tasks.clone(), &full()), out);
    assert_eq!(MarkdownReporter.report(tasks, &brief()), "*Work*\n- P\n\n*Home*\n");
}

#[test]
fn no_areas_render_as_nothing() {
    assert_eq!(MarkdownReporter.report_multiple_areas(&vec![], &full()), "");
}

#[test]
fn loose_tasks_follow_the_areas_after_a_blank_line() {
    let tasks = vec![
        task("1", "loose one", None, None),
        task("2", "two", project("p", "P"), area("x", "X")),
        task("3", "loose three", None, None),
    ];
    assert_eq!(
        MarkdownReporter.report(tasks, &full()),
        "P\n    - two\n\n- loose one\n- loose three"
    );
}

#[test]
fn loose_tasks_alone_have_no_blank_line_before_them() {
    let tasks = vec![task("1", "one", None, None), task("2", "two", None, None)];
    assert_eq!(MarkdownReporter.report(tasks, &full()), "- one\n- two");
}

#[test]
fn projects_without_an_area_are_grouped_but_not_reported() {
    let tasks = vec![
        task("1", "one", project("p", "Hanging project"), None),
        task("2", "two", None, None),
    ];
    let tree = ThingsTree::from_tasks(tasks.clone());
    assert_eq!(tree.hanging_projects().len(), 1);
    let out = MarkdownReporter.report(tasks, &full());
    assert_eq!(out, "- two");
    assert!(!out.contains("Hanging project"));
    assert!(!out.contains("one"));
}

#[test]
fn project_resolution_shows_no_task_under_an_area() {
    let mut noted = task("1", "secret task one", project("p", "Alpha"), area("x", "Work"));
    noted.notes = Some("```report task note```".to_string());
    let tasks = vec![
        noted,
        task("2", "secret task two", None, area("x", "Work")),
        task("3", "secret task three", project("q", "Beta"), area("y", "Home")),
        task("4", "secret task four", project("r", "Gamma"), area("x", "Work")),
    ];
    let out = MarkdownReporter.report(tasks, &brief());
    assert_eq!(out, "*Work*\n- Alpha\n- Gamma\n\n*Home*\n- Beta");
    assert!(!out.contains("secret"));
    assert!(!out.contains("task note"));
}

#[test]
fn project_resolution_shows_no_loose_task() {
    let tasks = vec![
        task("1", "filed", project("p", "P"), area("x", "X")),
        task("2", "loose", None, None),
    ];
    assert_eq!(MarkdownReporter.report(tasks, &brief()), "- P");
    let lonely = vec![task("t1", "Lonely", None, None)];
    let plain = options(Resolution::Project, &[], false);
    assert_eq!(MarkdownReporter.report(lonely.clone(), &plain), "");
    assert_eq!(
        MarkdownReporter.report(lonely, &options(Resolution::FullTask, &[], false)),
        "- Lonely"
    );
}

#[test]
fn an_area_with_a_project_and_a_task_of_its_own_at_full_resolution() {
    let mut a = AreaTree::new("a", "A");
    a.add_task(task("1", "T1", project("p", "Proj"), None));
    a.add_task(task("2", "H1", None, None));
    let plain = options(Resolution::FullTask, &[], false);
    assert_eq!(MarkdownReporter.report_single_area(&a, &plain), "Proj\n    - T1\n\n- H1");
}

#[test]
fn the_same_tasks_and_options_give_the_same_report() {
    let list = || {
        let mut t = task("1", "Ping alice", project("p", "P"), area("x", "X"));
        t.tags = vec!["@alice".to_string()];
        t.notes = Some("```report done```".to_string());
        vec![t, task("2", "two", None, area("y", "Y")), task("3", "three", None, None)]
    };
    let first = MarkdownReporter.report(list(), &full());
    let second = MarkdownReporter.report(list(), &full());
    assert_eq!(first, second);
    assert_eq!(
        first,
        "*X*\nP\n    - Ping \u{430}l\u{456}c\u{435}\n        - done\n\n*Y*\n- two\n\n- three"
    );
}

#[test]
fn the_default_resolution_is_the_full_one() {
    assert_eq!(Resolution::default(), Resolution::FullTask);
}
