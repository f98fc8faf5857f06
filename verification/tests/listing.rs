use things_report::listing::{
    is_not_later, matches_filters, select, sort_by_completion, under_message, ListType,
};
use things_report::reporter::{MarkdownReporter, ReportOptions, Reporter, Resolution};
use things_report::things::task::{Area, Project, Status, Task, Timestamp};

fn task(id: &str, tags: &[&str], done: Option<(i64, u32)>) -> Task {
    Task {
        id: id.to_string(),
        title: format!("task {}", id),
        notes: None,
        status: Status::Completed,
        tags: tags.iter().map(|t| t.to_string()).collect(),
        completion_date: done.map(|(secs, nanos)| Timestamp { secs, nanos }),
        project: None,
        area: None,
    }
}

fn strings(list: &[&str]) -> Vec<String> {
    list.iter().map(|t| t.to_string()).collect()
}

fn ids(tasks: &Vec<Task>) -> Vec<String> {
    tasks.iter().map(|t| t.id.clone()).collect()
}

#[test]
fn a_task_has_the_tags_it_carries() {
    let t = task("1", &["work", "@alice"], None);
    assert!(t.has_tag("work"));
    assert!(t.has_tag("@alice"));
    assert!(!t.has_tag("alice"));
    assert!(!t.has_tag("wor"));
    assert!(!t.has_tag(""));
}

#[test]
fn a_wanted_task_has_every_tag_and_no_omitted_one() {
    let t = task("1", &["work", "urgent"], None);
    assert!(matches_filters(&t, &strings(&[]), &strings(&[])));
    assert!(matches_filters(&t, &strings(&["work"]), &strings(&[])));
    assert!(matches_filters(&t, &strings(&["work", "urgent"]), &strings(&["home"])));
    assert!(!matches_filters(&t, &strings(&["work", "home"]), &strings(&[])));
    assert!(!matches_filters(&t, &strings(&["work"]), &strings(&["urgent"])));
    assert!(!matches_filters(&t, &strings(&[]), &strings(&["home", "work"])));
}

#[test]
fn selecting_keeps_the_wanted_tasks_in_order() {
    let tasks = vec![
        task("1", &["work"], None),
        task("2", &["home"], None),
        task("3", &["work", "skip"], None),
        task("4", &["work", "urgent"], None),
    ];
    let kept = select(tasks, &strings(&["work"]), &strings(&["skip"]));
    assert_eq!(ids(&kept), vec!["1", "4"]);
}

#[test]
fn dates_are_ordered_by_seconds_and_then_nanoseconds() {
    let at = |secs, nanos| Some(Timestamp { secs, nanos });
    assert!(is_not_later(&None, &None));
    assert!(is_not_later(&None, &at(0, 0)));
    assert!(!is_not_later(&at(0, 0), &None));
    assert!(is_not_later(&at(1, 5), &at(1, 5)));
    assert!(is_not_later(&at(1, 5), &at(1, 6)));
    assert!(!is_not_later(&at(1, 6), &at(1, 5)));
    assert!(is_not_later(&at(1, 999), &at(2, 0)));
    assert!(!is_not_later(&at(2, 0), &at(1, 999)));
    assert!(is_not_later(&at(-5, 0), &at(0, 0)));
}

#[test]
fn sorting_puts_the_earliest_first_and_keeps_ties_in_order() {
    let tasks = vec![
        task("a", &[], Some((30, 0))),
        task("b", &[], Some((10, 0))),
        task("c", &[], None),
        task("d", &[], Some((10, 0))),
        task("e", &[], Some((20, 7))),
        task("f", &[], None),
        task("g", &[], Some((20, 3))),
    ];
    let sorted = sort_by_completion(tasks);
    assert_eq!(ids(&sorted), vec!["c", "f", "b", "d", "g", "e", "a"]);
    assert!(sort_by_completion(vec![]).is_empty());
}

#[test]
fn sorting_agrees_with_the_standard_stable_sort() {
    let list = || {
        let mut tasks = vec![];
        let mut seed: u64 = 17;
        for i in 0..60 {
            seed = seed.wrapping_mul(6364136223846793005).wrapping_add(1442695040888963407);
            let secs = ((seed >> 33) % 7) as i64;
            let done = if secs == 0 { None } else { Some((secs, ((seed >> 20) % 3) as u32)) };
            tasks.push(task(&i.to_string(), &[], done));
        }
        tasks
    };
    let mut expected = list();
    expected.sort_by_key(|t| t.completion_date.map(|d| (d.secs, d.nanos)));
    assert_eq!(ids(&sort_by_completion(list())), ids(&expected));
}

#[test]
fn both_lists_are_rendered_as_the_markdown_report() {
    let list = || {
        let mut t = task("1", &["@alice"], None);
        t.title = "Ping alice".to_string();
        t.area = Some(Area { id: "x".to_string(), title: "X".to_string() });
        t.project = Some(Project {
            id: "p".to_string(),
            title: "P".to_string(),
            tags: vec![],
            notes: None,
            status: Status::Open,
        });
        vec![t, task("2", &[], None)]
    };
    let tags = strings(&["report"]);
    let today = ListType::Today.format_tasks(list(), &tags, true, Resolution::FullTask);
    let logbook = ListType::Logbook.format_tasks(list(), &tags, true, Resolution::FullTask);
    assert_eq!(today, "P\n    - Ping \u{430}l\u{456}c\u{435}\n\n- task 2");
    assert_eq!(today, logbook);
    let plain = ListType::Today.format_tasks(list(), &tags, false, Resolution::Project);
    assert_eq!(plain, "- P");
    let options = ReportOptions { resolution: Resolution::Project, tags, sanitize_names: false };
    assert_eq!(plain, MarkdownReporter.report(list(), &options));
}

#[test]
fn the_default_list_is_today() {
    assert_eq!(ListType::default(), ListType::Today);
}

#[test]
fn a_report_stands_under_its_message_after_a_blank_line() {
    assert_eq!(under_message("hello", "- one"), "hello\n\n- one");
    assert_eq!(under_message("", ""), "\n\n");
}
