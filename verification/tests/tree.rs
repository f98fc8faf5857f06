use things_report::reporter::{AreaTree, ThingsTree};
use things_report::things::task::{Area, Project, Status, Task};

fn task(id: &str, title: &str, project: Option<Project>, area: Option<Area>) -> Task {
    Task {
        id: id.to_string(),
        title: title.to_string(),
        notes: None,
        status: Status::Open,
        tags: vec![],
        completion_date: None,
        project,
        area,
    }
}

fn project(id: &str, title: &str) -> Option<Project> {
    Some(Project {
        id: id.to_string(),
        title: title.to_string(),
        tags: vec![],
        notes: None,
        status: Status::Open,
    })
}

fn area(id: &str, title: &str) -> Option<Area> {
    Some(Area { id: id.to_string(), title: title.to_string() })
}

fn ids(tasks: &Vec<Task>) -> Vec<String> {
    tasks.iter().map(|t| t.id.clone()).collect()
}

#[test]
fn a_new_tree_holds_nothing() {
    let tree = ThingsTree::new();
    assert!(tree.areas().is_empty());
    assert!(tree.hanging_projects().is_empty());
    assert!(tree.hanging_tasks().is_empty());
    let none = ThingsTree::from_tasks(vec![]);
    assert!(none.areas().is_empty());
    assert!(none.hanging_projects().is_empty());
    assert!(none.hanging_tasks().is_empty());
}

#[test]
fn areas_stand_in_the_order_in_which_they_first_appear() {
    let tree = ThingsTree::from_tasks(vec![
        task("a", "task a", None, area("x", "X")),
        task("b", "task b", None, area("y", "Y")),
        task("c", "task c", None, area("x", "X")),
    ]);
    let areas = tree.areas();
    assert_eq!(areas.len(), 2);
    assert_eq!(areas[0].id(), "x");
    assert_eq!(areas[1].id(), "y");
    assert_eq!(ids(areas[0].hanging_tasks()), vec!["a", "c"]);
    assert_eq!(ids(areas[1].hanging_tasks()), vec!["b"]);
}

#[test]
fn projects_with_one_title_and_two_ids_stay_apart() {
    let tree = ThingsTree::from_tasks(vec![
        task("1", "one", project("p1", "Same"), None),
        task("2", "two", project("p2", "Same"), None),
    ]);
    let projects = tree.hanging_projects();
    assert_eq!(projects.len(), 2);
    assert_eq!(projects[0].id(), "p1");
    assert_eq!(projects[1].id(), "p2");
    assert_eq!(projects[0].title(), "Same");
    assert_eq!(projects[1].title(), "Same");
    assert_eq!(ids(projects[0].tasks()), vec!["1"]);
    assert_eq!(ids(projects[1].tasks()), vec!["2"]);
}

#[test]
fn projects_with_one_id_merge_under_the_first_header() {
    let mut first = project("p", "First title").unwrap();
    first.notes = Some("first notes".to_string());
    first.tags = vec!["@ann".to_string()];
    let mut second = project("p", "Second title").unwrap();
    second.notes = Some("second notes".to_string());
    second.tags = vec!["@bob".to_string()];
    let tree = ThingsTree::from_tasks(vec![
        task("1", "one", Some(first), None),
        task("2", "two", Some(second), None),
    ]);
    let projects = tree.hanging_projects();
    assert_eq!(projects.len(), 1);
    assert_eq!(projects[0].title(), "First title");
    assert_eq!(projects[0].notes(), &Some("first notes".to_string()));
    assert_eq!(projects[0].tags(), &vec!["@ann".to_string()]);
    assert_eq!(ids(projects[0].tasks()), vec!["1", "2"]);
    // The second task keeps the header that it came with.
    assert_eq!(projects[0].tasks()[1].project.as_ref().unwrap().title, "Second title");
}

#[test]
fn areas_with_one_id_merge_under_the_first_title() {
    let tree = ThingsTree::from_tasks(vec![
        task("1", "one", None, area("x", "First")),
        task("2", "two", None, area("x", "Second")),
        task("3", "three", None, area("z", "First")),
    ]);
    let areas = tree.areas();
    assert_eq!(areas.len(), 2);
    assert_eq!(areas[0].title(), "First");
    assert_eq!(areas[1].title(), "First");
    assert_eq!(ids(areas[0].hanging_tasks()), vec!["1", "2"]);
    assert_eq!(ids(areas[1].hanging_tasks()), vec!["3"]);
}

#[test]
fn a_project_is_a_group_of_its_own_in_each_area() {
    let tree = ThingsTree::from_tasks(vec![
        task("1", "one", project("p", "P"), area("x", "X")),
        task("2", "two", project("p", "P"), None),
        task("3", "three", project("p", "P"), area("y", "Y")),
        task("4", "four", project("p", "P"), area("x", "X")),
    ]);
    assert_eq!(tree.areas().len(), 2);
    assert_eq!(tree.areas()[0].projects().len(), 1);
    assert_eq!(ids(tree.areas()[0].projects()[0].tasks()), vec!["1", "4"]);
    assert_eq!(tree.areas()[1].projects().len(), 1);
    assert_eq!(ids(tree.areas()[1].projects()[0].tasks()), vec!["3"]);
    assert_eq!(tree.hanging_projects().len(), 1);
    assert_eq!(ids(tree.hanging_projects()[0].tasks()), vec!["2"]);
    assert!(tree.hanging_tasks().is_empty());
}

#[test]
fn every_task_is_filed_in_one_place() {
    let tasks = vec![
        task("1", "one", project("p", "P"), area("x", "X")),
        task("2", "two", None, None),
        task("3", "three", None, area("x", "X")),
        task("4", "four", project("q", "Q"), None),
        task("5", "five", project("q", "Q"), area("x", "X")),
        task("6", "six", None, None),
        task("7", "seven", project("p", "P"), area("x", "X")),
    ];
    let tree = ThingsTree::from_tasks(tasks);
    let mut seen: Vec<String> = vec![];
    for a in tree.areas() {
        for p in a.projects() {
            seen.extend(ids(p.tasks()));
        }
        seen.extend(ids(a.hanging_tasks()));
    }
    for p in tree.hanging_projects() {
        seen.extend(ids(p.tasks()));
    }
    seen.extend(ids(tree.hanging_tasks()));
    assert_eq!(seen, vec!["1", "7", "5", "3", "4", "2", "6"]);
    assert_eq!(ids(tree.hanging_tasks()), vec!["2", "6"]);
    let x = &tree.areas()[0];
    assert_eq!(x.projects()[0].id(), "p");
    assert_eq!(x.projects()[1].id(), "q");
}

#[test]
fn tasks_with_one_id_are_filed_each_on_its_own() {
    let tree = ThingsTree::from_tasks(vec![
        task("1", "one", None, None),
        task("1", "one", None, None),
        task("1", "one again", project("p", "P"), None),
    ]);
    assert_eq!(ids(tree.hanging_tasks()), vec!["1", "1"]);
    assert_eq!(ids(tree.hanging_projects()[0].tasks()), vec!["1"]);
}

#[test]
fn adding_task_by_task_gives_the_tree_of_the_list() {
    let list = || {
        vec![
            task("1", "one", project("p", "P"), area("x", "X")),
            task("2", "two", None, area("y", "Y")),
            task("3", "three", project("p", "P"), area("x", "X")),
            task("4", "four", None, None),
        ]
    };
    let mut step = ThingsTree::new();
    for t in list() {
        step.add_task(t);
    }
    let whole = ThingsTree::from_tasks(list());
    assert_eq!(format!("{:?}", step), format!("{:?}", whole));
}

#[test]
fn an_area_files_a_task_under_its_project_or_among_its_own() {
    let mut x = AreaTree::new("x", "X");
    assert_eq!(x.id(), "x");
    assert_eq!(x.title(), "X");
    assert!(x.projects().is_empty());
    assert!(x.hanging_tasks().is_empty());
    x.add_task(task("1", "one", project("p", "P"), area("other", "Other")));
    x.add_task(task("2", "two", None, None));
    x.add_task(task("3", "three", project("p", "Renamed"), None));
    assert_eq!(x.projects().len(), 1);
    assert_eq!(x.projects()[0].title(), "P");
    assert_eq!(ids(x.projects()[0].tasks()), vec!["1", "3"]);
    assert_eq!(ids(x.hanging_tasks()), vec!["2"]);
}
