//! What the tree of a task list is: its areas, their projects and the tasks
//! under each, stated over the task list as a whole, and the step that files
//! one more task into a tree.

use crate::things::task::{AreaView, ProjectView, TaskView};
use vstd::multiset::Multiset;
use vstd::prelude::*;

verus! {

/// What a project group holds: the project's header and its tasks.
pub struct ProjectTreeView {
    pub id: Seq<char>,
    pub title: Seq<char>,
    pub notes: Option<Seq<char>>,
    pub tags: Seq<Seq<char>>,
    pub tasks: Seq<TaskView>,
}

/// What an area group holds: the area's header, its projects, and its tasks
/// that have no project.
pub struct AreaTreeView {
    pub id: Seq<char>,
    pub title: Seq<char>,
    pub projects: Seq<ProjectTreeView>,
    pub hanging_tasks: Seq<TaskView>,
}

/// What a tree holds: the areas, the projects without an area, and the
/// tasks with neither.
pub struct ThingsTreeView {
    pub areas: Seq<AreaTreeView>,
    pub hanging_projects: Seq<ProjectTreeView>,
    pub hanging_tasks: Seq<TaskView>,
}

/// A way to read a grouping key off a task.
pub type Key = spec_fn(TaskView) -> Option<Seq<char>>;

/// The id of a task's project.
pub open spec fn project_key(t: TaskView) -> Option<Seq<char>> {
    match t.project {
        Some(p) => Some(p.id),
        None => None,
    }
}

/// The id of a task's area.
pub open spec fn area_key(t: TaskView) -> Option<Seq<char>> {
    match t.area {
        Some(a) => Some(a.id),
        None => None,
    }
}

/// Grouping by project id.
pub open spec fn by_project() -> Key {
    |t: TaskView| project_key(t)
}

/// Grouping by area id.
pub open spec fn by_area() -> Key {
    |t: TaskView| area_key(t)
}

/// The tasks whose key is `k`.
pub open spec fn keyed(key: Key, k: Seq<char>) -> spec_fn(TaskView) -> bool {
    |t: TaskView| key(t) == Some(k)
}

/// The tasks that have no key.
pub open spec fn unkeyed(key: Key) -> spec_fn(TaskView) -> bool {
    |t: TaskView| key(t) is None
}

/// The tasks with neither an area nor a project.
pub open spec fn unfiled() -> spec_fn(TaskView) -> bool {
    |t: TaskView| t.area is None && t.project is None
}

/// The keys of the tasks, each once, in the order in which they first appear.
pub open spec fn seen_keys(tasks: Seq<TaskView>, key: Key) -> Seq<Seq<char>>
    decreases tasks.len(),
{
    if tasks.len() == 0 {
        Seq::empty()
    } else {
        let before = seen_keys(tasks.drop_last(), key);
        match key(tasks.last()) {
            Some(k) => if before.contains(k) {
                before
            } else {
                before.push(k)
            },
            None => before,
        }
    }
}

/// The group of the project `pid` among `tasks`: every task of that project,
/// in the order of the list, under the header that the first of them carries.
pub open spec fn project_group(tasks: Seq<TaskView>, pid: Seq<char>) -> ProjectTreeView {
    let members = tasks.filter(keyed(by_project(), pid));
    let head = members[0].project->0;
    ProjectTreeView {
        id: pid,
        title: head.title,
        notes: head.notes,
        tags: head.tags,
        tasks: members,
    }
}

/// The project groups of `tasks`, in the order in which the projects first appear.
pub open spec fn project_groups(tasks: Seq<TaskView>) -> Seq<ProjectTreeView> {
    let ids = seen_keys(tasks, by_project());
    Seq::new(ids.len(), |i: int| project_group(tasks, ids[i]))
}

/// The group of the area `aid` among `tasks`: the area's title as the first
/// task of the area carries it, the project groups of the area's tasks, and
/// the area's tasks that have no project.
pub open spec fn area_group(tasks: Seq<TaskView>, aid: Seq<char>) -> AreaTreeView {
    let members = tasks.filter(keyed(by_area(), aid));
    AreaTreeView {
        id: aid,
        title: members[0].area->0.title,
        projects: project_groups(members),
        hanging_tasks: members.filter(unkeyed(by_project())),
    }
}

/// The area groups of `tasks`, in the order in which the areas first appear.
pub open spec fn area_groups(tasks: Seq<TaskView>) -> Seq<AreaTreeView> {
    let ids = seen_keys(tasks, by_area());
    Seq::new(ids.len(), |i: int| area_group(tasks, ids[i]))
}

/// The tree of a task list.
pub open spec fn build(tasks: Seq<TaskView>) -> ThingsTreeView {
    ThingsTreeView {
        areas: area_groups(tasks),
        hanging_projects: project_groups(tasks.filter(unkeyed(by_area()))),
        hanging_tasks: tasks.filter(unfiled()),
    }
}

/// `i` is the first index at which a project group with the id `id` stands.
pub open spec fn is_project_index(projects: Seq<ProjectTreeView>, id: Seq<char>, i: int) -> bool {
    &&& 0 <= i < projects.len()
    &&& projects[i].id == id
    &&& forall|j: int| 0 <= j < i ==> projects[j].id != id
}

/// The first index at which a project group with the id `id` stands, where there is one.
pub open spec fn project_index(projects: Seq<ProjectTreeView>, id: Seq<char>) -> Option<int> {
    if exists|i: int| is_project_index(projects, id, i) {
        Some(choose|i: int| is_project_index(projects, id, i))
    } else {
        None
    }
}

/// `i` is the first index at which an area group with the id `id` stands.
pub open spec fn is_area_index(areas: Seq<AreaTreeView>, id: Seq<char>, i: int) -> bool {
    &&& 0 <= i < areas.len()
    &&& areas[i].id == id
    &&& forall|j: int| 0 <= j < i ==> areas[j].id != id
}

/// The first index at which an area group with the id `id` stands, where there is one.
pub open spec fn area_index(areas: Seq<AreaTreeView>, id: Seq<char>) -> Option<int> {
    if exists|i: int| is_area_index(areas, id, i) {
        Some(choose|i: int| is_area_index(areas, id, i))
    } else {
        None
    }
}

/// A project group that holds one task, under the header that the task carries.
pub open spec fn project_opened(project: ProjectView, task: TaskView) -> ProjectTreeView {
    ProjectTreeView {
        id: project.id,
        title: project.title,
        notes: project.notes,
        tags: project.tags,
        tasks: seq![task],
    }
}

/// A project group with one more task at its end.
pub open spec fn project_add(project: ProjectTreeView, task: TaskView) -> ProjectTreeView {
    ProjectTreeView { tasks: project.tasks.push(task), ..project }
}

/// Project groups with a task of the project `project` filed: at the end of
/// the first group with the project's id, or in a new group at the end.
pub open spec fn projects_add(
    projects: Seq<ProjectTreeView>,
    project: ProjectView,
    task: TaskView,
) -> Seq<ProjectTreeView> {
    match project_index(projects, project.id) {
        Some(i) => projects.update(i, project_add(projects[i], task)),
        None => projects.push(project_opened(project, task)),
    }
}

/// An area group that holds nothing yet.
pub open spec fn area_opened(area: AreaView) -> AreaTreeView {
    AreaTreeView {
        id: area.id,
        title: area.title,
        projects: Seq::empty(),
        hanging_tasks: Seq::empty(),
    }
}

/// An area group with a task filed: under its project, or, where it has
/// none, at the end of the area's own tasks.
pub open spec fn area_add(area: AreaTreeView, task: TaskView) -> AreaTreeView {
    match task.project {
        Some(p) => AreaTreeView { projects: projects_add(area.projects, p, task), ..area },
        None => AreaTreeView { hanging_tasks: area.hanging_tasks.push(task), ..area },
    }
}

/// Area groups with a task of the area `area` filed: in the first group with
/// the area's id, or in a new group at the end.
pub open spec fn areas_add(areas: Seq<AreaTreeView>, area: AreaView, task: TaskView) -> Seq<
    AreaTreeView,
> {
    match area_index(areas, area.id) {
        Some(i) => areas.update(i, area_add(areas[i], task)),
        None => areas.push(area_add(area_opened(area), task)),
    }
}

/// A tree with one more task filed.
pub open spec fn tree_add(tree: ThingsTreeView, task: TaskView) -> ThingsTreeView {
    match task.area {
        Some(a) => ThingsTreeView { areas: areas_add(tree.areas, a, task), ..tree },
        None => match task.project {
            Some(p) => ThingsTreeView {
                hanging_projects: projects_add(tree.hanging_projects, p, task),
                ..tree
            },
            None => ThingsTreeView { hanging_tasks: tree.hanging_tasks.push(task), ..tree },
        },
    }
}

/// The tree that holds nothing.
pub open spec fn empty_tree() -> ThingsTreeView {
    ThingsTreeView {
        areas: Seq::empty(),
        hanging_projects: Seq::empty(),
        hanging_tasks: Seq::empty(),
    }
}

/// Where no element meets `pred`, the filter leaves nothing.
pub proof fn lemma_filter_none(tasks: Seq<TaskView>, pred: spec_fn(TaskView) -> bool)
    requires
        forall|i: int| 0 <= i < tasks.len() ==> !pred(#[trigger] tasks[i]),
    ensures
        tasks.filter(pred) == Seq::<TaskView>::empty(),
    decreases tasks.len(),
{
    if tasks.len() == 0 {
        tasks.lemma_filter_len(pred);
        assert(tasks.filter(pred) =~= Seq::<TaskView>::empty());
    } else {
        lemma_filter_none(tasks.drop_last(), pred);
        tasks.drop_last().lemma_filter_push(tasks.last(), pred);
        assert(tasks.drop_last().push(tasks.last()) =~= tasks);
    }
}

/// Where an element meets `pred`, the filter leaves something.
pub proof fn lemma_filter_some(tasks: Seq<TaskView>, pred: spec_fn(TaskView) -> bool, i: int)
    requires
        0 <= i < tasks.len(),
        pred(tasks[i]),
    ensures
        tasks.filter(pred).len() > 0,
{
    tasks.lemma_filter_contains(pred, i);
}

/// The keys of a list with one more task at its end.
pub proof fn lemma_seen_keys_push(tasks: Seq<TaskView>, key: Key, t: TaskView)
    ensures
        seen_keys(tasks.push(t), key) == match key(t) {
            Some(k) => if seen_keys(tasks, key).contains(k) {
                seen_keys(tasks, key)
            } else {
                seen_keys(tasks, key).push(k)
            },
            None => seen_keys(tasks, key),
        },
{
    assert(tasks.push(t).drop_last() =~= tasks);
}

/// A key is among the keys of a list exactly when a task of the list has it.
pub proof fn lemma_seen_keys_contains(tasks: Seq<TaskView>, key: Key, k: Seq<char>)
    ensures
        seen_keys(tasks, key).contains(k) <==> exists|i: int|
            0 <= i < tasks.len() && key(#[trigger] tasks[i]) == Some(k),
    decreases tasks.len(),
{
    if tasks.len() > 0 {
        let rest = tasks.drop_last();
        let before = seen_keys(rest, key);
        lemma_seen_keys_contains(rest, key, k);
        if seen_keys(tasks, key).contains(k) {
            if before.contains(k) {
                let i = choose|i: int| 0 <= i < rest.len() && key(#[trigger] rest[i]) == Some(k);
                assert(key(tasks[i]) == Some(k));
            } else {
                assert(before.push(k).contains(k)) by {
                    assert(before.push(k)[before.len() as int] == k);
                }
                assert(key(tasks[tasks.len() - 1]) == Some(k)) by {
                    match key(tasks.last()) {
                        Some(k2) => {
                            if k2 != k {
                                let j = choose|j: int|
                                    0 <= j < seen_keys(tasks, key).len() && seen_keys(tasks, key)[j]
                                        == k;
                                if before.contains(k2) {
                                } else {
                                    assert(before.push(k2)[j] == k);
                                    if j < before.len() {
                                        assert(before[j] == k);
                                    }
                                }
                            }
                        },
                        None => {},
                    }
                }
            }
        }
        if exists|i: int| 0 <= i < tasks.len() && key(#[trigger] tasks[i]) == Some(k) {
            let i = choose|i: int| 0 <= i < tasks.len() && key(#[trigger] tasks[i]) == Some(k);
            if i < rest.len() {
                assert(key(rest[i]) == Some(k));
                assert(before.contains(k));
                let j = choose|j: int| 0 <= j < before.len() && before[j] == k;
                assert(seen_keys(tasks, key)[j] == k);
            } else {
                if !before.contains(k) {
                    assert(before.push(k)[before.len() as int] == k);
                }
            }
        }
    }
}

/// No key stands twice among the keys of a list.
pub proof fn lemma_seen_keys_distinct(tasks: Seq<TaskView>, key: Key)
    ensures
        seen_keys(tasks, key).no_duplicates(),
    decreases tasks.len(),
{
    if tasks.len() > 0 {
        lemma_seen_keys_distinct(tasks.drop_last(), key);
    }
}

/// An index at which a project group with the id stands, with none before it, is the first.
pub proof fn lemma_project_index_at(projects: Seq<ProjectTreeView>, id: Seq<char>, i: int)
    requires
        is_project_index(projects, id, i),
    ensures
        project_index(projects, id) == Some(i),
{
    let k = choose|k: int| is_project_index(projects, id, k);
    if k < i {
        assert(projects[k].id != id);
    } else if i < k {
        assert(projects[i].id != id);
    }
}

/// Where no project group has the id, there is no first index.
pub proof fn lemma_project_index_none(projects: Seq<ProjectTreeView>, id: Seq<char>)
    requires
        forall|j: int| 0 <= j < projects.len() ==> (#[trigger] projects[j]).id != id,
    ensures
        project_index(projects, id) is None,
{
    if exists|i: int| is_project_index(projects, id, i) {
        let k = choose|k: int| is_project_index(projects, id, k);
        assert(projects[k].id == id);
    }
}

/// An index at which an area group with the id stands, with none before it, is the first.
pub proof fn lemma_area_index_at(areas: Seq<AreaTreeView>, id: Seq<char>, i: int)
    requires
        is_area_index(areas, id, i),
    ensures
        area_index(areas, id) == Some(i),
{
    let k = choose|k: int| is_area_index(areas, id, k);
    if k < i {
        assert(areas[k].id != id);
    } else if i < k {
        assert(areas[i].id != id);
    }
}

/// Where no area group has the id, there is no first index.
pub proof fn lemma_area_index_none(areas: Seq<AreaTreeView>, id: Seq<char>)
    requires
        forall|j: int| 0 <= j < areas.len() ==> (#[trigger] areas[j]).id != id,
    ensures
        area_index(areas, id) is None,
{
    if exists|i: int| is_area_index(areas, id, i) {
        let k = choose|k: int| is_area_index(areas, id, k);
        assert(areas[k].id == id);
    }
}

/// The tasks with the key `k`, in a list with one more task at its end.
proof fn lemma_members_push(tasks: Seq<TaskView>, key: Key, k: Seq<char>, t: TaskView)
    ensures
        tasks.push(t).filter(keyed(key, k)) == if key(t) == Some(k) {
            tasks.filter(keyed(key, k)).push(t)
        } else {
            tasks.filter(keyed(key, k))
        },
        key(t) == Some(k) && seen_keys(tasks, key).contains(k) ==> tasks.filter(keyed(key, k)).len()
            > 0,
        !seen_keys(tasks, key).contains(k) ==> tasks.filter(keyed(key, k)) == Seq::<
            TaskView,
        >::empty(),
{
    tasks.lemma_filter_push(t, keyed(key, k));
    lemma_seen_keys_contains(tasks, key, k);
    if seen_keys(tasks, key).contains(k) {
        let i = choose|i: int| 0 <= i < tasks.len() && key(#[trigger] tasks[i]) == Some(k);
        lemma_filter_some(tasks, keyed(key, k), i);
    } else {
        assert forall|i: int| 0 <= i < tasks.len() implies !keyed(key, k)(#[trigger] tasks[i]) by {
            if key(tasks[i]) == Some(k) {
                assert(seen_keys(tasks, key).contains(k));
            }
        }
        lemma_filter_none(tasks, keyed(key, k));
    }
}

/// The project groups of a list with one more task at its end: the task is
/// filed under its project, and a task without a project changes nothing.
pub proof fn lemma_project_groups_push(tasks: Seq<TaskView>, t: TaskView)
    ensures
        project_groups(tasks.push(t)) == match t.project {
            Some(p) => projects_add(project_groups(tasks), p, t),
            None => project_groups(tasks),
        },
{
    let key = by_project();
    let ids = seen_keys(tasks, key);
    let groups = project_groups(tasks);
    let after = project_groups(tasks.push(t));
    lemma_seen_keys_push(tasks, key, t);
    lemma_seen_keys_distinct(tasks, key);
    assert forall|j: int| 0 <= j < ids.len() && key(t) != Some(ids[j]) implies project_group(
        tasks.push(t),
        ids[j],
    ) == groups[j] by {
        lemma_members_push(tasks, key, ids[j], t);
    }
    match t.project {
        Some(p) => {
            lemma_members_push(tasks, key, p.id, t);
            if ids.contains(p.id) {
                let i = choose|i: int| 0 <= i < ids.len() && ids[i] == p.id;
                assert(is_project_index(groups, p.id, i)) by {
                    assert forall|j: int| 0 <= j < i implies groups[j].id != p.id by {
                        assert(ids[j] != ids[i]);
                    }
                }
                lemma_project_index_at(groups, p.id, i);
                assert(project_group(tasks.push(t), p.id) == project_add(groups[i], t));
                assert forall|j: int| 0 <= j < ids.len() implies after[j] == groups.update(
                    i,
                    project_add(groups[i], t),
                )[j] by {
                    if j != i {
                        assert(ids[j] != ids[i]);
                    }
                }
                assert(after =~= groups.update(i, project_add(groups[i], t)));
            } else {
                assert forall|j: int| 0 <= j < groups.len() implies (#[trigger] groups[j]).id
                    != p.id by {
                    if ids[j] == p.id {
                        assert(ids.contains(p.id));
                    }
                }
                lemma_project_index_none(groups, p.id);
                assert(project_group(tasks.push(t), p.id) == project_opened(p, t)) by {
                    assert(Seq::<TaskView>::empty().push(t) =~= seq![t]);
                }
                assert forall|j: int| 0 <= j < ids.len() + 1 implies after[j] == groups.push(
                    project_opened(p, t),
                )[j] by {
                    if j < ids.len() {
                        if ids[j] == p.id {
                            assert(ids.contains(p.id));
                        }
                    }
                }
                assert(after =~= groups.push(project_opened(p, t)));
            }
        },
        None => {
            assert(after =~= groups);
        },
    }
}

/// The project groups of no tasks.
pub proof fn lemma_project_groups_empty()
    ensures
        project_groups(Seq::empty()) == Seq::<ProjectTreeView>::empty(),
{
    assert(project_groups(Seq::empty()) =~= Seq::<ProjectTreeView>::empty());
}

/// The area groups of a list with one more task at its end: the task is
/// filed under its area, and a task without an area changes nothing.
pub proof fn lemma_area_groups_push(tasks: Seq<TaskView>, t: TaskView)
    ensures
        area_groups(tasks.push(t)) == match t.area {
            Some(a) => areas_add(area_groups(tasks), a, t),
            None => area_groups(tasks),
        },
{
    let key = by_area();
    let ids = seen_keys(tasks, key);
    let groups = area_groups(tasks);
    let after = area_groups(tasks.push(t));
    lemma_seen_keys_push(tasks, key, t);
    lemma_seen_keys_distinct(tasks, key);
    assert forall|j: int| 0 <= j < ids.len() && key(t) != Some(ids[j]) implies area_group(
        tasks.push(t),
        ids[j],
    ) == groups[j] by {
        lemma_members_push(tasks, key, ids[j], t);
    }
    match t.area {
        Some(a) => {
            lemma_members_push(tasks, key, a.id, t);
            let members = tasks.filter(keyed(key, a.id));
            lemma_project_groups_push(members, t);
            members.filter(unkeyed(by_project())).lemma_filter_len(unkeyed(by_project()));
            members.lemma_filter_push(t, unkeyed(by_project()));
            if ids.contains(a.id) {
                let i = choose|i: int| 0 <= i < ids.len() && ids[i] == a.id;
                assert(is_area_index(groups, a.id, i)) by {
                    assert forall|j: int| 0 <= j < i implies groups[j].id != a.id by {
                        assert(ids[j] != ids[i]);
                    }
                }
                lemma_area_index_at(groups, a.id, i);
                assert(area_group(tasks.push(t), a.id) == area_add(groups[i], t));
                assert forall|j: int| 0 <= j < ids.len() implies after[j] == groups.update(
                    i,
                    area_add(groups[i], t),
                )[j] by {
                    if j != i {
                        assert(ids[j] != ids[i]);
                    }
                }
                assert(after =~= groups.update(i, area_add(groups[i], t)));
            } else {
                assert forall|j: int| 0 <= j < groups.len() implies (#[trigger] groups[j]).id
                    != a.id by {
                    if ids[j] == a.id {
                        assert(ids.contains(a.id));
                    }
                }
                lemma_area_index_none(groups, a.id);
                assert(area_group(tasks.push(t), a.id) == area_add(area_opened(a), t)) by {
                    lemma_project_groups_empty();
                    lemma_filter_none(Seq::empty(), unkeyed(by_project()));
                    assert(Seq::<TaskView>::empty().push(t)[0] == t);
                }
                assert forall|j: int| 0 <= j < ids.len() + 1 implies after[j] == groups.push(
                    area_add(area_opened(a), t),
                )[j] by {
                    if j < ids.len() {
                        if ids[j] == a.id {
                            assert(ids.contains(a.id));
                        }
                    }
                }
                assert(after =~= groups.push(area_add(area_opened(a), t)));
            }
        },
        None => {
            assert(after =~= groups);
        },
    }
}

/// The tree of no tasks holds nothing.
pub proof fn lemma_build_empty()
    ensures
        build(Seq::empty()) == empty_tree(),
{
    let none = Seq::<TaskView>::empty();
    lemma_filter_none(none, unkeyed(by_area()));
    lemma_filter_none(none, unfiled());
    lemma_project_groups_empty();
    assert(area_groups(none) =~= Seq::<AreaTreeView>::empty());
}

/// The tree of a list with one more task at its end is the tree of the list
/// with that task filed.
pub proof fn lemma_build_push(tasks: Seq<TaskView>, t: TaskView)
    ensures
        build(tasks.push(t)) == tree_add(build(tasks), t),
{
    lemma_area_groups_push(tasks, t);
    tasks.lemma_filter_push(t, unkeyed(by_area()));
    tasks.lemma_filter_push(t, unfiled());
    lemma_project_groups_push(tasks.filter(unkeyed(by_area())), t);
}

/// The tasks with the key `k` all have that key, and there is at least one
/// of them where `k` is among the keys of the list.
pub proof fn lemma_members(tasks: Seq<TaskView>, key: Key, k: Seq<char>)
    ensures
        forall|i: int|
            0 <= i < tasks.filter(keyed(key, k)).len() ==> key(
                #[trigger] tasks.filter(keyed(key, k))[i],
            ) == Some(k),
        seen_keys(tasks, key).contains(k) ==> tasks.filter(keyed(key, k)).len() > 0,
{
    let members = tasks.filter(keyed(key, k));
    assert forall|i: int| 0 <= i < members.len() implies key(#[trigger] members[i]) == Some(k) by {
        tasks.lemma_filter_pred(keyed(key, k), i);
    }
    lemma_seen_keys_contains(tasks, key, k);
    if seen_keys(tasks, key).contains(k) {
        let i = choose|i: int| 0 <= i < tasks.len() && key(#[trigger] tasks[i]) == Some(k);
        lemma_filter_some(tasks, keyed(key, k), i);
    }
}

/// Keys stand in the order in which they first appear: of two keys, the one
/// that stands first is the key of a task before which no task has the other.
pub proof fn lemma_seen_keys_order(tasks: Seq<TaskView>, key: Key, a: int, b: int)
    requires
        0 <= a < b < seen_keys(tasks, key).len(),
    ensures
        exists|i: int|
            0 <= i < tasks.len() && key(#[trigger] tasks[i]) == Some(seen_keys(tasks, key)[a])
                && forall|j: int|
                0 <= j <= i ==> key(#[trigger] tasks[j]) != Some(seen_keys(tasks, key)[b]),
    decreases tasks.len(),
{
    let ids = seen_keys(tasks, key);
    let rest = tasks.drop_last();
    let before = seen_keys(rest, key);
    if b < before.len() {
        lemma_seen_keys_order(rest, key, a, b);
        let i = choose|i: int|
            0 <= i < rest.len() && key(#[trigger] rest[i]) == Some(before[a]) && forall|j: int|
                0 <= j <= i ==> key(#[trigger] rest[j]) != Some(before[b]);
        assert(key(tasks[i]) == Some(ids[a]));
        assert forall|j: int| 0 <= j <= i implies key(#[trigger] tasks[j]) != Some(ids[b]) by {
            assert(key(rest[j]) != Some(before[b]));
        }
    } else {
        // The key at `b` is new with the last task, and the key at `a` was seen before it.
        assert(ids == before.push(ids[b]));
        assert(!before.contains(ids[b]));
        assert(before[a] == ids[a]);
        lemma_seen_keys_contains(rest, key, ids[a]);
        assert(before.contains(ids[a]));
        let i = choose|i: int| 0 <= i < rest.len() && key(#[trigger] rest[i]) == Some(ids[a]);
        assert(key(tasks[i]) == Some(ids[a]));
        lemma_seen_keys_contains(rest, key, ids[b]);
        assert forall|j: int| 0 <= j <= i implies key(#[trigger] tasks[j]) != Some(ids[b]) by {
            if key(rest[j]) == Some(ids[b]) {
                assert(before.contains(ids[b]));
            }
        }
    }
}

/// `group` is the group of its id among `tasks`: it holds every task of that
/// project and no task of another, in the order of the list, and its title,
/// notes and tags are those that the first of its tasks carries.
pub open spec fn is_project_group(group: ProjectTreeView, tasks: Seq<TaskView>) -> bool {
    &&& group.tasks == tasks.filter(keyed(by_project(), group.id))
    &&& group.tasks.len() > 0
    &&& group.title == group.tasks[0].project->0.title
    &&& group.notes == group.tasks[0].project->0.notes
    &&& group.tags == group.tasks[0].project->0.tags
    &&& forall|k: int|
        0 <= k < group.tasks.len() ==> project_key(#[trigger] group.tasks[k]) == Some(group.id)
}

/// `group` is the group of its id among `tasks`: its title is the one that
/// the first task of the area carries, its projects are the project groups
/// of the area's tasks, and its own tasks are the area's tasks without a
/// project, in the order of the list.
pub open spec fn is_area_group(group: AreaTreeView, tasks: Seq<TaskView>) -> bool {
    let members = tasks.filter(keyed(by_area(), group.id));
    &&& members.len() > 0
    &&& group.title == members[0].area->0.title
    &&& group.projects == project_groups(members)
    &&& group.hanging_tasks == members.filter(unkeyed(by_project()))
    &&& forall|k: int| 0 <= k < members.len() ==> area_key(#[trigger] members[k]) == Some(group.id)
}

/// Projects are grouped by id, whatever their titles. No two groups have the
/// same id, so tasks of one id always share a group; each group is the group
/// of its id; and every task with a project has a group.
pub proof fn lemma_projects_grouped_by_id(tasks: Seq<TaskView>)
    ensures
        project_groups(tasks).len() == seen_keys(tasks, by_project()).len(),
        forall|a: int, b: int|
            0 <= a < b < project_groups(tasks).len() ==> (#[trigger] project_groups(tasks)[a]).id
                != (#[trigger] project_groups(tasks)[b]).id,
        forall|a: int|
            0 <= a < project_groups(tasks).len() ==> is_project_group(
                #[trigger] project_groups(tasks)[a],
                tasks,
            ),
        forall|i: int|
            0 <= i < tasks.len() && (#[trigger] tasks[i]).project is Some ==> exists|a: int|
                0 <= a < project_groups(tasks).len() && (#[trigger] project_groups(tasks)[a]).id
                    == tasks[i].project->0.id,
{
    let ids = seen_keys(tasks, by_project());
    let groups = project_groups(tasks);
    lemma_seen_keys_distinct(tasks, by_project());
    assert forall|a: int| 0 <= a < groups.len() implies is_project_group(
        #[trigger] groups[a],
        tasks,
    ) by {
        assert(ids.contains(ids[a]));
        lemma_members(tasks, by_project(), ids[a]);
    }
    assert forall|i: int| 0 <= i < tasks.len() && (#[trigger] tasks[i]).project is Some implies exists|
        a: int,
    |
        0 <= a < groups.len() && (#[trigger] groups[a]).id == tasks[i].project->0.id by {
        let pid = tasks[i].project->0.id;
        lemma_seen_keys_contains(tasks, by_project(), pid);
        assert(by_project()(tasks[i]) == Some(pid));
        let a = choose|a: int| 0 <= a < ids.len() && ids[a] == pid;
        assert(groups[a].id == pid);
    }
}

/// Areas are grouped by id, whatever their titles. No two groups have the
/// same id; each group is the group of its id; and every task with an area
/// has a group.
pub proof fn lemma_areas_grouped_by_id(tasks: Seq<TaskView>)
    ensures
        area_groups(tasks).len() == seen_keys(tasks, by_area()).len(),
        forall|a: int, b: int|
            0 <= a < b < area_groups(tasks).len() ==> (#[trigger] area_groups(tasks)[a]).id != (
            #[trigger] area_groups(tasks)[b]).id,
        forall|a: int|
            0 <= a < area_groups(tasks).len() ==> is_area_group(
                #[trigger] area_groups(tasks)[a],
                tasks,
            ),
        forall|i: int|
            0 <= i < tasks.len() && (#[trigger] tasks[i]).area is Some ==> exists|a: int|
                0 <= a < area_groups(tasks).len() && (#[trigger] area_groups(tasks)[a]).id
                    == tasks[i].area->0.id,
{
    let ids = seen_keys(tasks, by_area());
    let groups = area_groups(tasks);
    lemma_seen_keys_distinct(tasks, by_area());
    assert forall|a: int| 0 <= a < groups.len() implies is_area_group(
        #[trigger] groups[a],
        tasks,
    ) by {
        assert(ids.contains(ids[a]));
        lemma_members(tasks, by_area(), ids[a]);
    }
    assert forall|i: int| 0 <= i < tasks.len() && (#[trigger] tasks[i]).area is Some implies exists|
        a: int,
    |
        0 <= a < groups.len() && (#[trigger] groups[a]).id == tasks[i].area->0.id by {
        let aid = tasks[i].area->0.id;
        lemma_seen_keys_contains(tasks, by_area(), aid);
        assert(by_area()(tasks[i]) == Some(aid));
        let a = choose|a: int| 0 <= a < ids.len() && ids[a] == aid;
        assert(groups[a].id == aid);
    }
}

/// The tasks that project groups hold, each as often as it is held.
pub open spec fn projects_tasks(projects: Seq<ProjectTreeView>) -> Multiset<TaskView>
    decreases projects.len(),
{
    if projects.len() == 0 {
        Multiset::empty()
    } else {
        projects_tasks(projects.drop_last()).add(projects.last().tasks.to_multiset())
    }
}

/// The tasks that an area group holds, each as often as it is held.
pub open spec fn area_tasks(area: AreaTreeView) -> Multiset<TaskView> {
    projects_tasks(area.projects).add(area.hanging_tasks.to_multiset())
}

/// The tasks that area groups hold, each as often as it is held.
pub open spec fn areas_tasks(areas: Seq<AreaTreeView>) -> Multiset<TaskView>
    decreases areas.len(),
{
    if areas.len() == 0 {
        Multiset::empty()
    } else {
        areas_tasks(areas.drop_last()).add(area_tasks(areas.last()))
    }
}

/// The tasks that a tree holds, each as often as it is held.
pub open spec fn tree_tasks(tree: ThingsTreeView) -> Multiset<TaskView> {
    areas_tasks(tree.areas).add(projects_tasks(tree.hanging_projects)).add(
        tree.hanging_tasks.to_multiset(),
    )
}

/// A task more in one project group is that task more among the groups.
proof fn lemma_projects_tasks_update(projects: Seq<ProjectTreeView>, i: int, t: TaskView)
    requires
        0 <= i < projects.len(),
    ensures
        projects_tasks(projects.update(i, project_add(projects[i], t))) == projects_tasks(
            projects,
        ).insert(t),
    decreases projects.len(),
{
    broadcast use vstd::seq_lib::group_to_multiset_ensures;

    let after = projects.update(i, project_add(projects[i], t));
    if i == projects.len() - 1 {
        assert(after.drop_last() =~= projects.drop_last());
        assert(projects[i].tasks.push(t).to_multiset() =~= projects[i].tasks.to_multiset().insert(
            t,
        ));
    } else {
        assert(after.drop_last() =~= projects.drop_last().update(
            i,
            project_add(projects.drop_last()[i], t),
        ));
        lemma_projects_tasks_update(projects.drop_last(), i, t);
    }
    assert(projects_tasks(after) =~= projects_tasks(projects).insert(t));
}

/// Filing a task under its project adds that task to the groups and nothing else.
pub proof fn lemma_projects_add_tasks(
    projects: Seq<ProjectTreeView>,
    project: ProjectView,
    t: TaskView,
)
    ensures
        projects_tasks(projects_add(projects, project, t)) == projects_tasks(projects).insert(t),
{
    broadcast use vstd::seq_lib::group_to_multiset_ensures;

    match project_index(projects, project.id) {
        Some(i) => {
            assert(is_project_index(projects, project.id, i));
            lemma_projects_tasks_update(projects, i, t);
        },
        None => {
            let after = projects.push(project_opened(project, t));
            assert(after.drop_last() =~= projects);
            assert(seq![t] =~= Seq::<TaskView>::empty().push(t));
            assert(Seq::<TaskView>::empty().to_multiset() =~= Multiset::empty());
            assert(projects_tasks(after) =~= projects_tasks(projects).insert(t));
        },
    }
}

/// Filing a task under an area adds that task to the area and nothing else.
pub proof fn lemma_area_add_tasks(area: AreaTreeView, t: TaskView)
    ensures
        area_tasks(area_add(area, t)) == area_tasks(area).insert(t),
{
    broadcast use vstd::seq_lib::group_to_multiset_ensures;

    match t.project {
        Some(p) => {
            lemma_projects_add_tasks(area.projects, p, t);
        },
        None => {},
    }
    assert(area_tasks(area_add(area, t)) =~= area_tasks(area).insert(t));
}

/// A task more in one area group is that task more among the groups.
proof fn lemma_areas_tasks_update(areas: Seq<AreaTreeView>, i: int, t: TaskView)
    requires
        0 <= i < areas.len(),
    ensures
        areas_tasks(areas.update(i, area_add(areas[i], t))) == areas_tasks(areas).insert(t),
    decreases areas.len(),
{
    let after = areas.update(i, area_add(areas[i], t));
    if i == areas.len() - 1 {
        assert(after.drop_last() =~= areas.drop_last());
        lemma_area_add_tasks(areas[i], t);
    } else {
        assert(after.drop_last() =~= areas.drop_last().update(
            i,
            area_add(areas.drop_last()[i], t),
        ));
        lemma_areas_tasks_update(areas.drop_last(), i, t);
    }
    assert(areas_tasks(after) =~= areas_tasks(areas).insert(t));
}

/// Filing a task adds that task to the tree and nothing else: no task that
/// the tree held is lost, and none is held once more.
pub proof fn lemma_tree_add_tasks(tree: ThingsTreeView, t: TaskView)
    ensures
        tree_tasks(tree_add(tree, t)) == tree_tasks(tree).insert(t),
{
    broadcast use vstd::seq_lib::group_to_multiset_ensures;

    match t.area {
        Some(a) => {
            match area_index(tree.areas, a.id) {
                Some(i) => {
                    assert(is_area_index(tree.areas, a.id, i));
                    lemma_areas_tasks_update(tree.areas, i, t);
                },
                None => {
                    let opened = area_add(area_opened(a), t);
                    let after = tree.areas.push(opened);
                    assert(after.drop_last() =~= tree.areas);
                    lemma_area_add_tasks(area_opened(a), t);
                    assert(Seq::<TaskView>::empty().to_multiset() =~= Multiset::empty());
                    assert(area_tasks(area_opened(a)) =~= Multiset::empty());
                    assert(areas_tasks(after) =~= areas_tasks(tree.areas).insert(t));
                },
            }
        },
        None => {
            match t.project {
                Some(p) => {
                    lemma_projects_add_tasks(tree.hanging_projects, p, t);
                },
                None => {},
            }
        },
    }
    assert(tree_tasks(tree_add(tree, t)) =~= tree_tasks(tree).insert(t));
}

/// The tree of a task list holds every task of the list, each as often as
/// the list holds it: no task is lost and none is filed twice.
pub proof fn lemma_build_holds_every_task(tasks: Seq<TaskView>)
    ensures
        tree_tasks(build(tasks)) == tasks.to_multiset(),
    decreases tasks.len(),
{
    broadcast use vstd::seq_lib::group_to_multiset_ensures;

    if tasks.len() == 0 {
        lemma_build_empty();
        assert(tasks =~= Seq::empty());
        assert(tree_tasks(empty_tree()) =~= Multiset::empty());
        assert(tasks.to_multiset() =~= Multiset::empty());
    } else {
        let rest = tasks.drop_last();
        lemma_build_holds_every_task(rest);
        lemma_build_push(rest, tasks.last());
        lemma_tree_add_tasks(build(rest), tasks.last());
        assert(rest.push(tasks.last()) =~= tasks);
    }
}

/// Every one of `tasks` has the project id `id`, or, where `id` is `None`, no project.
pub open spec fn all_of_project(tasks: Seq<TaskView>, id: Option<Seq<char>>) -> bool {
    forall|k: int| 0 <= k < tasks.len() ==> project_key(#[trigger] tasks[k]) == id
}

/// Every one of `tasks` has the area id `id`, or, where `id` is `None`, no area.
pub open spec fn all_of_area(tasks: Seq<TaskView>, id: Option<Seq<char>>) -> bool {
    forall|k: int| 0 <= k < tasks.len() ==> area_key(#[trigger] tasks[k]) == id
}

/// A project group is well formed: it holds at least one task, and every
/// task that it holds has the group's id as its project id.
pub open spec fn project_well_formed(project: ProjectTreeView) -> bool {
    project.tasks.len() > 0 && all_of_project(project.tasks, Some(project.id))
}

/// Project groups are well formed: no two have the same id, and each is well formed.
pub open spec fn projects_well_formed(projects: Seq<ProjectTreeView>) -> bool {
    &&& forall|a: int, b: int|
        0 <= a < b < projects.len() ==> (#[trigger] projects[a]).id != (#[trigger] projects[b]).id
    &&& forall|a: int| 0 <= a < projects.len() ==> project_well_formed(#[trigger] projects[a])
}

/// Every task of every one of `projects` has the area id `id`, or, where
/// `id` is `None`, no area.
pub open spec fn projects_of_area(projects: Seq<ProjectTreeView>, id: Option<Seq<char>>) -> bool {
    forall|a: int| 0 <= a < projects.len() ==> all_of_area((#[trigger] projects[a]).tasks, id)
}

/// An area group is well formed: its project groups are, and none of its
/// own tasks has a project.
pub open spec fn area_well_formed(area: AreaTreeView) -> bool {
    projects_well_formed(area.projects) && all_of_project(area.hanging_tasks, None)
}

/// Every task under an area group has the group's id as its area id.
pub open spec fn area_holds_its_own(area: AreaTreeView) -> bool {
    projects_of_area(area.projects, Some(area.id)) && all_of_area(
        area.hanging_tasks,
        Some(area.id),
    )
}

/// A tree is well formed: no two areas have the same id; each area is well
/// formed and holds tasks of its own id alone; the projects without an area
/// are well formed and hold tasks without an area alone; and the tasks that
/// hang free have neither area nor project.
pub open spec fn tree_well_formed(tree: ThingsTreeView) -> bool {
    &&& forall|a: int, b: int|
        0 <= a < b < tree.areas.len() ==> (#[trigger] tree.areas[a]).id != (
        #[trigger] tree.areas[b]).id
    &&& forall|a: int|
        0 <= a < tree.areas.len() ==> area_well_formed(#[trigger] tree.areas[a])
            && area_holds_its_own(tree.areas[a])
    &&& projects_well_formed(tree.hanging_projects)
    &&& projects_of_area(tree.hanging_projects, None)
    &&& all_of_area(tree.hanging_tasks, None)
    &&& all_of_project(tree.hanging_tasks, None)
}

/// Filing a task under its project keeps project groups well formed, and
/// keeps them in the area that they and the task are of.
pub proof fn lemma_projects_add_well_formed(
    projects: Seq<ProjectTreeView>,
    project: ProjectView,
    t: TaskView,
    area: Option<Seq<char>>,
)
    requires
        t.project == Some(project),
    ensures
        projects_well_formed(projects) ==> projects_well_formed(projects_add(projects, project, t)),
        projects_of_area(projects, area) && area_key(t) == area ==> projects_of_area(
            projects_add(projects, project, t),
            area,
        ),
{
    let after = projects_add(projects, project, t);
    match project_index(projects, project.id) {
        Some(i) => {
            assert(is_project_index(projects, project.id, i));
            let grown = project_add(projects[i], t);
            assert forall|a: int| 0 <= a < after.len() implies (#[trigger] after[a]).id
                == projects[a].id by {}
            if projects_well_formed(projects) {
                assert(project_well_formed(projects[i]));
                assert(project_well_formed(grown)) by {
                    assert forall|k: int| 0 <= k < grown.tasks.len() implies project_key(
                        #[trigger] grown.tasks[k],
                    ) == Some(grown.id) by {
                        if k < projects[i].tasks.len() {
                            assert(grown.tasks[k] == projects[i].tasks[k]);
                        }
                    }
                }
                assert forall|a: int| 0 <= a < after.len() implies project_well_formed(
                    #[trigger] after[a],
                ) by {
                    if a != i {
                        assert(after[a] == projects[a]);
                    }
                }
                assert forall|a: int, b: int| 0 <= a < b < after.len() implies (
                #[trigger] after[a]).id != (#[trigger] after[b]).id by {
                    assert(projects[a].id != projects[b].id);
                }
            }
            if projects_of_area(projects, area) && area_key(t) == area {
                assert(all_of_area(projects[i].tasks, area));
                assert(all_of_area(grown.tasks, area)) by {
                    assert forall|k: int| 0 <= k < grown.tasks.len() implies area_key(
                        #[trigger] grown.tasks[k],
                    ) == area by {
                        if k < projects[i].tasks.len() {
                            assert(grown.tasks[k] == projects[i].tasks[k]);
                        }
                    }
                }
                assert forall|a: int| 0 <= a < after.len() implies all_of_area(
                    (#[trigger] after[a]).tasks,
                    area,
                ) by {
                    if a != i {
                        assert(after[a] == projects[a]);
                    }
                }
            }
        },
        None => {
            let opened = project_opened(project, t);
            assert(opened.tasks[0] == t);
            assert forall|a: int| 0 <= a < projects.len() implies (#[trigger] projects[a]).id
                != project.id by {
                if projects[a].id == project.id {
                    lemma_has_project_index(projects, project.id, a);
                }
            }
            if projects_well_formed(projects) {
                assert forall|a: int| 0 <= a < after.len() implies project_well_formed(
                    #[trigger] after[a],
                ) by {
                    if a < projects.len() {
                        assert(after[a] == projects[a]);
                    }
                }
                assert forall|a: int, b: int| 0 <= a < b < after.len() implies (
                #[trigger] after[a]).id != (#[trigger] after[b]).id by {
                    assert(after[a] == projects[a]);
                    if b < projects.len() {
                        assert(after[b] == projects[b]);
                    }
                }
            }
            if projects_of_area(projects, area) && area_key(t) == area {
                assert forall|a: int| 0 <= a < after.len() implies all_of_area(
                    (#[trigger] after[a]).tasks,
                    area,
                ) by {
                    if a < projects.len() {
                        assert(after[a] == projects[a]);
                    }
                }
            }
        },
    }
}

/// Where a project group with the id stands, there is a first one.
pub proof fn lemma_has_project_index(projects: Seq<ProjectTreeView>, id: Seq<char>, a: int)
    requires
        0 <= a < projects.len(),
        projects[a].id == id,
    ensures
        project_index(projects, id) is Some,
    decreases a,
{
    if exists|j: int| 0 <= j < a && projects[j].id == id {
        let j = choose|j: int| 0 <= j < a && projects[j].id == id;
        lemma_has_project_index(projects, id, j);
    } else {
        assert(is_project_index(projects, id, a));
    }
}

/// Where an area group with the id stands, there is a first one.
pub proof fn lemma_has_area_index(areas: Seq<AreaTreeView>, id: Seq<char>, a: int)
    requires
        0 <= a < areas.len(),
        areas[a].id == id,
    ensures
        area_index(areas, id) is Some,
    decreases a,
{
    if exists|j: int| 0 <= j < a && areas[j].id == id {
        let j = choose|j: int| 0 <= j < a && areas[j].id == id;
        lemma_has_area_index(areas, id, j);
    } else {
        assert(is_area_index(areas, id, a));
    }
}

/// Filing a task under an area group keeps the group well formed; and where
/// the task is of the group's area, the group still holds tasks of its own
/// id alone.
pub proof fn lemma_area_add_well_formed(area: AreaTreeView, t: TaskView)
    ensures
        area_add(area, t).id == area.id,
        area_well_formed(area) ==> area_well_formed(area_add(area, t)),
        area_holds_its_own(area) && area_key(t) == Some(area.id) ==> area_holds_its_own(
            area_add(area, t),
        ),
{
    let after = area_add(area, t);
    match t.project {
        Some(p) => {
            lemma_projects_add_well_formed(area.projects, p, t, Some(area.id));
        },
        None => {
            if area_well_formed(area) {
                assert forall|k: int| 0 <= k < after.hanging_tasks.len() implies project_key(
                    #[trigger] after.hanging_tasks[k],
                ) is None by {
                    if k < area.hanging_tasks.len() {
                        assert(after.hanging_tasks[k] == area.hanging_tasks[k]);
                    }
                }
            }
            if area_holds_its_own(area) && area_key(t) == Some(area.id) {
                assert forall|k: int| 0 <= k < after.hanging_tasks.len() implies area_key(
                    #[trigger] after.hanging_tasks[k],
                ) == Some(area.id) by {
                    if k < area.hanging_tasks.len() {
                        assert(after.hanging_tasks[k] == area.hanging_tasks[k]);
                    }
                }
            }
        },
    }
}

/// Filing a task keeps a tree well formed.
pub proof fn lemma_tree_add_well_formed(tree: ThingsTreeView, t: TaskView)
    requires
        tree_well_formed(tree),
    ensures
        tree_well_formed(tree_add(tree, t)),
{
    let after = tree_add(tree, t);
    match t.area {
        Some(area) => {
            match area_index(tree.areas, area.id) {
                Some(i) => {
                    assert(is_area_index(tree.areas, area.id, i));
                    lemma_area_add_well_formed(tree.areas[i], t);
                    assert forall|a: int| 0 <= a < after.areas.len() implies area_well_formed(
                        #[trigger] after.areas[a],
                    ) && area_holds_its_own(after.areas[a]) && after.areas[a].id
                        == tree.areas[a].id by {
                        if a != i {
                            assert(after.areas[a] == tree.areas[a]);
                        }
                    }
                    assert forall|a: int, b: int| 0 <= a < b < after.areas.len() implies (
                    #[trigger] after.areas[a]).id != (#[trigger] after.areas[b]).id by {
                        assert(tree.areas[a].id != tree.areas[b].id);
                    }
                },
                None => {
                    let opened = area_opened(area);
                    lemma_area_add_well_formed(opened, t);
                    assert(area_well_formed(opened));
                    assert(area_holds_its_own(opened));
                    assert forall|a: int| 0 <= a < tree.areas.len() implies (
                    #[trigger] tree.areas[a]).id != area.id by {
                        if tree.areas[a].id == area.id {
                            lemma_has_area_index(tree.areas, area.id, a);
                        }
                    }
                    assert forall|a: int| 0 <= a < after.areas.len() implies area_well_formed(
                        #[trigger] after.areas[a],
                    ) && area_holds_its_own(after.areas[a]) by {
                        if a < tree.areas.len() {
                            assert(after.areas[a] == tree.areas[a]);
                        }
                    }
                    assert forall|a: int, b: int| 0 <= a < b < after.areas.len() implies (
                    #[trigger] after.areas[a]).id != (#[trigger] after.areas[b]).id by {
                        assert(after.areas[a] == tree.areas[a]);
                        if b < tree.areas.len() {
                            assert(after.areas[b] == tree.areas[b]);
                        }
                    }
                },
            }
        },
        None => {
            match t.project {
                Some(p) => {
                    lemma_projects_add_well_formed(tree.hanging_projects, p, t, None);
                },
                None => {
                    assert forall|k: int| 0 <= k < after.hanging_tasks.len() implies area_key(
                        #[trigger] after.hanging_tasks[k],
                    ) is None && project_key(after.hanging_tasks[k]) is None by {
                        if k < tree.hanging_tasks.len() {
                            assert(after.hanging_tasks[k] == tree.hanging_tasks[k]);
                        }
                    }
                },
            }
        },
    }
}

/// The tree of a task list is well formed.
pub proof fn lemma_build_well_formed(tasks: Seq<TaskView>)
    ensures
        tree_well_formed(build(tasks)),
    decreases tasks.len(),
{
    if tasks.len() == 0 {
        lemma_build_empty();
        assert(tasks =~= Seq::empty());
    } else {
        let rest = tasks.drop_last();
        lemma_build_well_formed(rest);
        lemma_build_push(rest, tasks.last());
        lemma_tree_add_well_formed(build(rest), tasks.last());
        assert(rest.push(tasks.last()) =~= tasks);
    }
}

} // verus!
