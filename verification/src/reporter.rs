//! The tree that a task list is grouped into, and the reporters that render it.

use crate::grouping::{
    area_add, area_opened, area_well_formed, build, empty_tree, is_area_index, is_project_index,
    lemma_area_add_well_formed, lemma_area_index_at, lemma_area_index_none, lemma_build_empty,
    lemma_build_push, lemma_build_well_formed, lemma_project_index_at, lemma_project_index_none,
    lemma_tree_add_well_formed, project_add, project_opened, projects_add, tree_add,
    tree_well_formed, AreaTreeView, ProjectTreeView, ThingsTreeView,
};
use crate::names::sanitize_names;
use crate::render::{
    area_section, area_text, areas_text, blank_line, blocks, bullet, fence, fenced, is_tag_index,
    newline, note_line, note_lines, note_of, project_block, project_line, project_text,
    project_texts, section_note, shown_title, tagged_notes, task_block, task_rows, task_text,
    task_texts,
};
use crate::text::{
    append_chars, append_text, concat, copy_strings, join, lemma_concat_push, lemma_join_push,
    matches_at, push_char, push_spaces, spaces, split, to_chars, trim_bounds, views,
};
use crate::things::task::{text_of, AreaView, Status, Task, TaskView};
use vstd::prelude::*;

verus! {

/// A project and its tasks, in the order in which they were filed.
#[derive(Debug)]
pub struct ProjectTree {
    id: String,
    title: String,
    notes: Option<String>,
    tags: Vec<String>,
    tasks: Vec<Task>,
}

/// An area with its projects, and its tasks that have no project.
#[derive(Debug)]
pub struct AreaTree {
    id: String,
    title: String,
    projects: Vec<ProjectTree>,
    hanging_tasks: Vec<Task>,
}

/// The tasks of a report, grouped: the areas, the projects without an area,
/// and the tasks with neither.
#[derive(Debug)]
pub struct ThingsTree {
    areas: Vec<AreaTree>,
    hanging_projects: Vec<ProjectTree>,
    hanging_tasks: Vec<Task>,
}

impl View for ProjectTree {
    type V = ProjectTreeView;

    closed spec fn view(&self) -> ProjectTreeView {
        ProjectTreeView {
            id: self.id@,
            title: self.title@,
            notes: text_of(self.notes),
            tags: views(self.tags@),
            tasks: views(self.tasks@),
        }
    }
}

impl View for AreaTree {
    type V = AreaTreeView;

    closed spec fn view(&self) -> AreaTreeView {
        AreaTreeView {
            id: self.id@,
            title: self.title@,
            projects: views(self.projects@),
            hanging_tasks: views(self.hanging_tasks@),
        }
    }
}

impl View for ThingsTree {
    type V = ThingsTreeView;

    closed spec fn view(&self) -> ThingsTreeView {
        ThingsTreeView {
            areas: views(self.areas@),
            hanging_projects: views(self.hanging_projects@),
            hanging_tasks: views(self.hanging_tasks@),
        }
    }
}

/// A copy of an optional string.
fn copy_text(source: &Option<String>) -> (copy: Option<String>)
    ensures
        text_of(copy) == text_of(*source),
{
    match source {
        Some(s) => Some(s.clone()),
        None => None,
    }
}

/// The index of the first project group whose id is `id`, where there is one.
fn find_project(projects: &Vec<ProjectTree>, id: &String) -> (found: Option<usize>)
    ensures
        found is Some ==> is_project_index(views(projects@), id@, found->0 as int),
        found is None ==> forall|j: int|
            0 <= j < projects.len() ==> (#[trigger] views(projects@)[j]).id != id@,
{
    let mut i: usize = 0;
    while i < projects.len()
        invariant
            i <= projects.len(),
            forall|j: int| 0 <= j < i ==> (#[trigger] views(projects@)[j]).id != id@,
        decreases projects.len() - i,
    {
        if projects[i].id == *id {
            return Some(i);
        }
        i = i + 1;
    }
    None
}

/// Files a task under its project among `projects`: at the end of the first
/// group with the project's id, or in a new group at the end. A task without
/// a project goes to the end of `hanging`.
fn file_task(projects: &mut Vec<ProjectTree>, hanging: &mut Vec<Task>, task: Task)
    ensures
        task@.project is Some ==> views(final(projects)@) == projects_add(
            views(old(projects)@),
            task@.project->0,
            task@,
        ),
        task@.project is Some ==> final(hanging)@ == old(hanging)@,
        task@.project is None ==> final(projects)@ == old(projects)@,
        task@.project is None ==> views(final(hanging)@) == views(old(hanging)@).push(task@),
{
    let ghost before = views(projects@);
    let ghost filed = task@;
    match &task.project {
        Some(project) => {
            let ghost header = project@;
            match find_project(projects, &project.id) {
                Some(i) => {
                    proof {
                        lemma_project_index_at(before, header.id, i as int);
                    }
                    projects[i].tasks.push(task);
                    assert(views(projects[i as int].tasks@) =~= before[i as int].tasks.push(filed));
                    assert(views(projects@) =~= before.update(
                        i as int,
                        project_add(before[i as int], filed),
                    ));
                },
                None => {
                    proof {
                        lemma_project_index_none(before, header.id);
                    }
                    let mut group = ProjectTree {
                        id: project.id.clone(),
                        title: project.title.clone(),
                        notes: copy_text(&project.notes),
                        tags: copy_strings(&project.tags),
                        tasks: Vec::new(),
                    };
                    group.tasks.push(task);
                    assert(views(group.tasks@) =~= seq![filed]);
                    assert(group@ == project_opened(header, filed));
                    projects.push(group);
                    assert(views(projects@) =~= before.push(project_opened(header, filed)));
                },
            }
        },
        None => {
            let ghost waiting = views(hanging@);
            hanging.push(task);
            assert(views(hanging@) =~= waiting.push(filed));
        },
    }
}

impl ProjectTree {
    /// The project's id.
    pub fn id(&self) -> (id: &String)
        ensures
            id@ == self@.id,
    {
        &self.id
    }

    /// The project's title.
    pub fn title(&self) -> (title: &String)
        ensures
            title@ == self@.title,
    {
        &self.title
    }

    /// The project's notes.
    pub fn notes(&self) -> (notes: &Option<String>)
        ensures
            text_of(*notes) == self@.notes,
    {
        &self.notes
    }

    /// The project's tags.
    pub fn tags(&self) -> (tags: &Vec<String>)
        ensures
            views(tags@) == self@.tags,
    {
        &self.tags
    }

    /// The project's tasks, in the order in which they were filed.
    pub fn tasks(&self) -> (tasks: &Vec<Task>)
        ensures
            views(tasks@) == self@.tasks,
    {
        &self.tasks
    }
}

impl AreaTree {
    /// An area group that holds nothing yet.
    pub fn new(id: &str, title: &str) -> (area: AreaTree)
        ensures
            area@ == area_opened((AreaView { id: id@, title: title@ })),
            area_well_formed(area@),
    {
        let area = AreaTree {
            id: id.to_owned(),
            title: title.to_owned(),
            projects: Vec::new(),
            hanging_tasks: Vec::new(),
        };
        assert(views(area.projects@) =~= Seq::<ProjectTreeView>::empty());
        assert(views(area.hanging_tasks@) =~= Seq::empty());
        area
    }

    /// Files a task under this area: under its project, or, where it has
    /// none, at the end of the area's own tasks.
    pub fn add_task(&mut self, task: Task)
        ensures
            final(self)@ == area_add(old(self)@, task@),
            area_well_formed(old(self)@) ==> area_well_formed(final(self)@),
    {
        proof {
            lemma_area_add_well_formed(self@, task@);
        }
        file_task(&mut self.projects, &mut self.hanging_tasks, task);
    }

    /// The area's id.
    pub fn id(&self) -> (id: &String)
        ensures
            id@ == self@.id,
    {
        &self.id
    }

    /// The area's title.
    pub fn title(&self) -> (title: &String)
        ensures
            title@ == self@.title,
    {
        &self.title
    }

    /// The area's projects, in the order in which they first appeared.
    pub fn projects(&self) -> (projects: &Vec<ProjectTree>)
        ensures
            views(projects@) == self@.projects,
    {
        &self.projects
    }

    /// The area's tasks that have no project, in the order in which they were filed.
    pub fn hanging_tasks(&self) -> (tasks: &Vec<Task>)
        ensures
            views(tasks@) == self@.hanging_tasks,
    {
        &self.hanging_tasks
    }
}

/// The index of the first area group whose id is `id`, where there is one.
fn find_area(areas: &Vec<AreaTree>, id: &String) -> (found: Option<usize>)
    ensures
        found is Some ==> is_area_index(views(areas@), id@, found->0 as int),
        found is None ==> forall|j: int|
            0 <= j < areas.len() ==> (#[trigger] views(areas@)[j]).id != id@,
{
    let mut i: usize = 0;
    while i < areas.len()
        invariant
            i <= areas.len(),
            forall|j: int| 0 <= j < i ==> (#[trigger] views(areas@)[j]).id != id@,
        decreases areas.len() - i,
    {
        if areas[i].id == *id {
            return Some(i);
        }
        i = i + 1;
    }
    None
}

impl ThingsTree {
    /// The tree that holds nothing.
    pub fn new() -> (tree: ThingsTree)
        ensures
            tree@ == empty_tree(),
            tree_well_formed(tree@),
    {
        let tree = ThingsTree {
            areas: Vec::new(),
            hanging_tasks: Vec::new(),
            hanging_projects: Vec::new(),
        };
        assert(views(tree.areas@) =~= Seq::<AreaTreeView>::empty());
        assert(views(tree.hanging_projects@) =~= Seq::<ProjectTreeView>::empty());
        assert(views(tree.hanging_tasks@) =~= Seq::empty());
        tree
    }

    /// Files one task: under its area, or, where it has none, under its
    /// project among the projects without an area, or, where it has neither,
    /// at the end of the tasks that hang free.
    pub fn add_task(&mut self, task: Task)
        ensures
            final(self)@ == tree_add(old(self)@, task@),
            tree_well_formed(old(self)@) ==> tree_well_formed(final(self)@),
    {
        proof {
            if tree_well_formed(self@) {
                lemma_tree_add_well_formed(self@, task@);
            }
        }
        let ghost before = self@;
        let ghost filed = task@;
        match &task.area {
            Some(area) => {
                match find_area(&self.areas, &area.id) {
                    Some(i) => {
                        proof {
                            lemma_area_index_at(before.areas, filed.area->0.id, i as int);
                        }
                        self.areas[i].add_task(task);
                        assert(views(self.areas@) =~= before.areas.update(
                            i as int,
                            area_add(before.areas[i as int], filed),
                        ));
                    },
                    None => {
                        proof {
                            lemma_area_index_none(before.areas, filed.area->0.id);
                        }
                        let mut new_area = AreaTree::new(area.id.as_str(), area.title.as_str());
                        new_area.add_task(task);
                        self.areas.push(new_area);
                        assert(views(self.areas@) =~= before.areas.push(
                            area_add(area_opened(filed.area->0), filed),
                        ));
                    },
                }
            },
            None => {
                file_task(&mut self.hanging_projects, &mut self.hanging_tasks, task);
            },
        }
    }

    /// The tree of a task list: each task filed in turn, the first task first.
    pub fn from_tasks(tasks: Vec<Task>) -> (tree: ThingsTree)
        ensures
            tree@ == build(views(tasks@)),
            tree_well_formed(tree@),
    {
        proof {
            lemma_build_well_formed(views(tasks@));
        }
        let mut tree = ThingsTree::new();
        proof {
            lemma_build_empty();
        }
        let ghost all = views(tasks@);
        assert(all.take(0) =~= Seq::empty());
        for task in it: tasks
            invariant
                it.seq() == tasks@,
                all == views(tasks@),
                tree@ == build(all.take(it.index() as int)),
        {
            proof {
                let i = it.index() as int;
                lemma_build_push(all.take(i), task@);
                assert(all.take(i + 1) =~= all.take(i).push(task@));
            }
            tree.add_task(task);
        }
        assert(all.take(tasks@.len() as int) =~= all);
        tree
    }

    /// The areas, in the order in which they first appeared.
    pub fn areas(&self) -> (areas: &Vec<AreaTree>)
        ensures
            views(areas@) == self@.areas,
    {
        &self.areas
    }

    /// The projects that have no area, in the order in which they first appeared.
    pub fn hanging_projects(&self) -> (projects: &Vec<ProjectTree>)
        ensures
            views(projects@) == self@.hanging_projects,
    {
        &self.hanging_projects
    }

    /// The tasks with neither an area nor a project, in the order in which they were filed.
    pub fn hanging_tasks(&self) -> (tasks: &Vec<Task>)
        ensures
            views(tasks@) == self@.hanging_tasks,
    {
        &self.hanging_tasks
    }
}

/// How much of the tree a report shows.
#[derive(Clone, Copy, Debug, PartialEq, Eq, Structural)]
pub enum Resolution {
    /// Every task under its project.
    FullTask,
    /// The projects alone.
    Project,
}

impl Default for Resolution {
    fn default() -> (resolution: Resolution)
        ensures
            resolution == Resolution::FullTask,
    {
        Resolution::FullTask
    }
}

/// What a caller asks of a report.
#[derive(Clone, Debug)]
pub struct ReportOptions {
    /// How much of the tree to show.
    pub resolution: Resolution,
    /// The tags that select sections of notes.
    pub tags: Vec<String>,
    /// Whether to disguise the names that an item's tags hold.
    pub sanitize_names: bool,
}

/// What `ReportOptions` hold.
pub struct OptionsView {
    pub resolution: Resolution,
    pub tags: Seq<Seq<char>>,
    pub sanitize_names: bool,
}

impl View for ReportOptions {
    type V = OptionsView;

    open spec fn view(&self) -> OptionsView {
        OptionsView {
            resolution: self.resolution,
            tags: views(self.tags@),
            sanitize_names: self.sanitize_names,
        }
    }
}

/// The characters of each of `tags`.
fn tag_chars(tags: &Vec<String>) -> (out: Vec<Vec<char>>)
    ensures
        views(out@) == views(tags@),
{
    let mut out: Vec<Vec<char>> = Vec::new();
    let mut i: usize = 0;
    while i < tags.len()
        invariant
            i <= tags.len(),
            out@.len() == i,
            forall|j: int| 0 <= j < i ==> out@[j]@ == tags@[j]@,
        decreases tags.len() - i,
    {
        out.push(to_chars(tags[i].as_str()));
        i = i + 1;
    }
    assert(views(out@) =~= views(tags@));
    out
}

/// What a section of a notes field adds to a report with `tags`.
fn note_of_section(section: &Vec<char>, tags: &Vec<Vec<char>>) -> (note: Option<String>)
    ensures
        text_of(note) == section_note(section@, views(tags@)),
{
    let ghost all = views(tags@);
    let mut i: usize = 0;
    while i < tags.len()
        invariant
            i <= tags.len(),
            all == views(tags@),
            forall|j: int| 0 <= j < i ==> !(#[trigger] all[j]).is_prefix_of(section@),
        decreases tags.len() - i,
    {
        let tag = &tags[i];
        let found = matches_at(section, tag, 0);
        assert(found == all[i as int].is_prefix_of(section@));
        if found {
            let bounds = trim_bounds(section, tag.len(), section.len());
            let mut note = String::new();
            append_chars(&mut note, section, bounds.0, bounds.1);
            proof {
                assert(is_tag_index(section@, all, i as int));
                let k = choose|k: int| is_tag_index(section@, all, k);
                assert(k == i) by {
                    if k < i {
                        assert(!all[k].is_prefix_of(section@));
                    } else if i < k {
                        assert(!all[i as int].is_prefix_of(section@));
                    }
                }
                assert(section@.skip(tag@.len() as int) =~= section@.subrange(
                    tag@.len() as int,
                    section@.len() as int,
                ));
                assert(note@ =~= section@.subrange(bounds.0 as int, bounds.1 as int));
            }
            return Some(note);
        }
        i = i + 1;
    }
    proof {
        if exists|k: int| is_tag_index(section@, all, k) {
            let k = choose|k: int| is_tag_index(section@, all, k);
            assert(all[k].is_prefix_of(section@));
        }
    }
    None
}

/// The notes of a list of sections with one more section at its end.
proof fn lemma_notes_push(done: Seq<Seq<char>>, section: Seq<char>, tags: Seq<Seq<char>>)
    ensures
        done.push(section).filter_map(note_of(tags)) == match section_note(section, tags) {
            Some(note) => done.filter_map(note_of(tags)).push(note),
            None => done.filter_map(note_of(tags)),
        },
{
    assert(done.push(section).drop_last() =~= done);
    match section_note(section, tags) {
        Some(note) => {
            assert(done.filter_map(note_of(tags)) + seq![note] =~= done.filter_map(
                note_of(tags),
            ).push(note));
        },
        None => {},
    }
}

/// The fenced pieces of a list of pieces with one more piece at its end:
/// the new piece is fenced where an odd number of pieces stood before it.
proof fn lemma_fenced_push(pieces: Seq<Seq<char>>, piece: Seq<char>)
    ensures
        fenced(pieces.push(piece)) == if pieces.len() % 2 == 1 {
            fenced(pieces).push(piece)
        } else {
            fenced(pieces)
        },
{
    if pieces.len() % 2 == 1 {
        assert(fenced(pieces.push(piece)) =~= fenced(pieces).push(piece));
    } else {
        assert(fenced(pieces.push(piece)) =~= fenced(pieces));
    }
}

/// The notes that a report with `tags` takes from a notes field. The field
/// is cut at every fence of three backticks, and every second piece is a
/// section: what stands between an opening fence and the fence that closes
/// it, or the end of the field. Each section that begins with one of the
/// tags gives one note: what follows the first such tag, trimmed. A section
/// of several lines is one note. Text outside the fences gives no note.
pub fn extract_tagged_notes(notes: &str, tags: &Vec<String>) -> (found: Vec<String>)
    ensures
        views(found@) == tagged_notes(notes@, views(tags@)),
{
    let text = to_chars(notes);
    let tags = tag_chars(tags);
    let mut marker: Vec<char> = Vec::new();
    marker.push('`');
    marker.push('`');
    marker.push('`');
    assert(marker@ =~= fence());
    let cut = split(&text, &marker);
    let ghost all = views(tags@);
    let ghost pieces = views(cut@);
    let mut found: Vec<String> = Vec::new();
    let mut inside = false;
    let mut i: usize = 0;
    assert(fenced(pieces.take(0)).filter_map(note_of(all)) =~= views(found@));
    while i < cut.len()
        invariant
            i <= cut.len(),
            all == views(tags@),
            pieces == views(cut@),
            inside == (i % 2 == 1),
            views(found@) == fenced(pieces.take(i as int)).filter_map(note_of(all)),
        decreases cut.len() - i,
    {
        let ghost before = views(found@);
        proof {
            lemma_fenced_push(pieces.take(i as int), pieces[i as int]);
            lemma_notes_push(fenced(pieces.take(i as int)), pieces[i as int], all);
            assert(pieces.take(i + 1) =~= pieces.take(i as int).push(pieces[i as int]));
        }
        if inside {
            match note_of_section(&cut[i], &tags) {
                Some(note) => {
                    found.push(note);
                    assert(views(found@) =~= before.push(note@));
                },
                None => {},
            }
        }
        inside = !inside;
        i = i + 1;
    }
    assert(pieces.take(cut.len() as int) =~= pieces);
    found
}

/// Two blocks of a report with a blank line between them, or, where one of
/// them is empty, the other alone.
pub fn join_blocks(before: &str, after: &str) -> (out: String)
    ensures
        out@ == blocks(before@, after@),
{
    let mut out = String::new();
    append_text(&mut out, before);
    if !before.is_empty() && !after.is_empty() {
        push_char(&mut out, '\n');
        push_char(&mut out, '\n');
    }
    append_text(&mut out, after);
    assert(out@ =~= blocks(before@, after@));
    out
}

/// A report put together from its rendered parts: the areas, as rendered
/// for a single one or for several, or nothing where there is none; and, at
/// full resolution only, after a blank line the tasks with neither area nor
/// project, a line break between each two.
pub open spec fn assembled(
    resolution: Resolution,
    areas: nat,
    single_area: Seq<char>,
    multiple_areas: Seq<char>,
    tasks: Seq<Seq<char>>,
) -> Seq<char> {
    let area_block = if areas == 0 {
        Seq::empty()
    } else if areas == 1 {
        single_area
    } else {
        multiple_areas
    };
    match resolution {
        Resolution::FullTask => blocks(area_block, join(tasks, newline())),
        Resolution::Project => area_block,
    }
}

/// A way to render the parts of a tree. What a reporter renders depends on
/// the part, the depth and the options alone.
pub trait Reporter {
    /// What `report_task` renders.
    spec fn task_rendered(task: TaskView, depth: nat, options: OptionsView) -> Seq<char>;

    /// What `report_project` renders.
    spec fn project_rendered(project: ProjectTreeView, depth: nat, options: OptionsView) -> Seq<
        char,
    >;

    /// What `report_single_area` renders.
    spec fn single_area_rendered(area: AreaTreeView, options: OptionsView) -> Seq<char>;

    /// What `report_multiple_areas` renders.
    spec fn multiple_areas_rendered(areas: Seq<AreaTreeView>, options: OptionsView) -> Seq<
        char,
    >;

    /// A task, indented by `depth` spaces.
    fn report_task(&mut self, task: &Task, depth: usize, options: &ReportOptions) -> (out: String)
        ensures
            out@ == Self::task_rendered(task@, depth as nat, options@),
    ;

    /// A project, indented by `depth` spaces.
    fn report_project(
        &mut self,
        project: &ProjectTree,
        depth: usize,
        options: &ReportOptions,
    ) -> (out: String)
        requires
            depth + 4 <= usize::MAX,
        ensures
            out@ == Self::project_rendered(project@, depth as nat, options@),
    ;

    /// An area that stands alone, without a heading.
    fn report_single_area(&mut self, area: &AreaTree, options: &ReportOptions) -> (out: String)
        ensures
            out@ == Self::single_area_rendered(area@, options@),
    ;

    /// Several areas.
    fn report_multiple_areas(&mut self, areas: &Vec<AreaTree>, options: &ReportOptions) -> (out:
        String)
        ensures
            out@ == Self::multiple_areas_rendered(views(areas@), options@),
    ;

    /// The report of a task list: the tasks are grouped into a tree, and the
    /// tree is rendered: its areas and, at full resolution, after a blank
    /// line its tasks with neither area nor project. At project resolution
    /// no task is rendered. The projects without an area are grouped and not
    /// rendered.
    fn report(&mut self, tasks: Vec<Task>, options: &ReportOptions) -> (out: String)
        ensures
            out@ == assembled(
                options@.resolution,
                build(views(tasks@)).areas.len(),
                Self::single_area_rendered(build(views(tasks@)).areas[0], options@),
                Self::multiple_areas_rendered(build(views(tasks@)).areas, options@),
                Seq::new(
                    build(views(tasks@)).hanging_tasks.len(),
                    |i: int|
                        Self::task_rendered(build(views(tasks@)).hanging_tasks[i], 0, options@),
                ),
            ),
    {
        let tree = ThingsTree::from_tasks(tasks);
        let ghost shape = tree@;
        let areas = tree.areas();
        let area_tasks = if areas.len() == 0 {
            String::new()
        } else if areas.len() == 1 {
            self.report_single_area(&areas[0], options)
        } else {
            self.report_multiple_areas(areas, options)
        };
        match options.resolution {
            Resolution::Project => area_tasks,
            Resolution::FullTask => {
                let hanging = tree.hanging_tasks();
                let mut untracked_tasks = String::new();
                let ghost mut lines: Seq<Seq<char>> = Seq::empty();
                let mut i: usize = 0;
                while i < hanging.len()
                    invariant
                        i <= hanging.len(),
                        views(hanging@) == shape.hanging_tasks,
                        lines.len() == i,
                        forall|k: int|
                            0 <= k < i ==> lines[k] == Self::task_rendered(
                                shape.hanging_tasks[k],
                                0,
                                options@,
                            ),
                        untracked_tasks@ == join(lines, newline()),
                    decreases hanging.len() - i,
                {
                    let line = self.report_task(&hanging[i], 0, options);
                    if i > 0 {
                        push_char(&mut untracked_tasks, '\n');
                    }
                    append_text(&mut untracked_tasks, line.as_str());
                    proof {
                        lemma_join_push(lines, newline(), line@);
                        assert(untracked_tasks@ =~= join(lines.push(line@), newline()));
                        lines = lines.push(line@);
                    }
                    i = i + 1;
                }
                assert(lines =~= Seq::new(
                    shape.hanging_tasks.len(),
                    |i: int| Self::task_rendered(shape.hanging_tasks[i], 0, options@),
                ));
                join_blocks(area_tasks.as_str(), untracked_tasks.as_str())
            },
        }
    }
}

/// Appends the tagged notes of a notes field to `out`, each as a line under
/// an item at `depth`.
fn append_notes(out: &mut String, notes: &Option<String>, tags: &Vec<String>, depth: usize)
    ensures
        final(out)@ == old(out)@ + note_lines(text_of(*notes), views(tags@), depth as nat),
{
    match notes {
        Some(text) => {
            let found = extract_tagged_notes(text.as_str(), tags);
            let ghost all = views(found@);
            let ghost mut lines: Seq<Seq<char>> = Seq::empty();
            let mut i: usize = 0;
            assert(out@ =~= old(out)@ + concat(lines));
            while i < found.len()
                invariant
                    i <= found.len(),
                    all == views(found@),
                    lines.len() == i,
                    forall|k: int| 0 <= k < i ==> lines[k] == note_line(depth as nat, all[k]),
                    out@ == old(out)@ + concat(lines),
                decreases found.len() - i,
            {
                let ghost before = out@;
                push_char(out, '\n');
                push_spaces(out, depth);
                push_spaces(out, 4);
                push_char(out, '-');
                push_char(out, ' ');
                append_text(out, found[i].as_str());
                proof {
                    let line = note_line(depth as nat, all[i as int]);
                    assert(spaces(depth as nat) + spaces(4) =~= spaces((depth + 4) as nat));
                    assert(out@ =~= before + line);
                    lemma_concat_push(lines, line);
                    assert(out@ =~= old(out)@ + concat(lines.push(line)));
                    lines = lines.push(line);
                }
                i = i + 1;
            }
            assert(lines =~= Seq::new(all.len(), |i: int| note_line(depth as nat, all[i])));
        },
        None => {
            assert(out@ =~= old(out)@ + Seq::<char>::empty());
        },
    }
}

/// Renders a tree as markdown for a team chat.
#[derive(Clone, Copy, Debug)]
pub struct MarkdownReporter;

impl Reporter for MarkdownReporter {
    open spec fn task_rendered(task: TaskView, depth: nat, options: OptionsView) -> Seq<char> {
        task_text(task, depth, options)
    }

    open spec fn project_rendered(
        project: ProjectTreeView,
        depth: nat,
        options: OptionsView,
    ) -> Seq<char> {
        project_text(project, depth, options)
    }

    open spec fn single_area_rendered(area: AreaTreeView, options: OptionsView) -> Seq<char> {
        area_text(area, options)
    }

    open spec fn multiple_areas_rendered(areas: Seq<AreaTreeView>, options: OptionsView) -> Seq<
        char,
    > {
        areas_text(areas, options)
    }

    /// A task as a bullet, indented by `depth` spaces, its title struck
    /// through where it was canceled, and under it, each on a line of its
    /// own, the tagged sections of its notes. The text neither begins nor
    /// ends with a line break of its own.
    fn report_task(&mut self, task: &Task, depth: usize, options: &ReportOptions) -> (out: String) {
        let mut out = String::new();
        push_spaces(&mut out, depth);
        push_char(&mut out, '-');
        push_char(&mut out, ' ');
        match task.status {
            Status::Canceled => {
                push_char(&mut out, '~');
                append_text(&mut out, task.title.as_str());
                push_char(&mut out, '~');
            },
            _ => {
                append_text(&mut out, task.title.as_str());
            },
        }
        assert(out@ =~= spaces(depth as nat) + bullet() + shown_title(task@));
        append_notes(&mut out, &task.notes, &options.tags, depth);
        if options.sanitize_names {
            out = sanitize_names(out.as_str(), &task.tags);
        }
        out
    }

    /// A project, indented by `depth` spaces: its title, its notes and, each
    /// on a new line and four spaces deeper, its tasks; or, at project
    /// resolution, a bullet with its title, and its notes.
    fn report_project(
        &mut self,
        project: &ProjectTree,
        depth: usize,
        options: &ReportOptions,
    ) -> (out: String) {
        let mut out = String::new();
        push_spaces(&mut out, depth);
        match options.resolution {
            Resolution::FullTask => {
                append_text(&mut out, project.title.as_str());
                append_notes(&mut out, &project.notes, &options.tags, depth);
                let ghost head = out@;
                let ghost all = views(project.tasks@);
                let ghost mut lines: Seq<Seq<char>> = Seq::empty();
                let mut i: usize = 0;
                assert(out@ =~= head + concat(lines));
                while i < project.tasks.len()
                    invariant
                        i <= project.tasks.len(),
                        depth + 4 <= usize::MAX,
                        all == views(project.tasks@),
                        lines.len() == i,
                        forall|k: int|
                            0 <= k < i ==> lines[k] == newline() + task_text(
                                all[k],
                                (depth + 4) as nat,
                                options@,
                            ),
                        out@ == head + concat(lines),
                    decreases project.tasks.len() - i,
                {
                    let line = self.report_task(&project.tasks[i], depth + 4, options);
                    push_char(&mut out, '\n');
                    append_text(&mut out, line.as_str());
                    proof {
                        assert(all[i as int] == project.tasks[i as int]@);
                        assert(line@ == task_text(all[i as int], (depth + 4) as nat, options@));
                        let row = newline() + line@;
                        lemma_concat_push(lines, row);
                        assert(out@ =~= head + concat(lines.push(row)));
                        lines = lines.push(row);
                    }
                    i = i + 1;
                }
                assert(lines =~= task_rows(all, (depth + 4) as nat, options@));
                assert(out@ =~= project_line(project@, depth as nat, options@));
            },
            Resolution::Project => {
                push_char(&mut out, '-');
                push_char(&mut out, ' ');
                append_text(&mut out, project.title.as_str());
                append_notes(&mut out, &project.notes, &options.tags, depth);
                assert(out@ =~= project_line(project@, depth as nat, options@));
            },
        }
        if options.sanitize_names {
            out = sanitize_names(out.as_str(), &project.tags);
        }
        assert(Self::project_rendered(project@, depth as nat, options@) == project_text(
            project@,
            depth as nat,
            options@,
        ));
        out
    }

    /// An area without a heading: its projects, a line break between each
    /// two, and at full resolution, after one blank line, its own tasks, a
    /// line break between each two.
    fn report_single_area(&mut self, area: &AreaTree, options: &ReportOptions) -> (out: String) {
        let mut project_reports = String::new();
        let ghost projects = views(area.projects@);
        let ghost mut parts: Seq<Seq<char>> = Seq::empty();
        let mut i: usize = 0;
        while i < area.projects.len()
            invariant
                i <= area.projects.len(),
                projects == views(area.projects@),
                parts.len() == i,
                forall|k: int| 0 <= k < i ==> parts[k] == project_text(projects[k], 0, options@),
                project_reports@ == join(parts, newline()),
            decreases area.projects.len() - i,
        {
            let part = self.report_project(&area.projects[i], 0, options);
            if i > 0 {
                push_char(&mut project_reports, '\n');
            }
            append_text(&mut project_reports, part.as_str());
            proof {
                assert(projects[i as int] == area.projects[i as int]@);
                assert(Self::project_rendered(projects[i as int], 0, options@) == project_text(
                    projects[i as int],
                    0,
                    options@,
                ));
                lemma_join_push(parts, newline(), part@);
                assert(project_reports@ =~= join(parts.push(part@), newline()));
                parts = parts.push(part@);
            }
            i = i + 1;
        }
        assert(parts =~= project_texts(projects, 0, options@));
        assert(project_reports@ == project_block(area@, options@));
        match options.resolution {
            Resolution::FullTask => {
                let mut untracked_tasks = String::new();
                let ghost tasks = views(area.hanging_tasks@);
                let ghost mut lines: Seq<Seq<char>> = Seq::empty();
                let mut j: usize = 0;
                while j < area.hanging_tasks.len()
                    invariant
                        j <= area.hanging_tasks.len(),
                        tasks == views(area.hanging_tasks@),
                        lines.len() == j,
                        forall|k: int| 0 <= k < j ==> lines[k] == task_text(tasks[k], 0, options@),
                        untracked_tasks@ == join(lines, newline()),
                    decreases area.hanging_tasks.len() - j,
                {
                    let line = self.report_task(&area.hanging_tasks[j], 0, options);
                    if j > 0 {
                        push_char(&mut untracked_tasks, '\n');
                    }
                    append_text(&mut untracked_tasks, line.as_str());
                    proof {
                        assert(line@ == task_text(tasks[j as int], 0, options@));
                        lemma_join_push(lines, newline(), line@);
                        assert(untracked_tasks@ =~= join(lines.push(line@), newline()));
                        lines = lines.push(line@);
                    }
                    j = j + 1;
                }
                assert(lines =~= task_texts(tasks, 0, options@));
                assert(untracked_tasks@ == task_block(area@, options@));
                join_blocks(project_reports.as_str(), untracked_tasks.as_str())
            },
            Resolution::Project => project_reports,
        }
    }

    /// Areas: none gives nothing, one stands without a heading, and two or
    /// more stand each under its title in bold, a blank line between each two.
    fn report_multiple_areas(&mut self, areas: &Vec<AreaTree>, options: &ReportOptions) -> (out:
        String) {
        if areas.len() == 0 {
            return String::new();
        }
        if areas.len() == 1 {
            return self.report_single_area(&areas[0], options);
        }
        let mut out = String::new();
        let ghost all = views(areas@);
        let ghost mut parts: Seq<Seq<char>> = Seq::empty();
        let mut i: usize = 0;
        while i < areas.len()
            invariant
                i <= areas.len(),
                all == views(areas@),
                parts.len() == i,
                forall|k: int| 0 <= k < i ==> parts[k] == area_section(all[k], options@),
                out@ == join(parts, blank_line()),
            decreases areas.len() - i,
        {
            let single = self.report_single_area(&areas[i], options);
            let ghost before = out@;
            if i > 0 {
                push_char(&mut out, '\n');
                push_char(&mut out, '\n');
            }
            push_char(&mut out, '*');
            append_text(&mut out, areas[i].title.as_str());
            push_char(&mut out, '*');
            push_char(&mut out, '\n');
            append_text(&mut out, single.as_str());
            proof {
                let part = area_section(all[i as int], options@);
                assert(single@ == area_text(all[i as int], options@));
                lemma_join_push(parts, blank_line(), part);
                if i > 0 {
                    assert(out@ =~= before + blank_line() + part);
                } else {
                    assert(out@ =~= part);
                }
                parts = parts.push(part);
            }
            i = i + 1;
        }
        assert(parts =~= Seq::new(all.len(), |i: int| area_section(all[i], options@)));
        out
    }
}

} // verus!
