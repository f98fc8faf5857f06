//! What the markdown report of a tree is, character for character.
//!
//! A task is one line, `- title`, indented by `depth` spaces; the tagged
//! sections of its notes follow, each on a line of its own, four spaces
//! deeper. A project is its title followed by its notes and, each on a new
//! line, its tasks, or, at project resolution, one bullet line. An area is
//! its projects and then its own tasks, one blank line between the two. A
//! report is its areas and, at full resolution, the tasks that belong to
//! neither an area nor a project.

use crate::grouping::{build, lemma_build_empty, AreaTreeView, ProjectTreeView, ThingsTreeView};
use crate::names::{lemma_sanitized_keeps_length, lemma_sanitized_pointwise, sanitized};
use crate::reporter::{
    assembled, MarkdownReporter, OptionsView, ReportOptions, Reporter, Resolution,
};
use crate::text::{
    concat, is_space, join, lemma_first_occurrence_none, lemma_trim, occurs_in, spaces, split_on,
    trim, views,
};
use crate::things::task::{Status, Task, TaskView};
use vstd::prelude::*;

verus! {

/// The marker that opens and closes a section of notes: three backticks.
pub open spec fn fence() -> Seq<char> {
    seq!['`', '`', '`']
}

/// `i` is the first index of a tag that `section` begins with.
pub open spec fn is_tag_index(section: Seq<char>, tags: Seq<Seq<char>>, i: int) -> bool {
    &&& 0 <= i < tags.len()
    &&& tags[i].is_prefix_of(section)
    &&& forall|j: int| 0 <= j < i ==> !(#[trigger] tags[j]).is_prefix_of(section)
}

/// The first of `tags` that `section` begins with, where there is one.
pub open spec fn matching_tag(section: Seq<char>, tags: Seq<Seq<char>>) -> Option<Seq<char>> {
    if exists|i: int| is_tag_index(section, tags, i) {
        Some(tags[choose|i: int| is_tag_index(section, tags, i)])
    } else {
        None
    }
}

/// What a section of notes adds to a report: where it begins with one of
/// `tags`, what follows the first such tag, trimmed; else nothing.
pub open spec fn section_note(section: Seq<char>, tags: Seq<Seq<char>>) -> Option<Seq<char>> {
    match matching_tag(section, tags) {
        Some(tag) => Some(trim(section.skip(tag.len() as int))),
        None => None,
    }
}

/// `section_note` for given tags.
pub open spec fn note_of(tags: Seq<Seq<char>>) -> spec_fn(Seq<char>) -> Option<Seq<char>> {
    |section: Seq<char>| section_note(section, tags)
}

/// The fenced ones among the pieces that the fences cut a notes field into:
/// the fences open and close in turn, so these are the second piece, the
/// fourth, and so on. A last fence that is never closed opens a section
/// that runs to the end of the field.
pub open spec fn fenced(pieces: Seq<Seq<char>>) -> Seq<Seq<char>> {
    Seq::new(pieces.len() / 2, |i: int| pieces[2 * i + 1])
}

/// The sections of a notes field: what stands between an opening fence and
/// the fence that closes it. Text outside the fences is no section.
pub open spec fn sections(notes: Seq<char>) -> Seq<Seq<char>> {
    fenced(split_on(notes, fence()))
}

/// The notes that a report with `tags` takes from a notes field: each
/// section that begins with one of the tags gives one note, in the order of
/// the field.
pub open spec fn tagged_notes(notes: Seq<char>, tags: Seq<Seq<char>>) -> Seq<Seq<char>> {
    sections(notes).filter_map(note_of(tags))
}

/// A bullet: a hyphen and a space.
pub open spec fn bullet() -> Seq<char> {
    seq!['-', ' ']
}

/// A line break.
pub open spec fn newline() -> Seq<char> {
    seq!['\n']
}

/// Two line breaks: between two blocks of which the first does not end with
/// a line break and the second does not begin with one, one empty line.
pub open spec fn blank_line() -> Seq<char> {
    seq!['\n', '\n']
}

/// What stands between two blocks: a blank line, or nothing where one of
/// the blocks is empty.
pub open spec fn separator(before: Seq<char>, after: Seq<char>) -> Seq<char> {
    if before.len() == 0 || after.len() == 0 {
        Seq::empty()
    } else {
        blank_line()
    }
}

/// Two blocks with their separator between them.
pub open spec fn blocks(before: Seq<char>, after: Seq<char>) -> Seq<char> {
    before + separator(before, after) + after
}

/// One note under an item at `depth`: a line of its own, four spaces deeper.
pub open spec fn note_line(depth: nat, note: Seq<char>) -> Seq<char> {
    newline() + spaces(depth + 4) + bullet() + note
}

/// The tagged notes of a notes field, each as a line under an item at `depth`.
pub open spec fn note_lines(notes: Option<Seq<char>>, tags: Seq<Seq<char>>, depth: nat) -> Seq<
    char,
> {
    match notes {
        Some(n) => {
            let found = tagged_notes(n, tags);
            concat(Seq::new(found.len(), |i: int| note_line(depth, found[i])))
        },
        None => Seq::empty(),
    }
}

/// A task's title as a report shows it: struck through where the task was canceled.
pub open spec fn shown_title(task: TaskView) -> Seq<char> {
    if task.status == Status::Canceled {
        seq!['~'] + task.title + seq!['~']
    } else {
        task.title
    }
}

/// A text with the names of `tags` disguised, where the options ask for it.
pub open spec fn guarded(text: Seq<char>, tags: Seq<Seq<char>>, options: OptionsView) -> Seq<char> {
    if options.sanitize_names {
        sanitized(text, tags)
    } else {
        text
    }
}

/// A task at `depth`, before any name is disguised: the indent, the bullet
/// and the title, and then the task's notes.
pub open spec fn task_line(task: TaskView, depth: nat, options: OptionsView) -> Seq<char> {
    spaces(depth) + bullet() + shown_title(task) + note_lines(task.notes, options.tags, depth)
}

/// A task at `depth`: its line and its notes, with the names of the task's
/// own tags disguised where the options ask for it.
pub open spec fn task_text(task: TaskView, depth: nat, options: OptionsView) -> Seq<char> {
    guarded(task_line(task, depth, options), task.tags, options)
}

/// The texts of `tasks` at `depth`, in order.
pub open spec fn task_texts(tasks: Seq<TaskView>, depth: nat, options: OptionsView) -> Seq<
    Seq<char>,
> {
    Seq::new(tasks.len(), |i: int| task_text(tasks[i], depth, options))
}

/// The tasks of a project at `depth`, each on a new line.
pub open spec fn task_rows(tasks: Seq<TaskView>, depth: nat, options: OptionsView) -> Seq<
    Seq<char>,
> {
    Seq::new(tasks.len(), |i: int| newline() + task_text(tasks[i], depth, options))
}

/// A project at `depth`, before any name is disguised: at full resolution
/// its title, its notes and, four spaces deeper and each on a new line, its
/// tasks; at project resolution a bullet with its title, and its notes.
pub open spec fn project_line(project: ProjectTreeView, depth: nat, options: OptionsView) -> Seq<
    char,
> {
    let notes = note_lines(project.notes, options.tags, depth);
    match options.resolution {
        Resolution::FullTask => spaces(depth) + project.title + notes + concat(
            task_rows(project.tasks, depth + 4, options),
        ),
        Resolution::Project => spaces(depth) + bullet() + project.title + notes,
    }
}

/// A project at `depth`, with the names of the project's own tags disguised
/// where the options ask for it.
pub open spec fn project_text(project: ProjectTreeView, depth: nat, options: OptionsView) -> Seq<
    char,
> {
    guarded(project_line(project, depth, options), project.tags, options)
}

/// The texts of `projects` at `depth`, in order.
pub open spec fn project_texts(
    projects: Seq<ProjectTreeView>,
    depth: nat,
    options: OptionsView,
) -> Seq<Seq<char>> {
    Seq::new(projects.len(), |i: int| project_text(projects[i], depth, options))
}

/// The projects of an area, one after another, a line break between each two.
pub open spec fn project_block(area: AreaTreeView, options: OptionsView) -> Seq<char> {
    join(project_texts(area.projects, 0, options), newline())
}

/// The tasks of an area that have no project, a line break between each two.
pub open spec fn task_block(area: AreaTreeView, options: OptionsView) -> Seq<char> {
    join(task_texts(area.hanging_tasks, 0, options), newline())
}

/// An area without a heading: at full resolution its projects and its own
/// tasks, as two blocks; at project resolution its projects alone.
pub open spec fn area_text(area: AreaTreeView, options: OptionsView) -> Seq<char> {
    match options.resolution {
        Resolution::FullTask => blocks(project_block(area, options), task_block(area, options)),
        Resolution::Project => project_block(area, options),
    }
}

/// An area under its heading: the title in bold on a line of its own, and
/// on the next line the area.
pub open spec fn area_section(area: AreaTreeView, options: OptionsView) -> Seq<char> {
    seq!['*'] + area.title + seq!['*', '\n'] + area_text(area, options)
}

/// Areas: none gives nothing, one stands without a heading, and two or more
/// stand each under its heading, a blank line between each two.
pub open spec fn areas_text(areas: Seq<AreaTreeView>, options: OptionsView) -> Seq<char> {
    if areas.len() == 0 {
        Seq::empty()
    } else if areas.len() == 1 {
        area_text(areas[0], options)
    } else {
        join(Seq::new(areas.len(), |i: int| area_section(areas[i], options)), blank_line())
    }
}

/// The tasks with neither area nor project, a line break between each two.
pub open spec fn loose_block(tree: ThingsTreeView, options: OptionsView) -> Seq<char> {
    join(task_texts(tree.hanging_tasks, 0, options), newline())
}

/// The report of a tree: at full resolution its areas, then its tasks with
/// neither area nor project, as two blocks; at project resolution its areas
/// alone. The projects without an area are not shown.
pub open spec fn report_text(tree: ThingsTreeView, options: OptionsView) -> Seq<char> {
    match options.resolution {
        Resolution::FullTask => blocks(
            areas_text(tree.areas, options),
            loose_block(tree, options),
        ),
        Resolution::Project => areas_text(tree.areas, options),
    }
}

/// A project without its tasks.
pub open spec fn project_without_tasks(project: ProjectTreeView) -> ProjectTreeView {
    ProjectTreeView { tasks: Seq::empty(), ..project }
}

/// An area without any task: its projects without theirs, and none of its own.
pub open spec fn area_without_tasks(area: AreaTreeView) -> AreaTreeView {
    AreaTreeView {
        projects: Seq::new(area.projects.len(), |i: int| project_without_tasks(area.projects[i])),
        hanging_tasks: Seq::empty(),
        ..area
    }
}

/// A tree without any task: the headers of its areas and projects alone.
pub open spec fn without_tasks(tree: ThingsTreeView) -> ThingsTreeView {
    ThingsTreeView {
        areas: Seq::new(tree.areas.len(), |i: int| area_without_tasks(tree.areas[i])),
        hanging_projects: Seq::new(
            tree.hanging_projects.len(),
            |i: int| project_without_tasks(tree.hanging_projects[i]),
        ),
        hanging_tasks: Seq::empty(),
    }
}

/// Text outside the fences gives no note: notes without a fence give none.
pub proof fn lemma_notes_without_fence(notes: Seq<char>, tags: Seq<Seq<char>>)
    requires
        !occurs_in(notes, fence()),
    ensures
        sections(notes) == Seq::<Seq<char>>::empty(),
        tagged_notes(notes, tags) == Seq::<Seq<char>>::empty(),
{
    lemma_first_occurrence_none(notes, fence());
    assert(split_on(notes, fence()) =~= seq![notes]);
    assert(sections(notes) =~= Seq::<Seq<char>>::empty());
}

/// `note` is what a section of `notes` gives: what follows the first of
/// `tags` that the section begins with, trimmed.
pub open spec fn is_note_of_section(note: Seq<char>, notes: Seq<char>, tags: Seq<Seq<char>>) -> bool {
    exists|section: Seq<char>| #[trigger]
        sections(notes).contains(section) && section_note(section, tags) == Some(note)
}

/// There are no more notes than sections, each note is what a section
/// gives, and without tags there is no note.
pub proof fn lemma_notes_come_from_sections(notes: Seq<char>, tags: Seq<Seq<char>>)
    ensures
        tagged_notes(notes, tags).len() <= sections(notes).len(),
        sections(notes).len() == split_on(notes, fence()).len() / 2,
        forall|k: int|
            0 <= k < tagged_notes(notes, tags).len() ==> is_note_of_section(
                #[trigger] tagged_notes(notes, tags)[k],
                notes,
                tags,
            ),
        tags.len() == 0 ==> tagged_notes(notes, tags).len() == 0,
{
    let found = tagged_notes(notes, tags);
    lemma_filter_map_len(sections(notes), tags);
    assert forall|k: int| 0 <= k < found.len() implies is_note_of_section(
        #[trigger] found[k],
        notes,
        tags,
    ) by {
        assert(found.contains(found[k]));
        sections(notes).lemma_filter_map_contains(note_of(tags), found[k]);
        let section = choose|section: Seq<char>| #[trigger]
            sections(notes).contains(section) && note_of(tags)(section) == Some(found[k]);
        assert(sections(notes).contains(section) && section_note(section, tags) == Some(
            found[k],
        ));
    }
    if tags.len() == 0 && found.len() > 0 {
        assert(is_note_of_section(found[0], notes, tags));
        let section = choose|section: Seq<char>| #[trigger]
            sections(notes).contains(section) && section_note(section, tags) == Some(found[0]);
        assert(matching_tag(section, tags) is Some);
        let i = choose|i: int| is_tag_index(section, tags, i);
        assert(0 <= i < tags.len());
    }
}

/// A note neither begins nor ends with white space.
pub proof fn lemma_note_is_trimmed(section: Seq<char>, tags: Seq<Seq<char>>)
    requires
        section_note(section, tags) is Some,
    ensures
        section_note(section, tags)->0.len() > 0 ==> !is_space(section_note(section, tags)->0[0])
            && !is_space(section_note(section, tags)->0.last()),
{
    let tag = matching_tag(section, tags)->0;
    lemma_trim(section.skip(tag.len() as int));
}

/// Sections give no more notes than there are sections.
proof fn lemma_filter_map_len(pieces: Seq<Seq<char>>, tags: Seq<Seq<char>>)
    ensures
        pieces.filter_map(note_of(tags)).len() <= pieces.len(),
    decreases pieces.len(),
{
    if pieces.len() > 0 {
        lemma_filter_map_len(pieces.drop_last(), tags);
    }
}

/// A task is never rendered as nothing: its text is at least its bullet.
pub proof fn lemma_task_text_not_empty(task: TaskView, depth: nat, options: OptionsView)
    ensures
        task_text(task, depth, options).len() >= 2,
{
    lemma_sanitized_keeps_length(task_line(task, depth, options), task.tags);
}

/// A task that is not indented begins with the hyphen of its bullet, also
/// where names are disguised in it: not with a line break.
pub proof fn lemma_task_text_begins_with_bullet(task: TaskView, options: OptionsView)
    ensures
        task_text(task, 0, options).len() >= 2,
        task_text(task, 0, options)[0] == '-',
{
    let line = task_line(task, 0, options);
    lemma_task_text_not_empty(task, 0, options);
    assert(line[0] == '-');
    lemma_sanitized_pointwise(line, task.tags, 0);
}

/// At full resolution an area is its project block and its task block with
/// exactly one blank line between them: the two line breaks, after which the
/// task block begins with the bullet of the area's first task. Where one of
/// the two blocks is empty, the area is the other alone, with no blank line
/// before or after it. An area without tasks of its own has an empty task
/// block.
pub proof fn lemma_area_blocks(area: AreaTreeView, options: OptionsView)
    requires
        options.resolution == Resolution::FullTask,
    ensures
        project_block(area, options).len() > 0 && task_block(area, options).len() > 0
            ==> area_text(area, options) == project_block(area, options) + blank_line()
            + task_block(area, options),
        task_block(area, options).len() == 0 ==> area_text(area, options) == project_block(
            area,
            options,
        ),
        project_block(area, options).len() == 0 ==> area_text(area, options) == task_block(
            area,
            options,
        ),
        area.hanging_tasks.len() == 0 ==> task_block(area, options).len() == 0,
        area.hanging_tasks.len() > 0 ==> task_block(area, options).len() > 0 && task_block(
            area,
            options,
        )[0] == '-',
{
    let projects = project_block(area, options);
    let tasks = task_block(area, options);
    if tasks.len() == 0 {
        assert(projects + Seq::<char>::empty() + tasks =~= projects);
    }
    if projects.len() == 0 {
        assert(projects + Seq::<char>::empty() + tasks =~= tasks);
    }
    if area.hanging_tasks.len() > 0 {
        lemma_tasks_joined_begin_with_bullet(area.hanging_tasks, options);
    }
}

/// Tasks that are not indented, joined by line breaks, begin with the hyphen
/// of the first task's bullet.
pub proof fn lemma_tasks_joined_begin_with_bullet(tasks: Seq<TaskView>, options: OptionsView)
    requires
        tasks.len() > 0,
    ensures
        join(task_texts(tasks, 0, options), newline()).len() > 0,
        join(task_texts(tasks, 0, options), newline())[0] == '-',
    decreases tasks.len(),
{
    let texts = task_texts(tasks, 0, options);
    lemma_task_text_begins_with_bullet(tasks[0], options);
    if tasks.len() > 1 {
        let rest = tasks.drop_last();
        lemma_tasks_joined_begin_with_bullet(rest, options);
        assert(texts.drop_last() =~= task_texts(rest, 0, options));
    }
}

/// At full resolution a report is its areas and its loose tasks with exactly
/// one blank line between them; where one of the two is empty, it is the
/// other alone. A report of no tasks is empty.
pub proof fn lemma_report_blocks(tree: ThingsTreeView, options: OptionsView)
    requires
        options.resolution == Resolution::FullTask,
    ensures
        areas_text(tree.areas, options).len() > 0 && loose_block(tree, options).len() > 0
            ==> report_text(tree, options) == areas_text(tree.areas, options) + blank_line()
            + loose_block(tree, options),
        loose_block(tree, options).len() == 0 ==> report_text(tree, options) == areas_text(
            tree.areas,
            options,
        ),
        areas_text(tree.areas, options).len() == 0 ==> report_text(tree, options) == loose_block(
            tree,
            options,
        ),
        tree.hanging_tasks.len() == 0 ==> loose_block(tree, options).len() == 0,
        tree.hanging_tasks.len() > 0 ==> loose_block(tree, options).len() > 0 && loose_block(
            tree,
            options,
        )[0] == '-',
{
    let areas = areas_text(tree.areas, options);
    let loose = loose_block(tree, options);
    if loose.len() == 0 {
        assert(areas + Seq::<char>::empty() + loose =~= areas);
    }
    if areas.len() == 0 {
        assert(areas + Seq::<char>::empty() + loose =~= loose);
    }
    if tree.hanging_tasks.len() > 0 {
        lemma_tasks_joined_begin_with_bullet(tree.hanging_tasks, options);
    }
}

/// The report of no tasks is empty, at either resolution.
pub proof fn lemma_report_of_nothing(options: OptionsView)
    ensures
        report_text(build(Seq::empty()), options) == Seq::<char>::empty(),
{
    lemma_build_empty();
    let tree = build(Seq::empty());
    assert(task_texts(tree.hanging_tasks, 0, options) =~= Seq::<Seq<char>>::empty());
    assert(report_text(tree, options) =~= Seq::<char>::empty());
}

/// At project resolution a project is rendered from its header alone.
pub proof fn lemma_project_text_without_tasks(
    project: ProjectTreeView,
    depth: nat,
    options: OptionsView,
)
    requires
        options.resolution == Resolution::Project,
    ensures
        project_text(project, depth, options) == project_text(
            project_without_tasks(project),
            depth,
            options,
        ),
{
}

/// At project resolution an area is rendered from the headers of its projects alone.
pub proof fn lemma_area_text_without_tasks(area: AreaTreeView, options: OptionsView)
    requires
        options.resolution == Resolution::Project,
    ensures
        area_text(area, options) == area_text(area_without_tasks(area), options),
        area_section(area, options) == area_section(area_without_tasks(area), options),
{
    let bare = area_without_tasks(area);
    assert forall|i: int| 0 <= i < area.projects.len() implies project_text(
        area.projects[i],
        0,
        options,
    ) == project_text(bare.projects[i], 0, options) by {
        lemma_project_text_without_tasks(area.projects[i], 0, options);
    }
    assert(project_texts(area.projects, 0, options) =~= project_texts(bare.projects, 0, options));
}

/// At project resolution no task is rendered, wherever it stands in the
/// tree: the report reads the same when every task is taken out of the
/// tree, and it is the areas alone. A tree that holds loose tasks and
/// nothing else gives the empty report.
pub proof fn lemma_project_resolution_shows_no_task(tree: ThingsTreeView, options: OptionsView)
    requires
        options.resolution == Resolution::Project,
    ensures
        report_text(tree, options) == report_text(without_tasks(tree), options),
        report_text(tree, options) == areas_text(tree.areas, options),
        tree.areas.len() == 0 ==> report_text(tree, options) == Seq::<char>::empty(),
{
    let bare = without_tasks(tree);
    assert forall|i: int| 0 <= i < tree.areas.len() implies area_text(tree.areas[i], options)
        == area_text(bare.areas[i], options) && area_section(tree.areas[i], options)
        == area_section(bare.areas[i], options) by {
        lemma_area_text_without_tasks(tree.areas[i], options);
    }
    if tree.areas.len() >= 2 {
        assert(Seq::new(tree.areas.len(), |i: int| area_section(tree.areas[i], options))
            =~= Seq::new(bare.areas.len(), |i: int| area_section(bare.areas[i], options)));
    }
}

/// What the markdown reporter hands back for a task list is the markdown
/// report of the list's tree.
pub proof fn lemma_markdown_report(tasks: Seq<TaskView>, options: OptionsView)
    ensures
        assembled(
            options.resolution,
            build(tasks).areas.len(),
            MarkdownReporter::single_area_rendered(build(tasks).areas[0], options),
            MarkdownReporter::multiple_areas_rendered(build(tasks).areas, options),
            Seq::new(
                build(tasks).hanging_tasks.len(),
                |i: int| MarkdownReporter::task_rendered(build(tasks).hanging_tasks[i], 0, options),
            ),
        ) == report_text(build(tasks), options),
{
    let tree = build(tasks);
    assert(Seq::new(
        tree.hanging_tasks.len(),
        |i: int| MarkdownReporter::task_rendered(tree.hanging_tasks[i], 0, options),
    ) =~= task_texts(tree.hanging_tasks, 0, options));
    let areas = areas_text(tree.areas, options);
    assert(blocks(areas, Seq::empty()) =~= areas);
}

/// A report depends on what the tasks and the options hold and on nothing
/// else: task lists that hold the same, rendered with options that hold the
/// same, give the same report, however often they are rendered.
pub proof fn lemma_report_is_repeatable(
    tasks: Seq<Task>,
    options: ReportOptions,
    again: Seq<Task>,
    options_again: ReportOptions,
)
    requires
        views(tasks) == views(again),
        options@ == options_again@,
    ensures
        report_text(build(views(tasks)), options@) == report_text(
            build(views(again)),
            options_again@,
        ),
{
}

} // verus!
