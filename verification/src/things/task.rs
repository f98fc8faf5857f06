//! Tasks, and the project and the area that a task may belong to.

use crate::text::{matches_at, to_chars, views};
use vstd::prelude::*;

verus! {

/// What has become of a task or a project.
#[derive(Clone, Copy, Debug, PartialEq, Eq, Structural)]
pub enum Status {
    Completed,
    Incomplete,
    Open,
    Canceled,
}

/// A moment, counted from the start of 1970 in UTC: whole seconds, and the
/// nanoseconds that follow them.
#[derive(Clone, Copy, Debug, PartialEq, Eq, Structural)]
pub struct Timestamp {
    pub secs: i64,
    pub nanos: u32,
}

/// The project of a task, as the task carries it.
#[derive(Clone, Debug)]
pub struct Project {
    pub id: String,
    pub title: String,
    pub tags: Vec<String>,
    pub notes: Option<String>,
    pub status: Status,
}

/// The area of a task, as the task carries it.
#[derive(Clone, Debug)]
pub struct Area {
    pub id: String,
    pub title: String,
}

/// One task.
#[derive(Clone, Debug)]
pub struct Task {
    pub id: String,
    pub title: String,
    pub notes: Option<String>,
    pub status: Status,
    pub tags: Vec<String>,
    pub completion_date: Option<Timestamp>,
    pub project: Option<Project>,
    pub area: Option<Area>,
}

/// What a `Project` holds.
pub struct ProjectView {
    pub id: Seq<char>,
    pub title: Seq<char>,
    pub tags: Seq<Seq<char>>,
    pub notes: Option<Seq<char>>,
    pub status: Status,
}

/// What an `Area` holds.
pub struct AreaView {
    pub id: Seq<char>,
    pub title: Seq<char>,
}

/// What a `Task` holds.
pub struct TaskView {
    pub id: Seq<char>,
    pub title: Seq<char>,
    pub notes: Option<Seq<char>>,
    pub status: Status,
    pub tags: Seq<Seq<char>>,
    pub completion_date: Option<Timestamp>,
    pub project: Option<ProjectView>,
    pub area: Option<AreaView>,
}

/// The characters of an optional string.
pub open spec fn text_of(s: Option<String>) -> Option<Seq<char>> {
    match s {
        Some(s) => Some(s@),
        None => None,
    }
}

impl View for Project {
    type V = ProjectView;

    open spec fn view(&self) -> ProjectView {
        ProjectView {
            id: self.id@,
            title: self.title@,
            tags: views(self.tags@),
            notes: text_of(self.notes),
            status: self.status,
        }
    }
}

impl View for Area {
    type V = AreaView;

    open spec fn view(&self) -> AreaView {
        AreaView { id: self.id@, title: self.title@ }
    }
}

impl View for Task {
    type V = TaskView;

    open spec fn view(&self) -> TaskView {
        TaskView {
            id: self.id@,
            title: self.title@,
            notes: text_of(self.notes),
            status: self.status,
            tags: views(self.tags@),
            completion_date: self.completion_date,
            project: match self.project {
                Some(p) => Some(p@),
                None => None,
            },
            area: match self.area {
                Some(a) => Some(a@),
                None => None,
            },
        }
    }
}

/// Whether `tags` hold `tag`.
pub fn holds_tag(tags: &Vec<String>, tag: &str) -> (b: bool)
    ensures
        b == views(tags@).contains(tag@),
{
    let mut i: usize = 0;
    while i < tags.len()
        invariant
            i <= tags.len(),
            forall|j: int| 0 <= j < i ==> views(tags@)[j] != tag@,
        decreases tags.len() - i,
    {
        if same_text(tags[i].as_str(), tag) {
            assert(views(tags@)[i as int] == tag@);
            return true;
        }
        i = i + 1;
    }
    false
}

/// Whether two strings hold the same characters.
pub fn same_text(a: &str, b: &str) -> (r: bool)
    ensures
        r == (a@ == b@),
{
    let x = to_chars(a);
    let y = to_chars(b);
    if x.len() != y.len() {
        return false;
    }
    let same = matches_at(&x, &y, 0);
    proof {
        if same {
            assert(x@.subrange(0, y@.len() as int) =~= x@);
        } else if x@ == y@ {
            assert(x@.subrange(0, y@.len() as int) =~= y@);
        }
    }
    same
}

impl Task {
    /// Whether the task carries `tag`.
    pub fn has_tag(&self, tag: &str) -> (b: bool)
        ensures
            b == self@.tags.contains(tag@),
    {
        holds_tag(&self.tags, tag)
    }
}

} // verus!
