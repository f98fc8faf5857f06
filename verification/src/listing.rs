//! Which tasks a report takes, in what order, and how a list of them is
//! turned into the report's text.

use crate::grouping::{build, lemma_filter_none};
use crate::render::{lemma_markdown_report, report_text};
use crate::reporter::{MarkdownReporter, OptionsView, ReportOptions, Reporter, Resolution};
use crate::text::{append_text, copy_strings, push_char, views};
use crate::things::task::{holds_tag, Task, TaskView, Timestamp};
use vstd::prelude::*;

verus! {

/// The list of the task manager that a report is made from.
#[derive(Clone, Copy, Debug, PartialEq, Eq, Structural)]
pub enum ListType {
    /// The tasks planned for today.
    Today,
    /// The tasks that are done.
    Logbook,
}

impl Default for ListType {
    fn default() -> (list: ListType)
        ensures
            list == ListType::Today,
    {
        ListType::Today
    }
}

/// The options that hold the given resolution, tags and choice.
pub open spec fn options_of(
    resolution: Resolution,
    tags: Seq<Seq<char>>,
    sanitize_names: bool,
) -> OptionsView {
    OptionsView { resolution, tags, sanitize_names }
}

impl ListType {
    /// The markdown report of `tasks`. Both lists are rendered alike.
    pub fn format_tasks(
        &self,
        tasks: Vec<Task>,
        tags: &Vec<String>,
        sanitize_names: bool,
        resolution: Resolution,
    ) -> (out: String)
        ensures
            out@ == report_text(
                build(views(tasks@)),
                options_of(resolution, views(tags@), sanitize_names),
            ),
    {
        let copy = copy_strings(tags);
        let options = ReportOptions { resolution, tags: copy, sanitize_names };
        proof {
            lemma_markdown_report(views(tasks@), options@);
        }
        let mut reporter = MarkdownReporter;
        reporter.report(tasks, &options)
    }
}

/// A task is wanted where it carries every one of `tags` and none of `omit`.
pub open spec fn is_wanted(task: TaskView, tags: Seq<Seq<char>>, omit: Seq<Seq<char>>) -> bool {
    &&& forall|i: int| 0 <= i < tags.len() ==> task.tags.contains(#[trigger] tags[i])
    &&& forall|i: int| 0 <= i < omit.len() ==> !task.tags.contains(#[trigger] omit[i])
}

/// `is_wanted` for given tags.
pub open spec fn wanted(tags: Seq<Seq<char>>, omit: Seq<Seq<char>>) -> spec_fn(TaskView) -> bool {
    |task: TaskView| is_wanted(task, tags, omit)
}

/// Whether a task carries every one of `tags` and none of `omit`.
pub fn matches_filters(task: &Task, tags: &Vec<String>, omit: &Vec<String>) -> (b: bool)
    ensures
        b == is_wanted(task@, views(tags@), views(omit@)),
{
    let mut i: usize = 0;
    while i < tags.len()
        invariant
            i <= tags.len(),
            forall|j: int| 0 <= j < i ==> task@.tags.contains(#[trigger] views(tags@)[j]),
        decreases tags.len() - i,
    {
        if !holds_tag(&task.tags, tags[i].as_str()) {
            assert(!task@.tags.contains(views(tags@)[i as int]));
            return false;
        }
        i = i + 1;
    }
    let mut k: usize = 0;
    while k < omit.len()
        invariant
            k <= omit.len(),
            forall|j: int| 0 <= j < k ==> !task@.tags.contains(#[trigger] views(omit@)[j]),
        decreases omit.len() - k,
    {
        if holds_tag(&task.tags, omit[k].as_str()) {
            assert(task@.tags.contains(views(omit@)[k as int]));
            return false;
        }
        k = k + 1;
    }
    true
}

/// The tasks that carry every one of `tags` and none of `omit`, in the order of the list.
pub fn select(tasks: Vec<Task>, tags: &Vec<String>, omit: &Vec<String>) -> (kept: Vec<Task>)
    ensures
        views(kept@) == views(tasks@).filter(wanted(views(tags@), views(omit@))),
{
    let ghost all = views(tasks@);
    let ghost chosen = wanted(views(tags@), views(omit@));
    let mut kept: Vec<Task> = Vec::new();
    proof {
        all.take(0).lemma_filter_len(chosen);
        assert(views(kept@) =~= all.take(0).filter(chosen));
    }
    for task in it: tasks
        invariant
            it.seq() == tasks@,
            all == views(tasks@),
            chosen == wanted(views(tags@), views(omit@)),
            views(kept@) == all.take(it.index() as int).filter(chosen),
    {
        let ghost before = views(kept@);
        proof {
            let i = it.index() as int;
            all.take(i).lemma_filter_push(task@, chosen);
            assert(all.take(i + 1) =~= all.take(i).push(task@));
        }
        if matches_filters(&task, tags, omit) {
            let ghost taken = task@;
            kept.push(task);
            assert(views(kept@) =~= before.push(taken));
        }
    }
    assert(all.take(tasks@.len() as int) =~= all);
    kept
}

/// One completion date is not later than another. A task that is not
/// completed comes before every task that is.
pub open spec fn not_later(a: Option<Timestamp>, b: Option<Timestamp>) -> bool {
    match (a, b) {
        (None, _) => true,
        (Some(_), None) => false,
        (Some(x), Some(y)) => x.secs < y.secs || (x.secs == y.secs && x.nanos <= y.nanos),
    }
}

/// `p` is where `task` goes in `sorted`: behind the last task that is not
/// later than it, and so before every task that is later.
pub open spec fn is_place(sorted: Seq<TaskView>, task: TaskView, p: int) -> bool {
    &&& 0 <= p <= sorted.len()
    &&& forall|k: int|
        p <= k < sorted.len() ==> !not_later(
            (#[trigger] sorted[k]).completion_date,
            task.completion_date,
        )
    &&& p > 0 ==> not_later(sorted[p - 1].completion_date, task.completion_date)
}

/// Where `task` goes in `sorted`.
pub open spec fn place_of(sorted: Seq<TaskView>, task: TaskView) -> int {
    choose|p: int| is_place(sorted, task, p)
}

/// The tasks by completion date, the earliest first; tasks with the same
/// date keep the order in which the list has them.
pub open spec fn sorted_by_date(tasks: Seq<TaskView>) -> Seq<TaskView>
    decreases tasks.len(),
{
    if tasks.len() == 0 {
        tasks
    } else {
        let sorted = sorted_by_date(tasks.drop_last());
        sorted.insert(place_of(sorted, tasks.last()), tasks.last())
    }
}

/// No task of `tasks` stands before one that is earlier.
pub open spec fn is_ordered(tasks: Seq<TaskView>) -> bool {
    forall|i: int, j: int|
        0 <= i < j < tasks.len() ==> not_later(
            (#[trigger] tasks[i]).completion_date,
            (#[trigger] tasks[j]).completion_date,
        )
}

/// A place is the only one.
pub proof fn lemma_place_at(sorted: Seq<TaskView>, task: TaskView, p: int)
    requires
        is_place(sorted, task, p),
    ensures
        place_of(sorted, task) == p,
{
    let q = place_of(sorted, task);
    if q < p {
        assert(!not_later(sorted[p - 1].completion_date, task.completion_date));
    } else if p < q {
        assert(!not_later(sorted[q - 1].completion_date, task.completion_date));
    }
}

/// Every task has a place in every list.
pub proof fn lemma_place_exists(sorted: Seq<TaskView>, task: TaskView)
    ensures
        is_place(sorted, task, place_of(sorted, task)),
    decreases sorted.len(),
{
    if sorted.len() == 0 {
        assert(is_place(sorted, task, 0));
    } else if not_later(sorted.last().completion_date, task.completion_date) {
        assert(is_place(sorted, task, sorted.len() as int));
    } else {
        let rest = sorted.drop_last();
        lemma_place_exists(rest, task);
        let p = place_of(rest, task);
        assert(is_place(sorted, task, p)) by {
            assert forall|k: int| p <= k < sorted.len() implies !not_later(
                (#[trigger] sorted[k]).completion_date,
                task.completion_date,
            ) by {
                if k < rest.len() {
                    assert(sorted[k] == rest[k]);
                }
            }
            if p > 0 {
                assert(sorted[p - 1] == rest[p - 1]);
            }
        }
    }
}

/// Of two dates one is not later than the other, and "not later" carries over.
pub proof fn lemma_not_later(a: Option<Timestamp>, b: Option<Timestamp>, c: Option<Timestamp>)
    ensures
        not_later(a, b) || not_later(b, a),
        not_later(a, b) && not_later(b, c) ==> not_later(a, c),
{
}

/// The sorted list is ordered, and it holds the tasks of the list, each as
/// often as the list holds it.
pub proof fn lemma_sorted_by_date(tasks: Seq<TaskView>)
    ensures
        is_ordered(sorted_by_date(tasks)),
        sorted_by_date(tasks).to_multiset() == tasks.to_multiset(),
        sorted_by_date(tasks).len() == tasks.len(),
    decreases tasks.len(),
{
    broadcast use vstd::seq_lib::group_to_multiset_ensures;

    if tasks.len() > 0 {
        let rest = tasks.drop_last();
        let t = tasks.last();
        let sorted = sorted_by_date(rest);
        lemma_sorted_by_date(rest);
        lemma_place_exists(sorted, t);
        let p = place_of(sorted, t);
        let after = sorted.insert(p, t);
        assert forall|i: int, j: int| 0 <= i < j < after.len() implies not_later(
            (#[trigger] after[i]).completion_date,
            (#[trigger] after[j]).completion_date,
        ) by {
            let a = after[i].completion_date;
            let b = after[j].completion_date;
            if j < p {
                assert(after[i] == sorted[i] && after[j] == sorted[j]);
            } else if j == p {
                assert(after[i] == sorted[i]);
                if i < p - 1 {
                    assert(not_later(sorted[i].completion_date, sorted[p - 1].completion_date));
                }
                lemma_not_later(a, sorted[p - 1].completion_date, b);
            } else if i < p {
                assert(after[i] == sorted[i] && after[j] == sorted[j - 1]);
            } else if i == p {
                assert(after[j] == sorted[j - 1]);
                lemma_not_later(a, b, a);
            } else {
                assert(after[i] == sorted[i - 1] && after[j] == sorted[j - 1]);
            }
        }
        assert(after.to_multiset() =~= sorted.to_multiset().insert(t)) by {
            let head = sorted.subrange(0, p);
            let tail = sorted.subrange(p, sorted.len() as int);
            vstd::seq_lib::lemma_multiset_commutative(head.push(t), tail);
            vstd::seq_lib::lemma_multiset_commutative(head, tail);
            assert(head + tail =~= sorted);
        }
        assert(rest.push(t) =~= tasks);
    }
}

/// The tasks completed at `date`.
pub open spec fn dated(date: Option<Timestamp>) -> spec_fn(TaskView) -> bool {
    |task: TaskView| task.completion_date == date
}

/// Sorting keeps the order of the tasks that share a completion date: the
/// tasks of any one date stand in the sorted list as they stand in the list.
pub proof fn lemma_sorted_by_date_is_stable(tasks: Seq<TaskView>, date: Option<Timestamp>)
    ensures
        sorted_by_date(tasks).filter(dated(date)) == tasks.filter(dated(date)),
    decreases tasks.len(),
{
    if tasks.len() > 0 {
        let rest = tasks.drop_last();
        let t = tasks.last();
        let sorted = sorted_by_date(rest);
        lemma_sorted_by_date_is_stable(rest, date);
        lemma_place_exists(sorted, t);
        let p = place_of(sorted, t);
        let head = sorted.subrange(0, p);
        let tail = sorted.subrange(p, sorted.len() as int);
        assert(sorted =~= head + tail);
        assert(sorted.insert(p, t) =~= head.push(t) + tail);
        Seq::filter_distributes_over_add(head, tail, dated(date));
        Seq::filter_distributes_over_add(head.push(t), tail, dated(date));
        head.lemma_filter_push(t, dated(date));
        rest.lemma_filter_push(t, dated(date));
        assert(rest.push(t) =~= tasks);
        if t.completion_date == date {
            assert forall|k: int| 0 <= k < tail.len() implies !dated(date)(#[trigger] tail[k]) by {
                assert(tail[k] == sorted[p + k]);
                lemma_not_later(date, date, date);
            }
            lemma_filter_none(tail, dated(date));
            assert(head.filter(dated(date)).push(t) + Seq::<TaskView>::empty() =~= head.filter(
                dated(date),
            ).push(t));
            assert(head.filter(dated(date)) + Seq::<TaskView>::empty() =~= head.filter(
                dated(date),
            ));
        }
    }
}

/// Whether one completion date is not later than another.
pub fn is_not_later(a: &Option<Timestamp>, b: &Option<Timestamp>) -> (r: bool)
    ensures
        r == not_later(*a, *b),
{
    match a {
        None => true,
        Some(x) => match b {
            None => false,
            Some(y) => x.secs < y.secs || (x.secs == y.secs && x.nanos <= y.nanos),
        },
    }
}

/// The tasks by completion date, the earliest first; tasks with the same
/// date keep the order in which the list has them.
pub fn sort_by_completion(tasks: Vec<Task>) -> (sorted: Vec<Task>)
    ensures
        views(sorted@) == sorted_by_date(views(tasks@)),
{
    let ghost all = views(tasks@);
    let mut sorted: Vec<Task> = Vec::new();
    assert(views(sorted@) =~= sorted_by_date(all.take(0)));
    for task in it: tasks
        invariant
            it.seq() == tasks@,
            all == views(tasks@),
            views(sorted@) == sorted_by_date(all.take(it.index() as int)),
    {
        let ghost before = views(sorted@);
        let ghost placed = task@;
        let mut p: usize = sorted.len();
        while p > 0 && !is_not_later(&sorted[p - 1].completion_date, &task.completion_date)
            invariant
                p <= sorted.len(),
                before == views(sorted@),
                placed == task@,
                forall|k: int|
                    p <= k < before.len() ==> !not_later(
                        (#[trigger] before[k]).completion_date,
                        placed.completion_date,
                    ),
            decreases p,
        {
            p = p - 1;
        }
        proof {
            assert(p > 0 ==> before[p - 1] == sorted[p - 1]@);
            lemma_place_at(before, placed, p as int);
            let i = it.index() as int;
            assert(all.take(i + 1).drop_last() =~= all.take(i));
        }
        sorted.insert(p, task);
        assert(views(sorted@) =~= before.insert(p as int, placed));
    }
    assert(all.take(tasks@.len() as int) =~= all);
    sorted
}

/// A report under its message: the message, a blank line, and the report.
pub fn under_message(message: &str, report: &str) -> (out: String)
    ensures
        out@ == message@ + seq!['\n', '\n'] + report@,
{
    let mut out = String::new();
    append_text(&mut out, message);
    push_char(&mut out, '\n');
    push_char(&mut out, '\n');
    append_text(&mut out, report);
    assert(out@ =~= message@ + seq!['\n', '\n'] + report@);
    out
}

} // verus!
