//! Emoji for the head of a report, drawn at random from a list.

use crate::text::{from_chars, split, split_on, to_chars, views};
use rand::seq::SliceRandom;
use rand::thread_rng;
use vstd::prelude::*;

verus! {

/// `picked` is a draw of `count` from `lines`: the first `count` of the lines
/// in some order, or all of them where there are fewer.
pub open spec fn is_draw(picked: Seq<Seq<char>>, lines: Seq<Seq<char>>, count: nat) -> bool {
    exists|shuffled: Seq<Seq<char>>| is_draw_from(picked, lines, count, shuffled)
}

/// `picked` is the first `count` of `shuffled`, which holds what `lines`
/// hold, each line as often.
pub open spec fn is_draw_from(
    picked: Seq<Seq<char>>,
    lines: Seq<Seq<char>>,
    count: nat,
    shuffled: Seq<Seq<char>>,
) -> bool {
    &&& shuffled.to_multiset() == lines.to_multiset()
    &&& picked == first_of(shuffled, count)
}

/// The first `count` of `items`, or all of them where there are fewer.
pub open spec fn first_of(items: Seq<Seq<char>>, count: nat) -> Seq<Seq<char>> {
    if count <= items.len() {
        items.take(count as int)
    } else {
        items
    }
}

/// A draw holds as many lines as were asked for, or all of them where there
/// are fewer, and every line that it holds is a line of the list.
pub proof fn lemma_draw(picked: Seq<Seq<char>>, lines: Seq<Seq<char>>, count: nat)
    requires
        is_draw(picked, lines, count),
    ensures
        picked.len() == if count <= lines.len() {
            count
        } else {
            lines.len()
        },
        forall|i: int| 0 <= i < picked.len() ==> lines.contains(#[trigger] picked[i]),
{
    broadcast use vstd::seq_lib::group_to_multiset_ensures;

    let shuffled = choose|shuffled: Seq<Seq<char>>| is_draw_from(picked, lines, count, shuffled);
    assert(shuffled.len() == lines.len()) by {
        assert(shuffled.to_multiset().len() == lines.to_multiset().len());
    }
    assert forall|i: int| 0 <= i < picked.len() implies lines.contains(#[trigger] picked[i]) by {
        assert(picked[i] == shuffled[i]);
        assert(shuffled.contains(shuffled[i]));
        assert(shuffled.to_multiset().count(picked[i]) > 0);
        assert(lines.to_multiset().count(picked[i]) > 0);
    }
}

/// Puts `items` into a random order, by `SliceRandom::shuffle` with the
/// thread's generator. The shuffle only swaps elements, so afterwards the
/// list holds what it held, each item as often; in which order is not known.
#[verifier::external_body]
fn shuffle(items: &mut Vec<String>)
    ensures
        views(final(items)@).to_multiset() == views(old(items)@).to_multiset(),
{
    items.shuffle(&mut thread_rng());
}

/// The lines of a list of emoji: the pieces between its line breaks.
pub fn lines_of(list: &str) -> (lines: Vec<String>)
    ensures
        views(lines@) == split_on(list@, seq!['\n']),
{
    let text = to_chars(list);
    let mut line_break: Vec<char> = Vec::new();
    line_break.push('\n');
    assert(line_break@ =~= seq!['\n']);
    let pieces = split(&text, &line_break);
    let mut lines: Vec<String> = Vec::new();
    let mut i: usize = 0;
    while i < pieces.len()
        invariant
            i <= pieces.len(),
            lines@.len() == i,
            forall|j: int| 0 <= j < i ==> lines@[j]@ == pieces@[j]@,
        decreases pieces.len() - i,
    {
        lines.push(from_chars(&pieces[i]));
        i = i + 1;
    }
    assert(views(lines@) =~= views(pieces@));
    lines
}

/// The first `count` of `items`, or all of them where there are fewer.
pub fn keep_first(items: Vec<String>, count: usize) -> (kept: Vec<String>)
    ensures
        views(kept@) == first_of(views(items@), count as nat),
{
    let mut kept = items;
    kept.truncate(count);
    assert(views(kept@) =~= first_of(views(items@), count as nat));
    kept
}

/// `count` emoji drawn at random from a list that has one emoji on each
/// line, or all of them, in a random order, where the list has fewer.
pub fn pick(list: &str, count: usize) -> (picked: Vec<String>)
    ensures
        is_draw(views(picked@), split_on(list@, seq!['\n']), count as nat),
{
    let mut emoji = lines_of(list);
    shuffle(&mut emoji);
    let ghost shuffled = views(emoji@);
    let picked = keep_first(emoji, count);
    assert(is_draw_from(views(picked@), split_on(list@, seq!['\n']), count as nat, shuffled));
    picked
}

} // verus!
