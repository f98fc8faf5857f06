//! Disguising names so that a chat platform does not read them as mentions.
//!
//! A tag that begins with `@` names a person. Every occurrence of such a name
//! in a rendered text has its lower-case vowels replaced by letters of other
//! alphabets that look the same.

use crate::text::{
    append_chars, first_occurrence, from_chars, is_first_occurrence, lemma_first_occurrence_at,
    lemma_first_occurrence_none, occurs_in, replace, replace_all, to_chars, views,
};
use vstd::prelude::*;

verus! {

/// The look-alike of a lower-case vowel; every other character stands for itself.
pub open spec fn homoglyph(c: char) -> char {
    if c == 'a' {
        '\u{430}'
    } else if c == 'e' {
        '\u{435}'
    } else if c == 'i' {
        '\u{456}'
    } else if c == 'o' {
        '\u{43e}'
    } else if c == 'u' {
        '\u{57d}'
    } else {
        c
    }
}

/// `s` with each lower-case vowel replaced by its look-alike.
pub open spec fn disguise(s: Seq<char>) -> Seq<char> {
    Seq::new(s.len(), |i: int| homoglyph(s[i]))
}

/// A tag that names a person: it begins with `@`.
pub open spec fn is_name_tag(tag: Seq<char>) -> bool {
    tag.len() > 0 && tag[0] == '@'
}

/// The names that the tags hold, in the order of the tags: each tag that
/// begins with `@`, without that one character.
pub open spec fn names_of(tags: Seq<Seq<char>>) -> Seq<Seq<char>> {
    tags.filter(|t: Seq<char>| is_name_tag(t)).map_values(|t: Seq<char>| t.skip(1))
}

/// `text` with each occurrence of `name` disguised.
pub open spec fn scrub(text: Seq<char>, name: Seq<char>) -> Seq<char> {
    replace_all(text, name, disguise(name))
}

/// `text` scrubbed of each of the names in turn, the first name first.
pub open spec fn scrub_all(text: Seq<char>, names: Seq<Seq<char>>) -> Seq<char>
    decreases names.len(),
{
    if names.len() == 0 {
        text
    } else {
        scrub(scrub_all(text, names.drop_last()), names.last())
    }
}

/// `text` scrubbed of the names that `tags` hold.
pub open spec fn sanitized(text: Seq<char>, tags: Seq<Seq<char>>) -> Seq<char> {
    scrub_all(text, names_of(tags))
}

/// The names of a list of tags with one more tag at its end.
pub proof fn lemma_names_of_push(tags: Seq<Seq<char>>, tag: Seq<char>)
    ensures
        names_of(tags.push(tag)) == if is_name_tag(tag) {
            names_of(tags).push(tag.skip(1))
        } else {
            names_of(tags)
        },
{
    let named = |t: Seq<char>| is_name_tag(t);
    tags.lemma_filter_push(tag, named);
    if is_name_tag(tag) {
        assert(names_of(tags.push(tag)) =~= names_of(tags).push(tag.skip(1)));
    }
}

/// A name that stands nowhere in a text leaves the text as it is.
pub proof fn lemma_scrub_absent(text: Seq<char>, name: Seq<char>)
    requires
        !occurs_in(text, name),
    ensures
        scrub(text, name) == text,
{
    lemma_first_occurrence_none(text, name);
}

/// Names of which none stands in a text leave the text as it is.
pub proof fn lemma_scrub_all_absent(text: Seq<char>, names: Seq<Seq<char>>)
    requires
        forall|k: int| 0 <= k < names.len() ==> !occurs_in(text, #[trigger] names[k]),
    ensures
        scrub_all(text, names) == text,
    decreases names.len(),
{
    if names.len() > 0 {
        lemma_scrub_all_absent(text, names.drop_last());
        assert(!occurs_in(text, names[names.len() - 1]));
        lemma_scrub_absent(text, names.last());
    }
}

/// Tags of which none begins with `@` hold no name, and leave every text as it is.
pub proof fn lemma_sanitized_without_names(text: Seq<char>, tags: Seq<Seq<char>>)
    requires
        forall|k: int| 0 <= k < tags.len() ==> !is_name_tag(#[trigger] tags[k]),
    ensures
        names_of(tags) == Seq::<Seq<char>>::empty(),
        sanitized(text, tags) == text,
    decreases tags.len(),
{
    if tags.len() > 0 {
        lemma_sanitized_without_names(text, tags.drop_last());
        assert(!is_name_tag(tags[tags.len() - 1]));
        lemma_names_of_push(tags.drop_last(), tags.last());
        assert(tags.drop_last().push(tags.last()) =~= tags);
    } else {
        let named = |t: Seq<char>| is_name_tag(t);
        tags.lemma_filter_len(named);
        assert(names_of(tags) =~= Seq::<Seq<char>>::empty());
    }
}

/// Where a name first stands in a text at index `i`, the scrubbed text keeps
/// what came before `i` and has the disguised name in the name's place.
pub proof fn lemma_scrub_first(text: Seq<char>, name: Seq<char>, i: int)
    requires
        name.len() > 0,
        is_first_occurrence(text, name, i),
    ensures
        (text.take(i) + disguise(name)).is_prefix_of(scrub(text, name)),
{
    lemma_first_occurrence_at(text, name, i);
    let head = text.take(i) + disguise(name);
    let tail = replace_all(text.skip(i + name.len()), name, disguise(name));
    assert(scrub(text, name) == head + tail);
    assert((head + tail).subrange(0, head.len() as int) =~= head);
}

/// Scrubbing changes a text character by character: each character of the
/// scrubbed text is the character that stood there, or its look-alike.
pub proof fn lemma_scrub_pointwise(text: Seq<char>, name: Seq<char>, k: int)
    requires
        0 <= k < text.len(),
    ensures
        scrub(text, name).len() == text.len(),
        scrub(text, name)[k] == text[k] || scrub(text, name)[k] == homoglyph(text[k]),
    decreases text.len(),
{
    lemma_scrub_keeps_length(text, name);
    if name.len() > 0 {
        match first_occurrence(text, name) {
            Some(i) => {
                assert(is_first_occurrence(text, name, i));
                let rest = text.skip(i + name.len());
                lemma_scrub_keeps_length(rest, name);
                let out = text.take(i) + disguise(name) + scrub(rest, name);
                assert(scrub(text, name) == out);
                if k < i {
                    assert(out[k] == text[k]);
                } else if k < i + name.len() {
                    assert(out[k] == disguise(name)[k - i]);
                    assert(text.subrange(i, i + name.len())[k - i] == text[k]);
                } else {
                    lemma_scrub_pointwise(rest, name, k - i - name.len());
                    assert(out[k] == scrub(rest, name)[k - i - name.len()]);
                    assert(rest[k - i - name.len()] == text[k]);
                }
            },
            None => {},
        }
    }
}

/// A character that is its own look-alike stays where it is when names are
/// disguised: only lower-case vowels ever change.
pub proof fn lemma_sanitized_pointwise(text: Seq<char>, tags: Seq<Seq<char>>, k: int)
    requires
        0 <= k < text.len(),
        homoglyph(text[k]) == text[k],
    ensures
        sanitized(text, tags).len() == text.len(),
        sanitized(text, tags)[k] == text[k],
{
    lemma_scrub_all_pointwise(text, names_of(tags), k);
}

/// A character that is its own look-alike stays where it is when a text is
/// scrubbed of names.
pub proof fn lemma_scrub_all_pointwise(text: Seq<char>, names: Seq<Seq<char>>, k: int)
    requires
        0 <= k < text.len(),
        homoglyph(text[k]) == text[k],
    ensures
        scrub_all(text, names).len() == text.len(),
        scrub_all(text, names)[k] == text[k],
    decreases names.len(),
{
    if names.len() > 0 {
        lemma_scrub_all_pointwise(text, names.drop_last(), k);
        lemma_scrub_pointwise(scrub_all(text, names.drop_last()), names.last(), k);
    }
}

/// A disguised name is as long as the name, so scrubbing keeps the length of a text.
pub proof fn lemma_scrub_keeps_length(text: Seq<char>, name: Seq<char>)
    ensures
        scrub(text, name).len() == text.len(),
    decreases text.len(),
{
    if name.len() > 0 {
        match first_occurrence(text, name) {
            Some(i) => {
                assert(is_first_occurrence(text, name, i));
                lemma_scrub_keeps_length(text.skip(i + name.len()), name);
            },
            None => {},
        }
    }
}

/// Disguising names keeps the length of a text.
pub proof fn lemma_sanitized_keeps_length(text: Seq<char>, tags: Seq<Seq<char>>)
    ensures
        sanitized(text, tags).len() == text.len(),
{
    lemma_scrub_all_keeps_length(text, names_of(tags));
}

/// Scrubbing a text of names keeps its length.
pub proof fn lemma_scrub_all_keeps_length(text: Seq<char>, names: Seq<Seq<char>>)
    ensures
        scrub_all(text, names).len() == text.len(),
    decreases names.len(),
{
    if names.len() > 0 {
        lemma_scrub_all_keeps_length(text, names.drop_last());
        lemma_scrub_keeps_length(scrub_all(text, names.drop_last()), names.last());
    }
}

/// The look-alike of a lower-case vowel; every other character is returned as it is.
pub fn homoglyph_of(c: char) -> (r: char)
    ensures
        r == homoglyph(c),
{
    if c == 'a' {
        '\u{430}'
    } else if c == 'e' {
        '\u{435}'
    } else if c == 'i' {
        '\u{456}'
    } else if c == 'o' {
        '\u{43e}'
    } else if c == 'u' {
        '\u{57d}'
    } else {
        c
    }
}

fn disguise_chars(s: &Vec<char>) -> (out: Vec<char>)
    ensures
        out@ == disguise(s@),
{
    let mut out: Vec<char> = Vec::new();
    let mut i: usize = 0;
    while i < s.len()
        invariant
            i <= s.len(),
            out@ == disguise(s@.take(i as int)),
        decreases s.len() - i,
    {
        out.push(homoglyph_of(s[i]));
        i = i + 1;
        assert(out@ =~= disguise(s@.take(i as int)));
    }
    assert(s@.take(s.len() as int) =~= s@);
    out
}

/// `src` with each lower-case vowel replaced by its look-alike.
pub fn sanitize(src: &str) -> (out: String)
    ensures
        out@ == disguise(src@),
{
    let chars = to_chars(src);
    let disguised = disguise_chars(&chars);
    from_chars(&disguised)
}

/// `src` scrubbed of each of `names` in turn, the first name first.
pub fn sanitize_strings(src: &str, names: &Vec<String>) -> (out: String)
    ensures
        out@ == scrub_all(src@, views(names@)),
{
    let mut dest = to_chars(src);
    let mut i: usize = 0;
    while i < names.len()
        invariant
            i <= names.len(),
            dest@ == scrub_all(src@, views(names@).take(i as int)),
        decreases names.len() - i,
    {
        let name = to_chars(names[i].as_str());
        let replacement = disguise_chars(&name);
        dest = replace(&dest, &name, &replacement);
        proof {
            assert(views(names@).take(i + 1).drop_last() =~= views(names@).take(i as int));
        }
        i = i + 1;
    }
    assert(views(names@).take(names.len() as int) =~= views(names@));
    from_chars(&dest)
}

/// The name that a tag holds: the tag without its leading `@`. A tag that
/// does not begin with `@` holds no name, and is not accepted.
pub fn name_of_tag(tag: &str) -> (name: String)
    requires
        is_name_tag(tag@),
    ensures
        name@ == tag@.skip(1),
{
    let chars = to_chars(tag);
    let mut name = String::new();
    append_chars(&mut name, &chars, 1, chars.len());
    assert(name@ =~= tag@.skip(1));
    name
}

/// Whether a tag names a person.
pub fn has_name(tag: &str) -> (b: bool)
    ensures
        b == is_name_tag(tag@),
{
    let chars = to_chars(tag);
    chars.len() > 0 && chars[0] == '@'
}

/// The names that `tags` hold, in the order of the tags.
pub fn extract_names_from_tags(tags: &Vec<String>) -> (names: Vec<String>)
    ensures
        views(names@) == names_of(views(tags@)),
{
    let mut names: Vec<String> = Vec::new();
    let mut i: usize = 0;
    assert(views(tags@).take(0) =~= Seq::<Seq<char>>::empty());
    proof {
        lemma_sanitized_without_names(Seq::empty(), Seq::empty());
    }
    assert(views(names@) =~= Seq::<Seq<char>>::empty());
    while i < tags.len()
        invariant
            i <= tags.len(),
            views(names@) == names_of(views(tags@).take(i as int)),
        decreases tags.len() - i,
    {
        let ghost before = views(names@);
        proof {
            lemma_names_of_push(views(tags@).take(i as int), tags@[i as int]@);
            assert(views(tags@).take(i + 1) =~= views(tags@).take(i as int).push(tags@[i as int]@));
        }
        if has_name(tags[i].as_str()) {
            let name = name_of_tag(tags[i].as_str());
            names.push(name);
            assert(views(names@) =~= before.push(tags@[i as int]@.skip(1)));
        }
        i = i + 1;
    }
    assert(views(tags@).take(tags.len() as int) =~= views(tags@));
    names
}

/// `src` with every name that `tags` hold disguised wherever it occurs.
pub fn sanitize_names(src: &str, tags: &Vec<String>) -> (out: String)
    ensures
        out@ == sanitized(src@, views(tags@)),
{
    let name_tags = extract_names_from_tags(tags);
    sanitize_strings(src, &name_tags)
}

} // verus!
