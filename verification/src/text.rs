//! Text as sequences of characters: the searching, splitting, trimming and
//! joining that the report is built from, each stated over `Seq<char>`.

use vstd::prelude::*;

verus! {

/// `n` space characters.
pub open spec fn spaces(n: nat) -> Seq<char> {
    Seq::new(n, |i: int| ' ')
}

/// The characters with the Unicode property `White_Space`.
pub open spec fn is_space(c: char) -> bool {
    let n = c as u32;
    ||| 0x09 <= n <= 0x0D
    ||| n == 0x20
    ||| n == 0x85
    ||| n == 0xA0
    ||| n == 0x1680
    ||| 0x2000 <= n <= 0x200A
    ||| n == 0x2028
    ||| n == 0x2029
    ||| n == 0x202F
    ||| n == 0x205F
    ||| n == 0x3000
}

/// `s` without its leading white space.
pub open spec fn trim_start(s: Seq<char>) -> Seq<char>
    decreases s.len(),
{
    if s.len() > 0 && is_space(s[0]) {
        trim_start(s.skip(1))
    } else {
        s
    }
}

/// `s` without its trailing white space.
pub open spec fn trim_end(s: Seq<char>) -> Seq<char>
    decreases s.len(),
{
    if s.len() > 0 && is_space(s.last()) {
        trim_end(s.drop_last())
    } else {
        s
    }
}

/// `s` without its leading and trailing white space.
pub open spec fn trim(s: Seq<char>) -> Seq<char> {
    trim_end(trim_start(s))
}

/// `pat` stands in `s` at index `i`.
pub open spec fn occurs_at(s: Seq<char>, pat: Seq<char>, i: int) -> bool {
    0 <= i && i + pat.len() <= s.len() && s.subrange(i, i + pat.len()) == pat
}

/// `pat` stands in `s` at index `i` and at no index before it.
pub open spec fn is_first_occurrence(s: Seq<char>, pat: Seq<char>, i: int) -> bool {
    occurs_at(s, pat, i) && forall|j: int| 0 <= j < i ==> !occurs_at(s, pat, j)
}

/// `pat` stands somewhere in `s`.
pub open spec fn occurs_in(s: Seq<char>, pat: Seq<char>) -> bool {
    exists|i: int| occurs_at(s, pat, i)
}

/// The least index at which `pat` stands in `s`, where there is one.
pub open spec fn first_occurrence(s: Seq<char>, pat: Seq<char>) -> Option<int> {
    if exists|i: int| is_first_occurrence(s, pat, i) {
        Some(choose|i: int| is_first_occurrence(s, pat, i))
    } else {
        None
    }
}

/// The pieces of `s` between the occurrences of `sep`, taken from the left
/// without overlap. There is always at least one piece; an empty `sep` cuts
/// nowhere.
pub open spec fn split_on(s: Seq<char>, sep: Seq<char>) -> Seq<Seq<char>>
    decreases s.len(),
{
    if sep.len() == 0 {
        seq![s]
    } else {
        match first_occurrence(s, sep) {
            Some(i) => seq![s.take(i)] + split_on(s.skip(i + sep.len()), sep),
            None => seq![s],
        }
    }
}

/// `s` with each occurrence of `pat`, taken from the left without overlap,
/// replaced by `rep`. An empty `pat` replaces nothing.
pub open spec fn replace_all(s: Seq<char>, pat: Seq<char>, rep: Seq<char>) -> Seq<char>
    decreases s.len(),
{
    if pat.len() == 0 {
        s
    } else {
        match first_occurrence(s, pat) {
            Some(i) => s.take(i) + rep + replace_all(s.skip(i + pat.len()), pat, rep),
            None => s,
        }
    }
}

/// The parts one after another.
pub open spec fn concat(parts: Seq<Seq<char>>) -> Seq<char>
    decreases parts.len(),
{
    if parts.len() == 0 {
        Seq::empty()
    } else {
        concat(parts.drop_last()) + parts.last()
    }
}

/// The parts one after another, with `sep` between each two neighbours.
pub open spec fn join(parts: Seq<Seq<char>>, sep: Seq<char>) -> Seq<char>
    decreases parts.len(),
{
    if parts.len() == 0 {
        Seq::empty()
    } else if parts.len() == 1 {
        parts[0]
    } else {
        join(parts.drop_last(), sep) + sep + parts.last()
    }
}

/// The views of the elements of `s`, in order.
pub open spec fn views<T: View>(s: Seq<T>) -> Seq<T::V> {
    Seq::new(s.len(), |i: int| s[i]@)
}

/// An index at which `pat` stands, with none before it, is the first occurrence.
pub proof fn lemma_first_occurrence_at(s: Seq<char>, pat: Seq<char>, i: int)
    requires
        is_first_occurrence(s, pat, i),
    ensures
        first_occurrence(s, pat) == Some(i),
{
    let k = choose|k: int| is_first_occurrence(s, pat, k);
    if k < i {
        assert(!occurs_at(s, pat, k));
    } else if i < k {
        assert(!occurs_at(s, pat, i));
    }
}

/// Where `pat` stands nowhere in `s`, there is no first occurrence.
pub proof fn lemma_first_occurrence_none(s: Seq<char>, pat: Seq<char>)
    requires
        !occurs_in(s, pat),
    ensures
        first_occurrence(s, pat) is None,
{
    if exists|i: int| is_first_occurrence(s, pat, i) {
        let k = choose|k: int| is_first_occurrence(s, pat, k);
        assert(occurs_at(s, pat, k));
    }
}

/// An occurrence in what follows index `k` is an occurrence in the whole, `k` further on.
pub proof fn lemma_occurs_at_skip(s: Seq<char>, pat: Seq<char>, k: int, j: int)
    requires
        0 <= k <= s.len(),
        0 <= j,
    ensures
        occurs_at(s.skip(k), pat, j) == occurs_at(s, pat, k + j),
{
    if j + pat.len() <= s.len() - k {
        assert(s.skip(k).subrange(j, j + pat.len()) =~= s.subrange(k + j, k + j + pat.len()));
    }
}

/// A part put before a list of parts, joined.
pub proof fn lemma_join_prepend(part: Seq<char>, parts: Seq<Seq<char>>, sep: Seq<char>)
    ensures
        join(seq![part] + parts, sep) == if parts.len() == 0 {
            part
        } else {
            part + sep + join(parts, sep)
        },
    decreases parts.len(),
{
    let all = seq![part] + parts;
    if parts.len() == 0 {
        assert(all[0] == part);
    } else {
        assert(all.drop_last() =~= seq![part] + parts.drop_last());
        assert(all.last() == parts.last());
        lemma_join_prepend(part, parts.drop_last(), sep);
        if parts.len() == 1 {
            assert(parts.last() == parts[0]);
            assert(join(all, sep) =~= part + sep + join(parts, sep));
        } else {
            assert(join(all, sep) =~= part + sep + join(parts, sep));
        }
    }
}

/// Splitting loses nothing: the pieces of a text, joined by the separator,
/// are the text. There is always at least one piece.
pub proof fn lemma_split_joins(s: Seq<char>, sep: Seq<char>)
    ensures
        split_on(s, sep).len() >= 1,
        join(split_on(s, sep), sep) == s,
    decreases s.len(),
{
    if sep.len() > 0 {
        match first_occurrence(s, sep) {
            Some(i) => {
                assert(is_first_occurrence(s, sep, i));
                let rest = s.skip(i + sep.len());
                lemma_split_joins(rest, sep);
                lemma_join_prepend(s.take(i), split_on(rest, sep), sep);
                assert(s.subrange(i, i + sep.len()) == sep);
                assert(s.take(i) + sep + rest =~= s);
            },
            None => {},
        }
    }
}

/// No piece holds the separator.
pub proof fn lemma_split_pieces(s: Seq<char>, sep: Seq<char>, k: int)
    requires
        sep.len() > 0,
        0 <= k < split_on(s, sep).len(),
    ensures
        !occurs_in(split_on(s, sep)[k], sep),
    decreases s.len(),
{
    match first_occurrence(s, sep) {
        Some(i) => {
            assert(is_first_occurrence(s, sep, i));
            let rest = s.skip(i + sep.len());
            if k == 0 {
                let piece = s.take(i);
                assert(split_on(s, sep)[0] == piece);
                if occurs_in(piece, sep) {
                    let j = choose|j: int| occurs_at(piece, sep, j);
                    assert(piece.subrange(j, j + sep.len()) =~= s.subrange(j, j + sep.len()));
                    assert(occurs_at(s, sep, j));
                }
            } else {
                assert(split_on(s, sep)[k] == split_on(rest, sep)[k - 1]);
                lemma_split_pieces(rest, sep, k - 1);
            }
        },
        None => {
            if occurs_in(s, sep) {
                let j = choose|j: int| occurs_at(s, sep, j);
                lemma_has_first_occurrence(s, sep, j);
            }
        },
    }
}

/// Where a pattern stands in a text, there is a first place where it stands.
pub proof fn lemma_has_first_occurrence(s: Seq<char>, pat: Seq<char>, j: int)
    requires
        occurs_at(s, pat, j),
    ensures
        first_occurrence(s, pat) is Some,
    decreases j,
{
    if exists|i: int| 0 <= i < j && occurs_at(s, pat, i) {
        let i = choose|i: int| 0 <= i < j && occurs_at(s, pat, i);
        lemma_has_first_occurrence(s, pat, i);
    } else {
        assert(is_first_occurrence(s, pat, j));
    }
}

/// What is taken from the front of a text by `trim_start` is white space,
/// and what is left does not begin with any.
pub proof fn lemma_trim_start(s: Seq<char>)
    ensures
        trim_start(s).len() <= s.len(),
        trim_start(s) == s.skip(s.len() - trim_start(s).len()),
        forall|k: int| 0 <= k < s.len() - trim_start(s).len() ==> is_space(#[trigger] s[k]),
        trim_start(s).len() > 0 ==> !is_space(trim_start(s)[0]),
    decreases s.len(),
{
    if s.len() > 0 && is_space(s[0]) {
        let rest = s.skip(1);
        lemma_trim_start(rest);
        let cut = s.len() - trim_start(s).len();
        assert(rest.skip(rest.len() - trim_start(rest).len()) =~= s.skip(cut));
        assert forall|k: int| 0 <= k < cut implies is_space(#[trigger] s[k]) by {
            if k > 0 {
                assert(s[k] == rest[k - 1]);
            }
        }
    } else {
        assert(s.skip(0) =~= s);
    }
}

/// What is taken from the end of a text by `trim_end` is white space, and
/// what is left does not end with any.
pub proof fn lemma_trim_end(s: Seq<char>)
    ensures
        trim_end(s).len() <= s.len(),
        trim_end(s) == s.take(trim_end(s).len() as int),
        forall|k: int| trim_end(s).len() <= k < s.len() ==> is_space(#[trigger] s[k]),
        trim_end(s).len() > 0 ==> !is_space(trim_end(s).last()),
    decreases s.len(),
{
    if s.len() > 0 && is_space(s.last()) {
        let rest = s.drop_last();
        lemma_trim_end(rest);
        assert(rest.take(trim_end(rest).len() as int) =~= s.take(trim_end(s).len() as int));
        assert forall|k: int| trim_end(s).len() <= k < s.len() implies is_space(
            #[trigger] s[k],
        ) by {
            if k < rest.len() {
                assert(s[k] == rest[k]);
            }
        }
    } else {
        assert(s.take(s.len() as int) =~= s);
    }
}

/// A trimmed text neither begins nor ends with white space.
pub proof fn lemma_trim(s: Seq<char>)
    ensures
        trim(s).len() <= s.len(),
        trim(s).len() > 0 ==> !is_space(trim(s)[0]) && !is_space(trim(s).last()),
{
    let front = trim_start(s);
    lemma_trim_start(s);
    lemma_trim_end(front);
    if trim(s).len() > 0 {
        assert(trim(s)[0] == front[0]);
    }
}

/// Whether `c` is white space.
pub fn is_whitespace(c: char) -> (b: bool)
    ensures
        b == is_space(c),
{
    let n: u32 = c as u32;
    (0x09 <= n && n <= 0x0D) || n == 0x20 || n == 0x85 || n == 0xA0 || n == 0x1680 || (0x2000 <= n
        && n <= 0x200A) || n == 0x2028 || n == 0x2029 || n == 0x202F || n == 0x205F || n == 0x3000
}

/// The characters of `s`, in order.
pub fn to_chars(s: &str) -> (out: Vec<char>)
    ensures
        out@ == s@,
{
    let mut out: Vec<char> = Vec::new();
    for c in it: s.chars()
        invariant
            out@ == it.seq().take(it.index() as int),
            it.seq() == s@,
    {
        out.push(c);
    }
    out
}

/// Appends one character to `out`, by `String::push`, which puts the given
/// character at the end of the string and changes nothing else.
#[verifier::external_body]
pub(crate) fn push_char(out: &mut String, c: char)
    ensures
        final(out)@ == old(out)@.push(c),
{
    out.push(c)
}

/// Appends the characters of `s` from index `from` up to `to` to `out`.
pub fn append_chars(out: &mut String, s: &Vec<char>, from: usize, to: usize)
    requires
        from <= to <= s.len(),
    ensures
        final(out)@ == old(out)@ + s@.subrange(from as int, to as int),
{
    let mut i: usize = from;
    while i < to
        invariant
            from <= i <= to <= s.len(),
            out@ == old(out)@ + s@.subrange(from as int, i as int),
        decreases to - i,
    {
        push_char(out, s[i]);
        i = i + 1;
        assert(out@ =~= old(out)@ + s@.subrange(from as int, i as int));
    }
}

/// The string that holds the characters of `s`.
pub fn from_chars(s: &Vec<char>) -> (out: String)
    ensures
        out@ == s@,
{
    let mut out = String::new();
    append_chars(&mut out, s, 0, s.len());
    assert(out@ =~= s@);
    out
}

/// Appends `n` spaces to `out`.
pub fn push_spaces(out: &mut String, n: usize)
    ensures
        final(out)@ == old(out)@ + spaces(n as nat),
{
    let mut i: usize = 0;
    while i < n
        invariant
            i <= n,
            out@ == old(out)@ + spaces(i as nat),
        decreases n - i,
    {
        push_char(out, ' ');
        i = i + 1;
        assert(out@ =~= old(out)@ + spaces(i as nat));
    }
}

/// Whether `pat` stands in `s` at index `i`.
pub fn matches_at(s: &Vec<char>, pat: &Vec<char>, i: usize) -> (b: bool)
    requires
        i <= s.len(),
    ensures
        b == occurs_at(s@, pat@, i as int),
{
    if pat.len() > s.len() - i {
        return false;
    }
    let mut k: usize = 0;
    while k < pat.len()
        invariant
            i + pat.len() <= s.len(),
            k <= pat.len(),
            forall|j: int| 0 <= j < k ==> s@[i + j] == pat@[j],
        decreases pat.len() - k,
    {
        if s[i + k] != pat[k] {
            assert(s@.subrange(i as int, i + pat.len())[k as int] != pat@[k as int]);
            return false;
        }
        k = k + 1;
    }
    assert(s@.subrange(i as int, i + pat.len()) =~= pat@);
    true
}

/// Appends the elements of `s` from index `from` up to `to` to `out`.
pub fn extend_chars(out: &mut Vec<char>, s: &Vec<char>, from: usize, to: usize)
    requires
        from <= to <= s.len(),
    ensures
        final(out)@ == old(out)@ + s@.subrange(from as int, to as int),
{
    let mut i: usize = from;
    while i < to
        invariant
            from <= i <= to <= s.len(),
            out@ == old(out)@ + s@.subrange(from as int, i as int),
        decreases to - i,
    {
        out.push(s[i]);
        i = i + 1;
        assert(out@ =~= old(out)@ + s@.subrange(from as int, i as int));
    }
}

/// The bounds of what is left of `s[from..to]` when the white space at its
/// two ends is taken away.
pub fn trim_bounds(s: &Vec<char>, from: usize, to: usize) -> (r: (usize, usize))
    requires
        from <= to <= s.len(),
    ensures
        from <= r.0 <= r.1 <= to,
        s@.subrange(r.0 as int, r.1 as int) == trim(s@.subrange(from as int, to as int)),
{
    let mut a: usize = from;
    while a < to && is_whitespace(s[a])
        invariant
            from <= a <= to <= s.len(),
            trim_start(s@.subrange(from as int, to as int)) == trim_start(
                s@.subrange(a as int, to as int),
            ),
        decreases to - a,
    {
        assert(s@.subrange(a as int, to as int).skip(1) =~= s@.subrange(a + 1, to as int));
        a = a + 1;
    }
    let mut b: usize = to;
    while b > a && is_whitespace(s[b - 1])
        invariant
            a <= b <= to <= s.len(),
            trim_end(s@.subrange(a as int, to as int)) == trim_end(
                s@.subrange(a as int, b as int),
            ),
        decreases b - a,
    {
        assert(s@.subrange(a as int, b as int).drop_last() =~= s@.subrange(a as int, b - 1));
        b = b - 1;
    }
    (a, b)
}

/// The parts of a list with one more part at its end, one after another.
pub proof fn lemma_concat_push(parts: Seq<Seq<char>>, part: Seq<char>)
    ensures
        concat(parts.push(part)) == concat(parts) + part,
{
    assert(parts.push(part).drop_last() =~= parts);
}

/// The parts of a list with one more part at its end, joined.
pub proof fn lemma_join_push(parts: Seq<Seq<char>>, sep: Seq<char>, part: Seq<char>)
    ensures
        join(parts.push(part), sep) == if parts.len() == 0 {
            part
        } else {
            join(parts, sep) + sep + part
        },
{
    assert(parts.push(part).drop_last() =~= parts);
}

/// The first index from `start` on at which `pat` stands in `s`, where there is one.
pub fn find_from(s: &Vec<char>, pat: &Vec<char>, start: usize) -> (found: Option<usize>)
    requires
        start <= s.len(),
    ensures
        found is Some ==> start <= found->0 && found->0 + pat.len() <= s.len(),
        found is Some ==> first_occurrence(s@.skip(start as int), pat@) == Some(found->0 - start),
        found is None ==> first_occurrence(s@.skip(start as int), pat@) is None,
{
    let ghost rest = s@.skip(start as int);
    let mut cur: usize = start;
    while cur < s.len()
        invariant
            start <= cur <= s.len(),
            rest == s@.skip(start as int),
            forall|j: int| start <= j < cur ==> !occurs_at(s@, pat@, j),
        decreases s.len() - cur,
    {
        if matches_at(s, pat, cur) {
            proof {
                lemma_found_from(s@, pat@, start as int, cur as int);
            }
            return Some(cur);
        }
        cur = cur + 1;
    }
    if matches_at(s, pat, cur) {
        proof {
            lemma_found_from(s@, pat@, start as int, cur as int);
        }
        return Some(cur);
    }
    proof {
        assert forall|j: int| !occurs_at(rest, pat@, j) by {
            if 0 <= j {
                lemma_occurs_at_skip(s@, pat@, start as int, j);
            }
        }
        lemma_first_occurrence_none(rest, pat@);
    }
    None
}

/// An occurrence at `i` with none from `start` up to `i` is the first
/// occurrence in what follows `start`.
proof fn lemma_found_from(s: Seq<char>, pat: Seq<char>, start: int, i: int)
    requires
        0 <= start <= i <= s.len(),
        occurs_at(s, pat, i),
        forall|j: int| start <= j < i ==> !occurs_at(s, pat, j),
    ensures
        first_occurrence(s.skip(start), pat) == Some(i - start),
{
    let rest = s.skip(start);
    assert forall|j: int| 0 <= j < i - start implies !occurs_at(rest, pat, j) by {
        lemma_occurs_at_skip(s, pat, start, j);
    }
    lemma_occurs_at_skip(s, pat, start, i - start);
    lemma_first_occurrence_at(rest, pat, i - start);
}

/// `s` with each occurrence of `pat` replaced by `rep`; the occurrences are
/// taken from the left and do not overlap. An empty `pat` replaces nothing.
pub fn replace(s: &Vec<char>, pat: &Vec<char>, rep: &Vec<char>) -> (out: Vec<char>)
    ensures
        out@ == replace_all(s@, pat@, rep@),
{
    let mut out: Vec<char> = Vec::new();
    if pat.len() == 0 {
        extend_chars(&mut out, s, 0, s.len());
        assert(out@ =~= s@);
        return out;
    }
    let mut start: usize = 0;
    let mut finished = false;
    assert(s@.skip(0) =~= s@);
    while !finished
        invariant
            pat.len() > 0,
            start <= s.len(),
            !finished ==> out@ + replace_all(s@.skip(start as int), pat@, rep@) == replace_all(
                s@,
                pat@,
                rep@,
            ),
            finished ==> out@ == replace_all(s@, pat@, rep@),
        decreases s.len() - start + if finished { 0int } else { 1int },
    {
        let ghost rest = s@.skip(start as int);
        let ghost before = out@;
        match find_from(s, pat, start) {
            Some(i) => {
                extend_chars(&mut out, s, start, i);
                extend_chars(&mut out, rep, 0, rep.len());
                proof {
                    assert(rest.take(i - start) =~= s@.subrange(start as int, i as int));
                    assert(rest.skip(i - start + pat.len()) =~= s@.skip(i + pat.len()));
                    assert(rep@.subrange(0, rep.len() as int) =~= rep@);
                    assert(out@ + replace_all(s@.skip(i + pat.len()), pat@, rep@) =~= before
                        + replace_all(rest, pat@, rep@));
                }
                start = i + pat.len();
            },
            None => {
                extend_chars(&mut out, s, start, s.len());
                assert(rest =~= s@.subrange(start as int, s.len() as int));
                finished = true;
            },
        }
    }
    out
}

/// Appends the characters of `s` to `out`.
pub fn append_text(out: &mut String, s: &str)
    ensures
        final(out)@ == old(out)@ + s@,
{
    out.append(s);
}

/// The pieces of `s` between the occurrences of `sep`, taken from the left
/// without overlap: at least one piece, and the whole of `s` where `sep` is empty.
pub fn split(s: &Vec<char>, sep: &Vec<char>) -> (pieces: Vec<Vec<char>>)
    ensures
        views(pieces@) == split_on(s@, sep@),
{
    let mut pieces: Vec<Vec<char>> = Vec::new();
    if sep.len() == 0 {
        let mut whole: Vec<char> = Vec::new();
        extend_chars(&mut whole, s, 0, s.len());
        assert(whole@ =~= s@);
        pieces.push(whole);
        assert(views(pieces@) =~= seq![s@]);
        return pieces;
    }
    let mut start: usize = 0;
    let mut finished = false;
    assert(s@.skip(0) =~= s@);
    assert(views(pieces@) + split_on(s@, sep@) =~= split_on(s@, sep@));
    while !finished
        invariant
            sep.len() > 0,
            start <= s.len(),
            !finished ==> views(pieces@) + split_on(s@.skip(start as int), sep@) == split_on(
                s@,
                sep@,
            ),
            finished ==> views(pieces@) == split_on(s@, sep@),
        decreases s.len() - start + if finished { 0int } else { 1int },
    {
        let ghost rest = s@.skip(start as int);
        let ghost before = views(pieces@);
        let found = find_from(s, sep, start);
        let end = match found {
            Some(i) => i,
            None => s.len(),
        };
        let mut piece: Vec<char> = Vec::new();
        extend_chars(&mut piece, s, start, end);
        pieces.push(piece);
        proof {
            let cut = s@.subrange(start as int, end as int);
            assert(views(pieces@) =~= before.push(cut));
            if found is Some {
                assert(rest.take(end - start) =~= cut);
                assert(rest.skip(end - start + sep.len()) =~= s@.skip(end + sep.len()));
                assert(before.push(cut) + split_on(s@.skip(end + sep.len()), sep@) =~= before
                    + split_on(rest, sep@));
            } else {
                assert(rest =~= cut);
                assert(before.push(cut) =~= before + split_on(rest, sep@));
            }
        }
        match found {
            Some(i) => {
                start = i + sep.len();
            },
            None => {
                finished = true;
            },
        }
    }
    pieces
}

/// A copy of a list of strings.
pub fn copy_strings(source: &Vec<String>) -> (copy: Vec<String>)
    ensures
        views(copy@) == views(source@),
{
    let mut copy: Vec<String> = Vec::new();
    let mut i: usize = 0;
    while i < source.len()
        invariant
            i <= source.len(),
            copy@.len() == i,
            forall|j: int| 0 <= j < i ==> copy@[j]@ == source@[j]@,
        decreases source.len() - i,
    {
        copy.push(source[i].clone());
        i = i + 1;
    }
    assert(views(copy@) =~= views(source@));
    copy
}

} // verus!
