//! Text helpers: prefixes, lower case and splitting on a delimiter.

use vstd::prelude::*;
use vstd::string::StrSliceExecFns;

verus! {

/// What `str::to_lowercase` makes of a text.
pub uninterp spec fn lowercased(text: Seq<char>) -> Seq<char>;

/// `str::to_lowercase`: the lower-case form of `text` by Unicode's rules, a
/// function of the text alone.
#[verifier::external_body]
pub(crate) fn lowercase(text: &str) -> (lowered: String)
    ensures
        lowered@ == lowercased(text@),
{
    text.to_lowercase()
}

/// The views of a sequence of strings, in order.
pub open spec fn views(strings: Seq<String>) -> Seq<Seq<char>> {
    Seq::new(strings.len(), |i: int| strings[i]@)
}

/// Whether `pattern` stands in `text` at position `at`.
pub open spec fn occurs_at(text: Seq<char>, pattern: Seq<char>, at: int) -> bool {
    0 <= at && at + pattern.len() <= text.len() && text.subrange(at, at + pattern.len())
        == pattern
}

/// The segments of `text` from `start` on, where no delimiter begins between
/// `start` and `pos`: the text is cut at the leftmost delimiter at or after
/// `pos`, and again behind it.
pub open spec fn split_from(text: Seq<char>, delimiter: Seq<char>, start: int, pos: int) -> Seq<
    Seq<char>,
>
    decreases text.len() - pos,
{
    if delimiter.len() == 0 || pos < 0 || pos + delimiter.len() > text.len() {
        seq![text.subrange(start, text.len() as int)]
    } else if occurs_at(text, delimiter, pos) {
        seq![text.subrange(start, pos)] + split_from(
            text,
            delimiter,
            pos + delimiter.len(),
            pos + delimiter.len(),
        )
    } else {
        split_from(text, delimiter, start, pos + 1)
    }
}

/// The segments between the delimiters of `text`, leftmost delimiter first,
/// delimiters not overlapping. A text without delimiter is one segment. With
/// the empty delimiter every character is a segment, between two empty ones.
pub open spec fn split_model(text: Seq<char>, delimiter: Seq<char>) -> Seq<Seq<char>> {
    if delimiter.len() == 0 {
        seq![Seq::<char>::empty()] + Seq::new(text.len(), |i: int| seq![text[i]])
            + seq![Seq::<char>::empty()]
    } else {
        split_from(text, delimiter, 0, 0)
    }
}

/// The segments put together again, with `delimiter` between every two.
pub open spec fn join(segments: Seq<Seq<char>>, delimiter: Seq<char>) -> Seq<char>
    decreases segments.len(),
{
    if segments.len() == 0 {
        Seq::empty()
    } else if segments.len() == 1 {
        segments[0]
    } else {
        segments[0] + delimiter + join(segments.drop_first(), delimiter)
    }
}

proof fn lemma_split_from(text: Seq<char>, delimiter: Seq<char>, start: int, pos: int)
    requires
        delimiter.len() > 0,
        0 <= start <= pos <= text.len(),
        forall|at: int| start <= at < pos ==> !occurs_at(text, delimiter, at),
    ensures
        split_from(text, delimiter, start, pos).len() >= 1,
        join(split_from(text, delimiter, start, pos), delimiter) == text.subrange(
            start,
            text.len() as int,
        ),
        forall|i: int, at: int|
            0 <= i < split_from(text, delimiter, start, pos).len() ==> !#[trigger] occurs_at(
                split_from(text, delimiter, start, pos)[i],
                delimiter,
                at,
            ),
    decreases text.len() - pos,
{
    let n = delimiter.len() as int;
    let segments = split_from(text, delimiter, start, pos);
    if pos + n > text.len() {
        let tail = text.subrange(start, text.len() as int);
        assert forall|at: int| !occurs_at(tail, delimiter, at) by {
            if occurs_at(tail, delimiter, at) {
                assert(tail.subrange(at, at + n) =~= text.subrange(start + at, start + at + n));
                assert(occurs_at(text, delimiter, start + at));
            }
        }
    } else if occurs_at(text, delimiter, pos) {
        let head = text.subrange(start, pos);
        let rest = split_from(text, delimiter, pos + n, pos + n);
        lemma_split_from(text, delimiter, pos + n, pos + n);
        assert(segments == seq![head] + rest);
        assert(segments.drop_first() =~= rest);
        assert(head + delimiter + text.subrange(pos + n, text.len() as int) =~= text.subrange(
            start,
            text.len() as int,
        ));
        assert forall|at: int| !occurs_at(head, delimiter, at) by {
            if occurs_at(head, delimiter, at) {
                assert(head.subrange(at, at + n) =~= text.subrange(start + at, start + at + n));
                assert(occurs_at(text, delimiter, start + at));
            }
        }
        assert forall|i: int, at: int| 0 <= i < segments.len() implies !#[trigger] occurs_at(
            segments[i],
            delimiter,
            at,
        ) by {
            if i > 0 {
                assert(segments[i] == rest[i - 1]);
            }
        }
    } else {
        lemma_split_from(text, delimiter, start, pos + 1);
    }
}

/// Splitting loses nothing: the segments joined by the delimiter are the
/// text.
pub proof fn lemma_split_join(text: Seq<char>, delimiter: Seq<char>)
    ensures
        split_model(text, delimiter).len() >= 1,
        join(split_model(text, delimiter), delimiter) == text,
{
    if delimiter.len() > 0 {
        lemma_split_from(text, delimiter, 0, 0);
        assert(text.subrange(0, text.len() as int) =~= text);
    } else {
        lemma_join_singles(text);
    }
}

proof fn lemma_join_singles(text: Seq<char>)
    ensures
        join(
            seq![Seq::<char>::empty()] + Seq::new(text.len(), |i: int| seq![text[i]])
                + seq![Seq::<char>::empty()],
            Seq::<char>::empty(),
        ) == text,
{
    let none = Seq::<char>::empty();
    let singles = Seq::new(text.len(), |i: int| seq![text[i]]);
    let all = seq![none] + singles + seq![none];
    lemma_join_tail(text, 0);
    assert(all.drop_first() =~= singles.skip(0) + seq![none]);
    assert(none + none + text.skip(0) =~= text);
}

proof fn lemma_join_tail(text: Seq<char>, from: int)
    requires
        0 <= from <= text.len(),
    ensures
        join(
            Seq::new(text.len(), |i: int| seq![text[i]]).skip(from) + seq![Seq::<char>::empty()],
            Seq::<char>::empty(),
        ) == text.skip(from),
    decreases text.len() - from,
{
    let none = Seq::<char>::empty();
    let singles = Seq::new(text.len(), |i: int| seq![text[i]]);
    let tail = singles.skip(from) + seq![none];
    if from == text.len() {
        assert(tail =~= seq![none]);
        assert(text.skip(from) =~= none);
    } else {
        lemma_join_tail(text, from + 1);
        assert(tail.drop_first() =~= singles.skip(from + 1) + seq![none]);
        assert(tail[0] == seq![text[from]]);
        assert(seq![text[from]] + none + text.skip(from + 1) =~= text.skip(from));
    }
}

/// No segment holds the delimiter, unless the delimiter is empty.
pub proof fn lemma_split_clean(text: Seq<char>, delimiter: Seq<char>, i: int, at: int)
    requires
        delimiter.len() > 0,
        0 <= i < split_model(text, delimiter).len(),
    ensures
        !occurs_at(split_model(text, delimiter)[i], delimiter, at),
{
    lemma_split_from(text, delimiter, 0, 0);
}

/// The characters of a text.
pub fn chars_of(text: &str) -> (chars: Vec<char>)
    ensures
        chars@ == text@,
{
    let mut chars: Vec<char> = Vec::new();
    for c in it: text.chars()
        invariant
            it.seq() == text@,
            chars@ == it.seq().take(it.index() as int),
    {
        chars.push(c);
    }
    chars
}

fn matches_at(text: &Vec<char>, pattern: &Vec<char>, at: usize) -> (found: bool)
    requires
        at + pattern.len() <= text.len(),
    ensures
        found == occurs_at(text@, pattern@, at as int),
{
    let mut i: usize = 0;
    while i < pattern.len()
        invariant
            i <= pattern.len(),
            at + pattern.len() <= text.len(),
            forall|j: int| 0 <= j < i ==> text[at + j] == pattern[j],
        decreases pattern.len() - i,
    {
        if text[at + i] != pattern[i] {
            assert(text@.subrange(at as int, at + pattern.len())[i as int] != pattern@[i as int]);
            return false;
        }
        i = i + 1;
    }
    assert(text@.subrange(at as int, at + pattern.len()) =~= pattern@);
    true
}

/// The text behind `prefix`, when `text` begins with it.
pub fn strip_prefix(text: &str, prefix: &str) -> (rest: Option<String>)
    ensures
        match rest {
            Some(r) => prefix@.is_prefix_of(text@) && r@ == text@.skip(prefix@.len() as int),
            None => !prefix@.is_prefix_of(text@),
        },
{
    let chars = chars_of(text);
    let head = chars_of(prefix);
    if head.len() > chars.len() {
        return None;
    }
    if matches_at(&chars, &head, 0) {
        Some(text.substring_char(head.len(), chars.len()).to_owned())
    } else {
        None
    }
}

/// Splits `text` on `delimiter`.
pub fn split(text: &str, delimiter: &str) -> (segments: Vec<String>)
    ensures
        views(segments@) == split_model(text@, delimiter@),
{
    let s = chars_of(text);
    let d = chars_of(delimiter);
    let mut segments: Vec<String> = Vec::new();
    if d.len() == 0 {
        segments.push(String::new());
        let mut i: usize = 0;
        while i < s.len()
            invariant
                i <= s.len(),
                s@ == text@,
                segments.len() == i + 1,
                segments[0]@ == Seq::<char>::empty(),
                forall|j: int| 0 <= j < i ==> (#[trigger] segments[j + 1])@ == seq![text@[j]],
            decreases s.len() - i,
        {
            let piece = text.substring_char(i, i + 1).to_owned();
            assert(piece@ =~= seq![text@[i as int]]);
            segments.push(piece);
            i = i + 1;
        }
        let ghost inner = segments@;
        segments.push(String::new());
        proof {
            let n = text@.len() as int;
            let singles = Seq::new(text@.len(), |i: int| seq![text@[i]]);
            let model = seq![Seq::<char>::empty()] + singles + seq![Seq::<char>::empty()];
            assert(model.len() == n + 2);
            assert forall|j: int| 0 <= j < n + 2 implies views(segments@)[j] == model[j] by {
                if 0 < j <= n {
                    assert(inner[(j - 1) + 1]@ == seq![text@[j - 1]]);
                    assert(model[j] == singles[j - 1]);
                }
            }
            assert(views(segments@) =~= model);
        }
        return segments;
    }
    let mut start: usize = 0;
    let mut pos: usize = 0;
    while d.len() <= s.len() - pos
        invariant
            s@ == text@,
            d@ == delimiter@,
            d.len() > 0,
            start <= pos <= s.len(),
            views(segments@) + split_from(text@, delimiter@, start as int, pos as int)
                == split_model(text@, delimiter@),
        decreases s.len() - pos,
    {
        if matches_at(&s, &d, pos) {
            let piece = text.substring_char(start, pos).to_owned();
            proof {
                assert(views(segments@.push(piece)) =~= views(segments@) + seq![
                    text@.subrange(start as int, pos as int),
                ]);
            }
            segments.push(piece);
            pos = pos + d.len();
            start = pos;
        } else {
            pos = pos + 1;
        }
    }
    let piece = text.substring_char(start, s.len()).to_owned();
    proof {
        assert(views(segments@.push(piece)) =~= views(segments@) + seq![
            text@.subrange(start as int, text@.len() as int),
        ]);
    }
    segments.push(piece);
    segments
}

} // verus!
