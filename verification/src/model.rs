//! What substitution means, stated over byte sequences.
//!
//! A placeholder is the marker `%{`, a name, and the first `}` behind the
//! marker. The text is read from left to right: the first marker opens the
//! first placeholder, the first `}` behind it closes it, and reading goes on
//! behind that `}`. A marker that no `}` follows opens nothing.

use vstd::prelude::*;

verus! {

/// The byte `%`.
pub const PERCENT: u8 = 0x25;

/// The byte `{`.
pub const OPEN_BRACE: u8 = 0x7b;

/// The byte `}`.
pub const CLOSE_BRACE: u8 = 0x7d;

/// An occurrence of a placeholder: the offset of its `{` and the offset of
/// its `}`.
pub type Span = (int, int);

/// The marker `%{` stands at `at`: `%` there, `{` right behind it.
pub open spec fn marker_at(text: Seq<u8>, at: int) -> bool {
    &&& 0 <= at
    &&& at + 1 < text.len()
    &&& text[at] == PERCENT
    &&& text[at + 1] == OPEN_BRACE
}

/// The offset of the `{` of the first marker that begins at `from` or later.
pub open spec fn first_open(text: Seq<u8>, from: int) -> Option<int>
    decreases text.len() - from,
{
    if from < 0 || from + 1 >= text.len() {
        None
    } else if marker_at(text, from) {
        Some(from + 1)
    } else {
        first_open(text, from + 1)
    }
}

/// The offset of the first `}` at `from` or later.
pub open spec fn first_close(text: Seq<u8>, from: int) -> Option<int>
    decreases text.len() - from,
{
    if from < 0 || from >= text.len() {
        None
    } else if text[from] == CLOSE_BRACE {
        Some(from)
    } else {
        first_close(text, from + 1)
    }
}

/// The first placeholder that begins at `from` or later: the first marker
/// there, closed by the first `}` behind its `{`.
pub open spec fn first_occurrence(text: Seq<u8>, from: int) -> Option<Span> {
    match first_open(text, from) {
        Some(open) => match first_close(text, open + 1) {
            Some(close) => Some((open, close)),
            None => None,
        },
        None => None,
    }
}

/// A marker found from `from` on lies behind `from`, with `%` before its `{`,
/// and no marker begins between `from` and it.
pub proof fn lemma_first_open(text: Seq<u8>, from: int)
    ensures
        match first_open(text, from) {
            Some(open) => {
                &&& from < open < text.len()
                &&& marker_at(text, open - 1)
                &&& forall|at: int| from <= at < open - 1 ==> !marker_at(text, at)
            },
            None => forall|at: int| 0 <= from <= at ==> !marker_at(text, at),
        },
    decreases text.len() - from,
{
    if from < 0 || from + 1 >= text.len() {
    } else if marker_at(text, from) {
    } else {
        lemma_first_open(text, from + 1);
    }
}

/// A `}` found from `from` on lies at `from` or behind it, and no `}` stands
/// between `from` and it.
pub proof fn lemma_first_close(text: Seq<u8>, from: int)
    ensures
        match first_close(text, from) {
            Some(close) => {
                &&& from <= close < text.len()
                &&& text[close] == CLOSE_BRACE
                &&& forall|at: int| from <= at < close ==> text[at] != CLOSE_BRACE
            },
            None => forall|at: int| 0 <= from <= at < text.len() ==> text[at] != CLOSE_BRACE,
        },
    decreases text.len() - from,
{
    if from < 0 || from >= text.len() {
    } else if text[from] == CLOSE_BRACE {
    } else {
        lemma_first_close(text, from + 1);
    }
}

/// A placeholder found from `from` on lies behind `from` and inside the text,
/// its `{` before its `}`.
pub proof fn lemma_first_occurrence(text: Seq<u8>, from: int)
    ensures
        match first_occurrence(text, from) {
            Some(span) => 0 <= from < span.0 < span.1 < text.len(),
            None => true,
        },
{
    lemma_first_open(text, from);
    if let Some(open) = first_open(text, from) {
        lemma_first_close(text, open + 1);
    }
}

/// The placeholders of the text from `from` on, in the order in which they
/// stand.
pub open spec fn occurrences_from(text: Seq<u8>, from: int) -> Seq<Span>
    decreases text.len() - from,
{
    match first_occurrence(text, from) {
        Some(span) => {
            proof {
                lemma_first_occurrence(text, from);
            }
            seq![span] + occurrences_from(text, span.1 + 1)
        },
        None => Seq::empty(),
    }
}

/// The placeholders of the text, in the order in which they stand.
pub open spec fn occurrences(text: Seq<u8>) -> Seq<Span> {
    occurrences_from(text, 0)
}

/// The offsets taken two by two: each `{` with the `}` that follows it.
pub open spec fn paired(offsets: Seq<usize>) -> Seq<Span> {
    Seq::new(offsets.len() / 2, |k: int| (offsets[2 * k] as int, offsets[2 * k + 1] as int))
}

/// The name that a placeholder encloses.
pub open spec fn name_of(text: Seq<u8>, span: Span) -> Seq<u8> {
    text.subrange(span.0 + 1, span.1)
}

/// The whole placeholder, from its `%` to its `}`.
pub open spec fn placeholder_of(text: Seq<u8>, span: Span) -> Seq<u8> {
    text.subrange(span.0 - 1, span.1 + 1)
}

/// The index of the first pattern at `from` or later that equals `name` and
/// has a value beside it.
pub open spec fn first_match(
    name: Seq<u8>,
    names: Seq<Seq<u8>>,
    values: Seq<Seq<u8>>,
    from: int,
) -> Option<int>
    decreases names.len() - from,
{
    if from < 0 || from >= names.len() || from >= values.len() {
        None
    } else if names[from] == name {
        Some(from)
    } else {
        first_match(name, names, values, from + 1)
    }
}

/// A pattern found from `from` on stands at `from` or later, equals the name
/// and has a value beside it, and no pattern between `from` and it equals the
/// name. Where none is found, no pattern from `from` on that has a value
/// equals the name.
pub proof fn lemma_first_match(
    name: Seq<u8>,
    names: Seq<Seq<u8>>,
    values: Seq<Seq<u8>>,
    from: int,
)
    ensures
        match first_match(name, names, values, from) {
            Some(index) => {
                &&& 0 <= from <= index < names.len()
                &&& index < values.len()
                &&& names[index] == name
                &&& forall|i: int| from <= i < index ==> names[i] != name
            },
            None => forall|i: int|
                0 <= from <= i < names.len() && i < values.len() ==> names[i] != name,
        },
    decreases names.len() - from,
{
    if from < 0 || from >= names.len() || from >= values.len() {
    } else if names[from] == name {
    } else {
        lemma_first_match(name, names, values, from + 1);
    }
}

/// What is written in place of a placeholder: the value of the first pattern
/// that equals its name, or the placeholder itself where none does.
pub open spec fn resolved(
    text: Seq<u8>,
    span: Span,
    names: Seq<Seq<u8>>,
    values: Seq<Seq<u8>>,
) -> Seq<u8> {
    match first_match(name_of(text, span), names, values, 0) {
        Some(index) => values[index],
        None => placeholder_of(text, span),
    }
}

/// Where the text goes on behind the first `count` placeholders.
pub open spec fn end_before(spans: Seq<Span>, count: int) -> int {
    if count <= 0 {
        0
    } else {
        spans[count - 1].1 + 1
    }
}

/// Each placeholder lies inside the text with room for its `%`, closes
/// behind its `{`, and begins behind the `}` of every placeholder before it.
pub open spec fn well_placed(text: Seq<u8>, spans: Seq<Span>) -> bool {
    &&& forall|k: int|
        0 <= k < spans.len() ==> 0 < (#[trigger] spans[k]).0 < spans[k].1 < text.len()
    &&& forall|j: int, k: int|
        0 <= j < k < spans.len() ==> (#[trigger] spans[j]).1 + 1 < (#[trigger] spans[k]).0
}

/// Each span begins with the marker `%{` and ends with `}`.
pub open spec fn delimited(text: Seq<u8>, spans: Seq<Span>) -> bool {
    forall|k: int|
        0 <= k < spans.len() ==> {
            &&& marker_at(text, (#[trigger] spans[k]).0 - 1)
            &&& spans[k].0 < spans[k].1 < text.len()
            &&& text[spans[k].1] == CLOSE_BRACE
        }
}

/// What the first `count` placeholders give: for each in turn, the text
/// between the placeholder before it and its `%`, then what it resolves to.
pub open spec fn written(
    text: Seq<u8>,
    spans: Seq<Span>,
    names: Seq<Seq<u8>>,
    values: Seq<Seq<u8>>,
    count: int,
) -> Seq<u8>
    decreases count,
{
    if count <= 0 {
        Seq::empty()
    } else {
        written(text, spans, names, values, count - 1) + text.subrange(
            end_before(spans, count - 1),
            spans[count - 1].0 - 1,
        ) + resolved(text, spans[count - 1], names, values)
    }
}

/// The text with each of the given placeholders resolved and everything else
/// kept: what the placeholders give, then the text behind the last of them.
pub open spec fn assembled(
    text: Seq<u8>,
    spans: Seq<Span>,
    names: Seq<Seq<u8>>,
    values: Seq<Seq<u8>>,
) -> Seq<u8> {
    written(text, spans, names, values, spans.len() as int) + text.subrange(
        end_before(spans, spans.len() as int),
        text.len() as int,
    )
}

/// The text with each of its placeholders resolved against the patterns.
pub open spec fn rendered(text: Seq<u8>, names: Seq<Seq<u8>>, values: Seq<Seq<u8>>) -> Seq<u8> {
    assembled(text, occurrences(text), names, values)
}

} // verus!
