//! Why substitution keeps text well encoded: the delimiters of a placeholder
//! are single bytes of their own in UTF-8, so every piece that is copied
//! from a well-encoded text is well encoded by itself.

use crate::laws::{lemma_occurrences_delimited, lemma_occurrences_well_placed};
use crate::model::{
    delimited, end_before, lemma_first_match, name_of, occurrences, rendered, resolved,
    well_placed, written, Span,
};
use vstd::prelude::*;
use vstd::utf8::{
    is_char_boundary, is_char_boundary_iff_not_is_continuation_byte,
    is_char_boundary_start_end_of_seq, is_continuation_byte, length_of_first_scalar,
    pop_first_scalar, valid_first_scalar, valid_utf8, valid_utf8_concat, valid_utf8_split,
};

verus! {

/// In well-encoded text a byte below 0x80 is a character of its own:
/// characters begin at it and right behind it.
pub proof fn lemma_ascii_byte_is_character(text: Seq<u8>, at: int)
    requires
        valid_utf8(text),
        0 <= at < text.len(),
        text[at] < 0x80,
    ensures
        is_char_boundary(text, at),
        is_char_boundary(text, at + 1),
{
    is_char_boundary_iff_not_is_continuation_byte(text, at);
    if at + 1 == text.len() {
        is_char_boundary_start_end_of_seq(text);
    } else {
        valid_utf8_split(text, at);
        let behind = text.subrange(at, text.len() as int);
        assert(behind[0] == text[at]);
        assert(valid_first_scalar(behind));
        assert(length_of_first_scalar(behind) == 1);
        let rest = pop_first_scalar(behind);
        assert(valid_utf8(rest));
        assert(rest.len() > 0);
        assert(rest[0] == text[at + 1]);
        assert(valid_first_scalar(rest));
        assert(!is_continuation_byte(text[at + 1]));
        is_char_boundary_iff_not_is_continuation_byte(text, at + 1);
    }
}

/// The bytes between two places where characters begin are well encoded.
pub proof fn lemma_between_boundaries(text: Seq<u8>, from: int, to: int)
    requires
        valid_utf8(text),
        0 <= from <= to <= text.len(),
        is_char_boundary(text, from),
        is_char_boundary(text, to),
    ensures
        valid_utf8(text.subrange(from, to)),
{
    if from == to {
        assert(text.subrange(from, to).len() == 0);
    } else {
        valid_utf8_split(text, to);
        let head = text.subrange(0, to);
        assert(head[from] == text[from]);
        is_char_boundary_iff_not_is_continuation_byte(text, from);
        is_char_boundary_iff_not_is_continuation_byte(head, from);
        valid_utf8_split(head, from);
        assert(head.subrange(from, head.len() as int) =~= text.subrange(from, to));
    }
}

/// Characters begin where the text goes on behind a placeholder.
proof fn lemma_end_is_boundary(text: Seq<u8>, spans: Seq<Span>, count: int)
    requires
        valid_utf8(text),
        delimited(text, spans),
        0 <= count <= spans.len(),
    ensures
        0 <= end_before(spans, count) <= text.len(),
        is_char_boundary(text, end_before(spans, count)),
{
    if count == 0 {
        is_char_boundary_start_end_of_seq(text);
    } else {
        let span = spans[count - 1];
        lemma_ascii_byte_is_character(text, span.1);
    }
}

/// What the first `count` placeholders of a well-encoded text give is well
/// encoded, if the values are.
pub proof fn lemma_written_valid_utf8(
    text: Seq<u8>,
    spans: Seq<Span>,
    names: Seq<Seq<u8>>,
    values: Seq<Seq<u8>>,
    count: int,
)
    requires
        valid_utf8(text),
        well_placed(text, spans),
        delimited(text, spans),
        forall|i: int| 0 <= i < values.len() ==> valid_utf8(#[trigger] values[i]),
        0 <= count <= spans.len(),
    ensures
        valid_utf8(written(text, spans, names, values, count)),
    decreases count,
{
    if count > 0 {
        let span = spans[count - 1];
        let before = written(text, spans, names, values, count - 1);
        let start = end_before(spans, count - 1);
        let literal = text.subrange(start, span.0 - 1);
        let resolution = resolved(text, span, names, values);
        lemma_written_valid_utf8(text, spans, names, values, count - 1);
        lemma_end_is_boundary(text, spans, count - 1);
        if count > 1 {
            assert(spans[count - 2].1 + 1 < span.0);
        }
        lemma_ascii_byte_is_character(text, span.0 - 1);
        lemma_ascii_byte_is_character(text, span.1);
        lemma_between_boundaries(text, start, span.0 - 1);
        lemma_between_boundaries(text, span.0 - 1, span.1 + 1);
        lemma_first_match(name_of(text, span), names, values, 0);
        assert(valid_utf8(resolution));
        valid_utf8_concat(before, literal);
        valid_utf8_concat(before + literal, resolution);
    }
}

/// Substitution in well-encoded text with well-encoded values gives
/// well-encoded text.
pub proof fn lemma_rendered_valid_utf8(text: Seq<u8>, names: Seq<Seq<u8>>, values: Seq<Seq<u8>>)
    requires
        valid_utf8(text),
        forall|i: int| 0 <= i < values.len() ==> valid_utf8(#[trigger] values[i]),
    ensures
        valid_utf8(rendered(text, names, values)),
{
    let spans = occurrences(text);
    let count = spans.len() as int;
    lemma_occurrences_well_placed(text);
    lemma_occurrences_delimited(text);
    lemma_written_valid_utf8(text, spans, names, values, count);
    lemma_end_is_boundary(text, spans, count);
    is_char_boundary_start_end_of_seq(text);
    lemma_between_boundaries(text, end_before(spans, count), text.len() as int);
    valid_utf8_concat(
        written(text, spans, names, values, count),
        text.subrange(end_before(spans, count), text.len() as int),
    );
}

} // verus!
