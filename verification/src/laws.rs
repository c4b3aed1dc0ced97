//! What holds of substitution on every input.

use crate::model::{
    delimited, end_before, first_close, first_match, first_occurrence, first_open,
    lemma_first_close, lemma_first_match, lemma_first_occurrence, lemma_first_open, marker_at,
    name_of, occurrences, occurrences_from, placeholder_of, rendered, resolved, well_placed,
    written, Span, CLOSE_BRACE, OPEN_BRACE, PERCENT,
};
use vstd::prelude::*;

verus! {

/// The placeholders found from `from` on lie behind `from`, each behind the
/// one before it and inside the text.
pub proof fn lemma_occurrences_from_placed(text: Seq<u8>, from: int)
    requires
        0 <= from,
    ensures
        well_placed(text, occurrences_from(text, from)),
        forall|k: int|
            0 <= k < occurrences_from(text, from).len() ==> from < (#[trigger] occurrences_from(
                text,
                from,
            )[k]).0,
    decreases text.len() - from,
{
    lemma_first_occurrence(text, from);
    match first_occurrence(text, from) {
        Some(span) => {
            // The first placeholder, then those found behind its `}`.
            let rest = occurrences_from(text, span.1 + 1);
            let all = occurrences_from(text, from);
            lemma_occurrences_from_placed(text, span.1 + 1);
            assert(all == seq![span] + rest);
            assert forall|k: int| 0 <= k < all.len() implies {
                &&& 0 < (#[trigger] all[k]).0 < all[k].1 < text.len()
                &&& from < all[k].0
            } by {}
            assert forall|j: int, k: int| 0 <= j < k < all.len() implies (#[trigger] all[j]).1 + 1
                < (#[trigger] all[k]).0 by {}
        },
        None => {},
    }
}

/// The placeholders of a text lie one behind the other, each inside the text
/// with room for its `%`.
pub proof fn lemma_occurrences_well_placed(text: Seq<u8>)
    ensures
        well_placed(text, occurrences(text)),
{
    lemma_occurrences_from_placed(text, 0);
}

/// Each placeholder found from `from` on begins with `%{` and ends with `}`.
pub proof fn lemma_occurrences_from_delimited(text: Seq<u8>, from: int)
    requires
        0 <= from,
    ensures
        delimited(text, occurrences_from(text, from)),
    decreases text.len() - from,
{
    lemma_first_occurrence(text, from);
    match first_occurrence(text, from) {
        Some(span) => {
            let rest = occurrences_from(text, span.1 + 1);
            let all = occurrences_from(text, from);
            lemma_first_open(text, from);
            lemma_first_close(text, span.0 + 1);
            lemma_occurrences_from_delimited(text, span.1 + 1);
            assert(all == seq![span] + rest);
            assert forall|k: int| 0 <= k < all.len() implies {
                &&& marker_at(text, (#[trigger] all[k]).0 - 1)
                &&& all[k].0 < all[k].1 < text.len()
                &&& text[all[k].1] == CLOSE_BRACE
            } by {}
        },
        None => {},
    }
}

/// Each placeholder of a text begins with `%{` and ends with `}`.
pub proof fn lemma_occurrences_delimited(text: Seq<u8>)
    ensures
        delimited(text, occurrences(text)),
{
    lemma_occurrences_from_delimited(text, 0);
}

/// Where the search for the `k`-th of the placeholders found from `from` on
/// begins: at `from`, or behind the placeholder before it.
pub open spec fn start_of(spans: Seq<Span>, from: int, k: int) -> int {
    if k <= 0 {
        from
    } else {
        spans[k - 1].1 + 1
    }
}

/// Nothing is passed over between the placeholders.
pub open spec fn leftmost(text: Seq<u8>, spans: Seq<Span>, from: int) -> bool {
    &&& forall|k: int, at: int|
        #![trigger spans[k], marker_at(text, at)]
        0 <= k < spans.len() && start_of(spans, from, k) <= at < spans[k].0 - 1 ==> !marker_at(
            text,
            at,
        )
    &&& forall|k: int, at: int|
        #![trigger spans[k], text[at]]
        0 <= k < spans.len() && spans[k].0 < at < spans[k].1 ==> text[at] != CLOSE_BRACE
    &&& forall|at: int, close: int|
        #![trigger marker_at(text, at), text[close]]
        start_of(spans, from, spans.len() as int) <= at && marker_at(text, at) && at + 1 < close
            < text.len() ==> text[close] != CLOSE_BRACE
}

/// The placeholders found from `from` on are the leftmost there are: no
/// marker begins between the end of one and the `%` of the next, no `}`
/// stands between the `{` and the `}` of one, and behind the last of them no
/// marker has a `}` behind its `{`.
pub proof fn lemma_occurrences_from_leftmost(text: Seq<u8>, from: int)
    requires
        0 <= from,
    ensures
        leftmost(text, occurrences_from(text, from), from),
    decreases text.len() - from,
{
    let all = occurrences_from(text, from);
    lemma_first_occurrence(text, from);
    lemma_first_open(text, from);
    match first_occurrence(text, from) {
        Some(span) => {
            let rest = occurrences_from(text, span.1 + 1);
            lemma_first_close(text, span.0 + 1);
            lemma_occurrences_from_leftmost(text, span.1 + 1);
            assert(all == seq![span] + rest);
            assert forall|k: int, at: int|
                #![trigger all[k], marker_at(text, at)]
                0 <= k < all.len() && start_of(all, from, k) <= at < all[k].0
                    - 1 implies !marker_at(text, at) by {
                if k > 0 {
                    assert(start_of(all, from, k) == start_of(rest, span.1 + 1, k - 1));
                }
            }
            assert forall|k: int, at: int|
                #![trigger all[k], text[at]]
                0 <= k < all.len() && all[k].0 < at < all[k].1 implies text[at]
                != CLOSE_BRACE by {}
            assert(start_of(all, from, all.len() as int) == start_of(
                rest,
                span.1 + 1,
                rest.len() as int,
            ));
        },
        None => {
            match first_open(text, from) {
                Some(open) => {
                    lemma_first_close(text, open + 1);
                    // A marker stands at `open - 1`, none before it, and no
                    // `}` behind `open`.
                    assert forall|at: int, close: int|
                        #![trigger marker_at(text, at), text[close]]
                        from <= at && marker_at(text, at) && at + 1 < close
                            < text.len() implies text[close] != CLOSE_BRACE by {
                        assert(at >= open - 1);
                    }
                },
                None => {},
            }
        },
    }
}

/// The placeholders of a text are the leftmost there are.
pub proof fn lemma_occurrences_leftmost(text: Seq<u8>)
    ensures
        leftmost(text, occurrences(text), 0),
{
    lemma_occurrences_from_leftmost(text, 0);
}

/// A complete placeholder stands somewhere in the text: a marker `%{` with a
/// `}` somewhere behind its `{`.
pub open spec fn has_placeholder(text: Seq<u8>) -> bool {
    exists|at: int, close: int|
        #![trigger marker_at(text, at), text[close]]
        marker_at(text, at) && at + 1 < close < text.len() && text[close] == CLOSE_BRACE
}

/// A text holds a placeholder exactly when the scan finds one.
pub proof fn lemma_has_placeholder(text: Seq<u8>)
    ensures
        has_placeholder(text) <==> occurrences(text).len() > 0,
{
    lemma_first_open(text, 0);
    if let Some(open) = first_open(text, 0) {
        lemma_first_close(text, open + 1);
        if let Some(close) = first_close(text, open + 1) {
            assert(marker_at(text, open - 1) && text[close] == CLOSE_BRACE);
        }
    }
}

/// Text without a placeholder comes back as it is, whatever the patterns and
/// values are.
pub proof fn lemma_no_placeholder_unchanged(
    text: Seq<u8>,
    names: Seq<Seq<u8>>,
    values: Seq<Seq<u8>>,
)
    requires
        !has_placeholder(text),
    ensures
        rendered(text, names, values) == text,
{
    lemma_has_placeholder(text);
}

/// Where each of the first `count` placeholders resolves to itself, what
/// they give is the text up to the end of the last of them: the pieces
/// between the placeholders and the placeholders lie side by side, with no
/// byte left out and none twice.
pub proof fn lemma_written_passthrough(
    text: Seq<u8>,
    spans: Seq<Span>,
    names: Seq<Seq<u8>>,
    values: Seq<Seq<u8>>,
    count: int,
)
    requires
        well_placed(text, spans),
        0 <= count <= spans.len(),
        forall|k: int|
            0 <= k < count ==> resolved(text, #[trigger] spans[k], names, values)
                == placeholder_of(text, spans[k]),
    ensures
        0 <= end_before(spans, count) <= text.len(),
        written(text, spans, names, values, count) == text.subrange(0, end_before(spans, count)),
    decreases count,
{
    if count > 0 {
        lemma_written_passthrough(text, spans, names, values, count - 1);
        // The text up to the placeholder before, the text between, and the
        // placeholder itself.
        let span = spans[count - 1];
        let start = end_before(spans, count - 1);
        assert(start < span.0);
        assert(text.subrange(0, start) + text.subrange(start, span.0 - 1) + placeholder_of(
            text,
            span,
        ) == text.subrange(0, span.1 + 1));
    }
}

/// Where every placeholder resolves to itself, the text comes back as it
/// is.
pub proof fn lemma_passthrough_unchanged(
    text: Seq<u8>,
    names: Seq<Seq<u8>>,
    values: Seq<Seq<u8>>,
)
    requires
        forall|k: int|
            0 <= k < occurrences(text).len() ==> resolved(
                text,
                #[trigger] occurrences(text)[k],
                names,
                values,
            ) == placeholder_of(text, occurrences(text)[k]),
    ensures
        rendered(text, names, values) == text,
{
    let spans = occurrences(text);
    lemma_occurrences_well_placed(text);
    lemma_written_passthrough(text, spans, names, values, spans.len() as int);
}

/// With no pattern, or no value, every text comes back as it is.
pub proof fn lemma_no_patterns_unchanged(
    text: Seq<u8>,
    names: Seq<Seq<u8>>,
    values: Seq<Seq<u8>>,
)
    requires
        names.len() == 0 || values.len() == 0,
    ensures
        rendered(text, names, values) == text,
{
    lemma_passthrough_unchanged(text, names, values);
}

/// The placeholder that names `name`: `%{`, the name, `}`.
pub open spec fn placeholder_for(name: Seq<u8>) -> Seq<u8> {
    seq![PERCENT, OPEN_BRACE] + name + seq![CLOSE_BRACE]
}

/// Where the value of each pattern is the placeholder that names it, the
/// text comes back as it is: putting the placeholders back in place of what
/// was substituted rebuilds the input.
pub proof fn lemma_placeholders_for_values_unchanged(
    text: Seq<u8>,
    names: Seq<Seq<u8>>,
    values: Seq<Seq<u8>>,
)
    requires
        forall|i: int|
            0 <= i < names.len() && i < values.len() ==> #[trigger] values[i] == placeholder_for(
                names[i],
            ),
    ensures
        rendered(text, names, values) == text,
{
    let spans = occurrences(text);
    lemma_occurrences_delimited(text);
    assert forall|k: int| 0 <= k < spans.len() implies resolved(
        text,
        #[trigger] spans[k],
        names,
        values,
    ) == placeholder_of(text, spans[k]) by {
        let span = spans[k];
        lemma_first_match(name_of(text, span), names, values, 0);
        if let Some(index) = first_match(name_of(text, span), names, values, 0) {
            assert(placeholder_for(names[index]) == placeholder_of(text, span));
        }
    }
    lemma_passthrough_unchanged(text, names, values);
}

/// By how much the first `count` placeholders make the output longer than
/// the input: for each, the length of what it resolves to less its own
/// length.
pub open spec fn growth(
    text: Seq<u8>,
    spans: Seq<Span>,
    names: Seq<Seq<u8>>,
    values: Seq<Seq<u8>>,
    count: int,
) -> int
    decreases count,
{
    if count <= 0 {
        0
    } else {
        growth(text, spans, names, values, count - 1) + resolved(
            text,
            spans[count - 1],
            names,
            values,
        ).len() - placeholder_of(text, spans[count - 1]).len()
    }
}

/// What the first `count` placeholders give is as long as the text up to the
/// end of the last of them, but for what the placeholders add or take.
pub proof fn lemma_written_len(
    text: Seq<u8>,
    spans: Seq<Span>,
    names: Seq<Seq<u8>>,
    values: Seq<Seq<u8>>,
    count: int,
)
    requires
        well_placed(text, spans),
        0 <= count <= spans.len(),
    ensures
        0 <= end_before(spans, count) <= text.len(),
        written(text, spans, names, values, count).len() == end_before(spans, count) + growth(
            text,
            spans,
            names,
            values,
            count,
        ),
    decreases count,
{
    if count > 0 {
        lemma_written_len(text, spans, names, values, count - 1);
        assert(end_before(spans, count - 1) < spans[count - 1].0);
    }
}

/// The output is as long as the input, but for what the placeholders add or
/// take: every byte outside a replaced placeholder is written once.
pub proof fn lemma_rendered_len(text: Seq<u8>, names: Seq<Seq<u8>>, values: Seq<Seq<u8>>)
    ensures
        rendered(text, names, values).len() == text.len() + growth(
            text,
            occurrences(text),
            names,
            values,
            occurrences(text).len() as int,
        ),
{
    lemma_occurrences_well_placed(text);
    lemma_written_len(text, occurrences(text), names, values, occurrences(text).len() as int);
}

/// What the first `count` placeholders give stands at the front of what
/// more of them give.
pub proof fn lemma_written_grows(
    text: Seq<u8>,
    spans: Seq<Span>,
    names: Seq<Seq<u8>>,
    values: Seq<Seq<u8>>,
    count: int,
    more: int,
)
    requires
        0 <= count <= more,
    ensures
        written(text, spans, names, values, count).len() <= written(
            text,
            spans,
            names,
            values,
            more,
        ).len(),
        written(text, spans, names, values, more).subrange(
            0,
            written(text, spans, names, values, count).len() as int,
        ) == written(text, spans, names, values, count),
    decreases more - count,
{
    if count < more {
        lemma_written_grows(text, spans, names, values, count, more - 1);
        let short = written(text, spans, names, values, count);
        let middle = written(text, spans, names, values, more - 1);
        let long = written(text, spans, names, values, more);
        assert(long.subrange(0, short.len() as int) == middle.subrange(0, short.len() as int));
    }
}

/// Where a placeholder stands in the output: behind what the placeholders
/// before it gave and the text between the last of them and its `%`.
pub open spec fn output_offset(
    text: Seq<u8>,
    names: Seq<Seq<u8>>,
    values: Seq<Seq<u8>>,
    k: int,
) -> int {
    let spans = occurrences(text);
    written(text, spans, names, values, k).len() + (spans[k].0 - 1 - end_before(spans, k))
}

/// A placeholder whose name equals no pattern stands in the output byte for
/// byte as it stands in the input, at the place that belongs to it.
pub proof fn lemma_unmatched_placeholder_kept(
    text: Seq<u8>,
    names: Seq<Seq<u8>>,
    values: Seq<Seq<u8>>,
    k: int,
)
    requires
        0 <= k < occurrences(text).len(),
        first_match(name_of(text, occurrences(text)[k]), names, values, 0) is None,
    ensures
        ({
            let at = output_offset(text, names, values, k);
            let kept = placeholder_of(text, occurrences(text)[k]);
            &&& 0 <= at
            &&& at + kept.len() <= rendered(text, names, values).len()
            &&& rendered(text, names, values).subrange(at, at + kept.len()) == kept
        }),
{
    let spans = occurrences(text);
    let span = spans[k];
    let count = spans.len() as int;
    let kept = placeholder_of(text, span);
    let at = output_offset(text, names, values, k);
    lemma_occurrences_well_placed(text);
    assert(end_before(spans, k) < span.0);
    // The placeholder ends what the first `k + 1` placeholders give, and
    // that stands at the front of the output.
    let through = written(text, spans, names, values, k + 1);
    let all = written(text, spans, names, values, count);
    assert(through.subrange(at, at + kept.len()) == kept);
    lemma_written_grows(text, spans, names, values, k + 1, count);
    assert(all.subrange(0, through.len() as int).subrange(at, at + kept.len()) == all.subrange(
        at,
        at + kept.len(),
    ));
    assert(rendered(text, names, values).subrange(at, at + kept.len()) == all.subrange(
        at,
        at + kept.len(),
    ));
}

/// The patterns with the values beside them, as far as both reach.
pub open spec fn pairing(names: Seq<Seq<u8>>, values: Seq<Seq<u8>>) -> Seq<(Seq<u8>, Seq<u8>)> {
    Seq::new(
        if names.len() <= values.len() {
            names.len()
        } else {
            values.len()
        },
        |i: int| (names[i], values[i]),
    )
}

/// No name is paired with two different values.
pub open spec fn single_valued(names: Seq<Seq<u8>>, values: Seq<Seq<u8>>) -> bool {
    forall|i: int, j: int|
        #![trigger names[i], names[j]]
        0 <= i < names.len() && i < values.len() && 0 <= j < names.len() && j < values.len()
            && names[i] == names[j] ==> values[i] == values[j]
}

/// The value that a name is given: that of the first pattern that equals it.
pub open spec fn value_for(name: Seq<u8>, names: Seq<Seq<u8>>, values: Seq<Seq<u8>>) -> Option<
    Seq<u8>,
> {
    match first_match(name, names, values, 0) {
        Some(index) => Some(values[index]),
        None => None,
    }
}

/// Where no name has two values, the value that a name is given depends on
/// the pairs alone, not on their order.
pub proof fn lemma_value_for_reordered(
    name: Seq<u8>,
    names: Seq<Seq<u8>>,
    values: Seq<Seq<u8>>,
    other_names: Seq<Seq<u8>>,
    other_values: Seq<Seq<u8>>,
)
    requires
        pairing(names, values).to_multiset() == pairing(other_names, other_values).to_multiset(),
        single_valued(names, values),
    ensures
        value_for(name, names, values) == value_for(name, other_names, other_values),
{
    let pairs = pairing(names, values);
    let other_pairs = pairing(other_names, other_values);
    pairs.to_multiset_ensures();
    other_pairs.to_multiset_ensures();
    lemma_first_match(name, names, values, 0);
    lemma_first_match(name, other_names, other_values, 0);
    // A pair found on one side stands on the other side too, so the name
    // is found there, and with the same value.
    if let Some(index) = first_match(name, other_names, other_values, 0) {
        let pair = (name, other_values[index]);
        assert(other_pairs[index] == pair);
        assert(pairs.to_multiset().count(pair) > 0);
        assert(pairs.contains(pair));
    }
    if let Some(index) = first_match(name, names, values, 0) {
        let pair = (name, values[index]);
        assert(pairs[index] == pair);
        assert(other_pairs.to_multiset().count(pair) > 0);
        assert(other_pairs.contains(pair));
    }
}

/// Where no name has two values, the order of the patterns does not matter:
/// patterns and values reordered together give the same output.
pub proof fn lemma_order_of_patterns(
    text: Seq<u8>,
    names: Seq<Seq<u8>>,
    values: Seq<Seq<u8>>,
    other_names: Seq<Seq<u8>>,
    other_values: Seq<Seq<u8>>,
)
    requires
        pairing(names, values).to_multiset() == pairing(other_names, other_values).to_multiset(),
        single_valued(names, values),
    ensures
        rendered(text, names, values) == rendered(text, other_names, other_values),
{
    let spans = occurrences(text);
    lemma_written_reordered(
        text,
        spans,
        names,
        values,
        other_names,
        other_values,
        spans.len() as int,
    );
}

/// Where no name has two values, what the first `count` placeholders give
/// does not depend on the order of the patterns.
proof fn lemma_written_reordered(
    text: Seq<u8>,
    spans: Seq<Span>,
    names: Seq<Seq<u8>>,
    values: Seq<Seq<u8>>,
    other_names: Seq<Seq<u8>>,
    other_values: Seq<Seq<u8>>,
    count: int,
)
    requires
        pairing(names, values).to_multiset() == pairing(other_names, other_values).to_multiset(),
        single_valued(names, values),
    ensures
        written(text, spans, names, values, count) == written(
            text,
            spans,
            other_names,
            other_values,
            count,
        ),
    decreases count,
{
    if count > 0 {
        lemma_written_reordered(text, spans, names, values, other_names, other_values, count - 1);
        lemma_value_for_reordered(
            name_of(text, spans[count - 1]),
            names,
            values,
            other_names,
            other_values,
        );
    }
}

} // verus!
