//! The assembler: it resolves each placeholder against the patterns and
//! writes the result out, with the text around the placeholders kept.

use crate::model::{
    assembled, end_before, first_match, paired, rendered, resolved, well_placed, written,
};
use crate::scanner::scan;
use vstd::prelude::*;
use vstd::string::StringSliceAdditionalSpecFns;
use vstd::utf8::encode_utf8;

verus! {

/// The pattern names as bytes, in the order given.
pub open spec fn name_bytes(patterns: Seq<&str>) -> Seq<Seq<u8>> {
    Seq::new(patterns.len(), |i: int| patterns[i].spec_bytes())
}

/// The values as bytes, in the order given.
pub open spec fn value_bytes(values: Seq<String>) -> Seq<Seq<u8>> {
    Seq::new(values.len(), |i: int| encode_utf8(values[i]@))
}

/// Whether two slices hold the same bytes.
pub fn same_bytes(left: &[u8], right: &[u8]) -> (same: bool)
    ensures
        same == (left@ == right@),
{
    if left.len() != right.len() {
        return false;
    }
    let mut i: usize = 0;
    while i < left.len()
        invariant
            i <= left@.len(),
            left@.len() == right@.len(),
            forall|k: int| 0 <= k < i ==> left@[k] == right@[k],
        decreases left@.len() - i,
    {
        if left[i] != right[i] {
            return false;
        }
        i += 1;
    }
    assert(left@ =~= right@);
    true
}

/// Looks `name` up among the patterns: the index of the first pattern that
/// equals it byte for byte and has a value beside it, if there is one.
pub fn find_pattern(name: &[u8], patterns: &[&str], values: &[String]) -> (found: Option<usize>)
    ensures
        match found {
            Some(index) => {
                &&& index < patterns@.len()
                &&& index < values@.len()
                &&& first_match(name@, name_bytes(patterns@), value_bytes(values@), 0) == Some(
                    index as int,
                )
            },
            None => first_match(name@, name_bytes(patterns@), value_bytes(values@), 0) is None,
        },
{
    let ghost names = name_bytes(patterns@);
    let ghost contents = value_bytes(values@);
    let mut i: usize = 0;
    while i < patterns.len() && i < values.len()
        invariant
            names == name_bytes(patterns@),
            contents == value_bytes(values@),
            first_match(name@, names, contents, 0) == first_match(name@, names, contents, i as int),
        decreases patterns@.len() - i,
    {
        if same_bytes(patterns[i].as_bytes(), name) {
            return Some(i);
        }
        i += 1;
    }
    None
}

/// Adds `bytes` behind what `output` holds.
fn append(output: &mut Vec<u8>, bytes: &[u8])
    ensures
        final(output)@ == old(output)@ + bytes@,
{
    output.extend_from_slice(bytes);
    assert(output@ =~= old(output)@ + bytes@);
}

/// Writes what one placeholder resolves to: the value of the first pattern
/// that equals its name, or the placeholder as it stands in `input`.
fn resolve(
    output: &mut Vec<u8>,
    input: &[u8],
    open: usize,
    close: usize,
    patterns: &[&str],
    values: &[String],
)
    requires
        0 < open < close < input@.len(),
    ensures
        final(output)@ == old(output)@ + resolved(
            input@,
            (open as int, close as int),
            name_bytes(patterns@),
            value_bytes(values@),
        ),
{
    match find_pattern(&input[open + 1..close], patterns, values) {
        Some(index) => {
            append(output, values[index].as_str().as_bytes());
        },
        None => {
            assert(close < input.len());
            append(output, &input[open - 1..close + 1]);
        },
    }
}

/// Writes `input` out with each of the placeholders at `offsets` resolved.
/// `offsets` holds two offsets for each placeholder, that of its `{` and that
/// of its `}`; an offset left over at the end is not looked at. A placeholder
/// whose name equals a pattern gives the value of the first such pattern; any
/// other is written as it stands; the text outside the placeholders is kept.
pub fn assemble(input: &[u8], offsets: &[usize], patterns: &[&str], values: &[String]) -> (output:
    Vec<u8>)
    requires
        well_placed(input@, paired(offsets@)),
    ensures
        output@ == assembled(
            input@,
            paired(offsets@),
            name_bytes(patterns@),
            value_bytes(values@),
        ),
{
    let ghost spans = paired(offsets@);
    let ghost names = name_bytes(patterns@);
    let ghost contents = value_bytes(values@);
    let count = offsets.len() / 2;
    let len = input.len();
    let mut output: Vec<u8> = Vec::with_capacity(len);
    let mut prev_end: usize = 0;
    let mut n: usize = 0;
    while n < count
        invariant
            spans == paired(offsets@),
            names == name_bytes(patterns@),
            contents == value_bytes(values@),
            spans.len() == count,
            2 * count <= offsets@.len() <= usize::MAX,
            well_placed(input@, spans),
            n <= count,
            prev_end == end_before(spans, n as int),
            prev_end <= len == input@.len(),
            output@ == written(input@, spans, names, contents, n as int),
        decreases count - n,
    {
        let open = offsets[2 * n];
        let close = offsets[2 * n + 1];
        let ghost span = spans[n as int];
        assert(span == (open as int, close as int));
        assert(prev_end < open < close < input@.len());
        append(&mut output, &input[prev_end..open - 1]);
        resolve(&mut output, input, open, close, patterns, values);
        prev_end = close + 1;
        n += 1;
    }
    append(&mut output, &input[prev_end..len]);
    output
}

/// Replaces each placeholder of `input` whose name equals a pattern by the
/// value of the first such pattern, and keeps every other byte.
pub fn replace_bytes(input: &[u8], patterns: &[&str], values: &[String]) -> (output: Vec<u8>)
    ensures
        output@ == rendered(input@, name_bytes(patterns@), value_bytes(values@)),
{
    let found = scan(input);
    assemble(input, found.as_slice(), patterns, values)
}

} // verus!
