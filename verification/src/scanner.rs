//! The scanner: one pass over the bytes that finds every placeholder.

use crate::laws::lemma_occurrences_well_placed;
use crate::model::{
    first_close, first_occurrence, first_open, occurrences, occurrences_from, paired,
    well_placed, Span, CLOSE_BRACE, OPEN_BRACE, PERCENT,
};
use crate::offsets::{held, OffsetBuffer};
use vstd::prelude::*;

verus! {

/// Where the scanner stands between two bytes.
#[derive(Clone, Copy, Debug, PartialEq, Eq)]
pub enum Stage {
    /// Outside any placeholder, the last byte no `%`.
    Idle,
    /// Outside any placeholder, the last byte a `%`.
    SawPercent,
    /// Behind the `{` of a marker, with no `}` since.
    InsideBraces,
}

/// Where the scanner stands after `byte`, having stood at `stage` before it.
/// A `%` readies it for a `{`, which must follow at once; behind the `{`
/// only a `}` brings it back out.
pub open spec fn next_stage(stage: Stage, byte: u8) -> Stage {
    match stage {
        Stage::Idle => if byte == PERCENT {
            Stage::SawPercent
        } else {
            Stage::Idle
        },
        Stage::SawPercent => if byte == OPEN_BRACE {
            Stage::InsideBraces
        } else if byte == PERCENT {
            Stage::SawPercent
        } else {
            Stage::Idle
        },
        Stage::InsideBraces => if byte == CLOSE_BRACE {
            Stage::Idle
        } else {
            Stage::InsideBraces
        },
    }
}

impl Stage {
    /// Takes one byte.
    pub fn step(self, byte: u8) -> (next: Stage)
        ensures
            next == next_stage(self, byte),
    {
        match self {
            Stage::Idle => if byte == PERCENT {
                Stage::SawPercent
            } else {
                Stage::Idle
            },
            Stage::SawPercent => if byte == OPEN_BRACE {
                Stage::InsideBraces
            } else if byte == PERCENT {
                Stage::SawPercent
            } else {
                Stage::Idle
            },
            Stage::InsideBraces => if byte == CLOSE_BRACE {
                Stage::Idle
            } else {
                Stage::InsideBraces
            },
        }
    }
}

/// Two more offsets make one more pair.
proof fn lemma_paired_push(offsets: Seq<usize>, open: usize, close: usize)
    requires
        offsets.len() % 2 == 0,
    ensures
        paired(offsets.push(open).push(close)) == paired(offsets).push((open as int, close as int)),
{
    let longer = offsets.push(open).push(close);
    assert(longer.len() / 2 == offsets.len() / 2 + 1);
    assert forall|k: int| 0 <= k < paired(longer).len() implies paired(longer)[k] == paired(
        offsets,
    ).push((open as int, close as int))[k] by {
        if k == offsets.len() / 2 {
            assert(2 * k == offsets.len());
        }
    }
}

/// Finds the placeholders of `input` in one pass. The buffer that comes back
/// holds two offsets for each, that of its `{` and that of its `}`, in the
/// order in which the placeholders stand. A marker that is never closed
/// leaves nothing in it.
pub fn scan(input: &[u8]) -> (found: OffsetBuffer)
    ensures
        held(found).len() == 2 * occurrences(input@).len(),
        paired(held(found)) == occurrences(input@),
        well_placed(input@, paired(held(found))),
{
    let mut found = OffsetBuffer::new();
    let mut stage = Stage::Idle;
    let mut open: usize = 0;
    let mut i: usize = 0;
    let ghost mut from: int = 0;
    assert(paired(held(found)) == Seq::<Span>::empty());
    while i < input.len()
        invariant
            0 <= from <= i <= input@.len(),
            held(found).len() == 2 * paired(held(found)).len(),
            occurrences(input@) == paired(held(found)) + occurrences_from(input@, from),
            match stage {
                Stage::Idle => first_open(input@, from) == first_open(input@, i as int),
                Stage::SawPercent => {
                    &&& from < i
                    &&& first_open(input@, from) == first_open(input@, i - 1)
                    &&& input@[i - 1] == PERCENT
                },
                Stage::InsideBraces => {
                    &&& from < open < i
                    &&& first_open(input@, from) == Some(open as int)
                    &&& first_close(input@, open + 1) == first_close(input@, i as int)
                },
            },
        decreases input@.len() - i,
    {
        let next = stage.step(input[i]);
        match (stage, next) {
            (Stage::SawPercent, Stage::InsideBraces) => {
                open = i;
            },
            (Stage::InsideBraces, Stage::Idle) => {
                proof {
                    // The placeholder from `open` to `i` is the first behind
                    // `from`; the search goes on behind it.
                    lemma_paired_push(held(found), open, i);
                    assert(first_occurrence(input@, from) == Some((open as int, i as int)));
                    assert(paired(held(found)) + occurrences_from(input@, from) == paired(
                        held(found),
                    ).push((open as int, i as int)) + occurrences_from(input@, i + 1));
                    from = i + 1;
                }
                found.push(open);
                found.push(i);
            },
            _ => {},
        }
        stage = next;
        i += 1;
    }
    proof {
        // What is left holds no placeholder: no marker, or one without `}`.
        assert(first_occurrence(input@, from) is None);
        assert(occurrences(input@) == paired(held(found)));
        lemma_occurrences_well_placed(input@);
    }
    found
}

} // verus!
