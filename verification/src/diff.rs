//! Diff event ordering.  A blob-to-blob comparison is consumed as a pull
//! sequence of typed events; per comparison the strict order is: one
//! overall delta description, at most one binary-content indicator, then
//! hunk boundaries, each followed by the line changes nested in it.  A
//! consumer stops early simply by taking a prefix of the sequence.

use vstd::prelude::*;

verus! {

/// One event of a blob-to-blob comparison, in delivery order.
#[derive(Debug, Clone, Copy, PartialEq, Eq, Structural)]
pub enum DiffEvent {
    /// The overall description: whether an old and a new blob take part.
    /// An absent side stands for an added or deleted blob.
    Delta { old_present: bool, new_present: bool },
    /// The compared content is binary; no hunks follow in practice.
    Binary,
    /// A hunk boundary: the spans it covers on each side.
    Hunk { old_start: u32, old_lines: u32, new_start: u32, new_lines: u32 },
    /// One changed line within the most recent hunk; `origin` is the
    /// marker byte the repository reports for it.
    Line { origin: u8 },
}

/// The order rule from position `i` on: no further delta, a binary
/// indicator only immediately after the delta, and every line change after
/// some hunk boundary.
pub open spec fn spec_events_ordered_from(s: Seq<DiffEvent>, i: int, seen_hunk: bool) -> bool
    decreases s.len() - i,
{
    if i < 0 || i >= s.len() {
        true
    } else {
        match s[i] {
            DiffEvent::Delta { .. } => false,
            DiffEvent::Binary => i == 1 && spec_events_ordered_from(s, i + 1, seen_hunk),
            DiffEvent::Hunk { .. } => spec_events_ordered_from(s, i + 1, true),
            DiffEvent::Line { .. } => seen_hunk && spec_events_ordered_from(s, i + 1, seen_hunk),
        }
    }
}

/// A well-ordered comparison: it opens with its delta description, and the
/// order rule holds from there on.
pub open spec fn spec_events_ordered(s: Seq<DiffEvent>) -> bool {
    s.len() >= 1 && s[0] is Delta && spec_events_ordered_from(s, 1, false)
}

/// Checks that a delivered event sequence respects the strict per-
/// comparison order.
pub fn events_well_ordered(events: &Vec<DiffEvent>) -> (r: bool)
    ensures
        r == spec_events_ordered(events@),
{
    if events.len() == 0 {
        return false;
    }
    match events[0] {
        DiffEvent::Delta { .. } => {
        },
        _ => {
            return false;
        },
    }
    let mut i: usize = 1;
    let mut seen_hunk = false;
    while i < events.len()
        invariant
            1 <= i <= events@.len(),
            spec_events_ordered_from(events@, 1, false) == spec_events_ordered_from(
                events@,
                i as int,
                seen_hunk,
            ),
        decreases events@.len() - i,
    {
        match events[i] {
            DiffEvent::Delta { .. } => {
                return false;
            },
            DiffEvent::Binary => {
                if i != 1 {
                    return false;
                }
            },
            DiffEvent::Hunk { .. } => {
                seen_hunk = true;
            },
            DiffEvent::Line { .. } => {
                if !seen_hunk {
                    return false;
                }
            },
        }
        i = i + 1;
    }
    true
}

/// The number of hunk boundaries among the events.
pub open spec fn spec_hunk_count(s: Seq<DiffEvent>) -> int
    decreases s.len(),
{
    if s.len() == 0 {
        0
    } else {
        spec_hunk_count(s.drop_last()) + (if s.last() is Hunk {
            1int
        } else {
            0int
        })
    }
}

/// Counts the hunk boundaries of a comparison.
pub fn hunk_count(events: &Vec<DiffEvent>) -> (n: usize)
    ensures
        n == spec_hunk_count(events@),
{
    let mut n: usize = 0;
    let mut i: usize = 0;
    while i < events.len()
        invariant
            0 <= i <= events@.len(),
            n <= i,
            n == spec_hunk_count(events@.take(i as int)),
        decreases events@.len() - i,
    {
        proof {
            assert(events@.take(i as int + 1).drop_last() =~= events@.take(i as int));
            assert(events@.take(i as int + 1).last() == events@[i as int]);
        }
        match events[i] {
            DiffEvent::Hunk { .. } => {
                n = n + 1;
            },
            _ => {
            },
        }
        i = i + 1;
    }
    proof {
        assert(events@.take(events@.len() as int) =~= events@);
    }
    n
}

} // verus!
