//! Ranges are ordered by their start, and by their end where the starts agree.
use crate::text::TextRange;
use core::cmp::Ordering;
use vstd::prelude::*;
use vstd::std_specs::cmp::PartialOrdSpecImpl;

verus! {

/// How `a` stands to `b` when ranges are ordered by start and then by end.
pub open spec fn range_order(a: TextRange, b: TextRange) -> Ordering {
    if a.start.0 < b.start.0 {
        Ordering::Less
    } else if a.start.0 > b.start.0 {
        Ordering::Greater
    } else if a.end.0 < b.end.0 {
        Ordering::Less
    } else if a.end.0 > b.end.0 {
        Ordering::Greater
    } else {
        Ordering::Equal
    }
}

impl PartialOrd for TextRange {
    /// Compares by start, and by end where the starts agree.
    fn partial_cmp(&self, other: &TextRange) -> (r: Option<Ordering>) {
        if self.start.0 < other.start.0 {
            Some(Ordering::Less)
        } else if self.start.0 > other.start.0 {
            Some(Ordering::Greater)
        } else if self.end.0 < other.end.0 {
            Some(Ordering::Less)
        } else if self.end.0 > other.end.0 {
            Some(Ordering::Greater)
        } else {
            Some(Ordering::Equal)
        }
    }
}

impl PartialOrdSpecImpl for TextRange {
    open spec fn obeys_partial_cmp_spec() -> bool {
        true
    }

    open spec fn partial_cmp_spec(&self, other: &TextRange) -> Option<Ordering> {
        Some(range_order(*self, *other))
    }
}

} // verus!
