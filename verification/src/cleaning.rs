//! Pairs of section-cleaning assignments: each elf covers a closed range of
//! section numbers, and pairs are checked for containment and overlap.

use vstd::prelude::*;

use crate::parsing::{int_str_val, is_int_str, parse_i32};

verus! {

/// One elf's assignment: the first and last section it cleans.
#[derive(Debug)]
pub struct CleaningAssignment {
    first: i32,
    second: i32,
}

impl CleaningAssignment {
    pub closed spec fn spec_first(&self) -> int {
        self.first as int
    }

    pub closed spec fn spec_second(&self) -> int {
        self.second as int
    }

    /// Build an assignment from the two written-out section numbers.
    pub fn new(first: &str, second: &str) -> (r: Self)
        requires
            is_int_str(first@) && i32::MIN <= int_str_val(first@) <= i32::MAX,
            is_int_str(second@) && i32::MIN <= int_str_val(second@) <= i32::MAX,
        ensures
            r.spec_first() == int_str_val(first@),
            r.spec_second() == int_str_val(second@),
    {
        Self { first: parse_i32(first).unwrap(), second: parse_i32(second).unwrap() }
    }

    /// Whether one of the two assignments fully contains the other.
    pub fn fully_contained(&self, other: &CleaningAssignment) -> (r: bool)
        ensures
            r == ((other.spec_first() <= self.spec_first() && self.spec_second()
                <= other.spec_second()) || (self.spec_first() <= other.spec_first()
                && other.spec_second() <= self.spec_second())),
    {
        if self.first >= other.first && self.second <= other.second {
            return true;
        } else if other.first >= self.first && other.second <= self.second {
            return true;
        }
        false
    }

    /// Whether the two assignments share any section.
    pub fn overlap(&self, other: &CleaningAssignment) -> (r: bool)
        ensures
            r == (self.spec_first() <= other.spec_second() && other.spec_first()
                <= self.spec_second()),
    {
        self.first <= other.second && other.first <= self.second
    }
}

} // verus!
