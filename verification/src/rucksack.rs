//! Rucksacks split into two compartments: finding the item type that appears
//! in both halves, and scoring item types by priority.

use vstd::prelude::*;
use vstd::string::{StrSliceExecFns, StringExecFns};

use crate::text::{contains_char, push_char};

verus! {

/// One rucksack: the items in its top and bottom compartments.
#[derive(Debug)]
pub struct Rucksack {
    items_top: String,
    items_bottom: String,
}

/// The items appended by one scan step: the character once if the bottom
/// compartment holds it, and once more if the top compartment holds it.
pub open spec fn dup_matches(c: char, top: Seq<char>, bottom: Seq<char>) -> Seq<char> {
    (if bottom.contains(c) {
        seq![c]
    } else {
        Seq::<char>::empty()
    }) + (if top.contains(c) {
        seq![c]
    } else {
        Seq::<char>::empty()
    })
}

/// The string of matches collected by scanning `s` left to right.
pub open spec fn dup_string(s: Seq<char>, top: Seq<char>, bottom: Seq<char>) -> Seq<char>
    decreases s.len(),
{
    if s.len() == 0 {
        Seq::<char>::empty()
    } else {
        dup_string(s.drop_last(), top, bottom) + dup_matches(s.last(), top, bottom)
    }
}

impl Rucksack {
    /// The top compartment's items.
    pub closed spec fn spec_top(&self) -> Seq<char> {
        self.items_top@
    }

    /// The bottom compartment's items.
    pub closed spec fn spec_bottom(&self) -> Seq<char> {
        self.items_bottom@
    }

    /// Split a line of items in half, one compartment each.
    pub fn new(line: String) -> (r: Self)
        ensures
            r.spec_top() == line@.subrange(0, line@.len() as int / 2),
            r.spec_bottom() == line@.subrange(line@.len() as int / 2, line@.len() as int),
    {
        let n = line.as_str().unicode_len();
        let top = line.as_str().substring_char(0, n / 2);
        let bottom = line.as_str().substring_char(n / 2, n);
        Self { items_top: String::from_str(top), items_bottom: String::from_str(bottom) }
    }

    /// The first item of the top compartment that the bottom compartment
    /// also holds; at least one such item must exist.
    pub fn find_duplicated(&self) -> (r: char)
        requires
            exists|i: int|
                0 <= i < self.spec_top().len() && self.spec_bottom().contains(self.spec_top()[i]),
        ensures
            exists|i: int|
                {
                    &&& 0 <= i < self.spec_top().len()
                    &&& r == self.spec_top()[i]
                    &&& self.spec_bottom().contains(self.spec_top()[i])
                    &&& forall|k: int|
                        0 <= k < i ==> !self.spec_bottom().contains(self.spec_top()[k])
                },
    {
        let n = self.items_top.as_str().unicode_len();
        let mut i: usize = 0;
        while i < n
            invariant
                n == self.spec_top().len(),
                i <= n,
                forall|k: int| 0 <= k < i ==> !self.spec_bottom().contains(self.spec_top()[k]),
            decreases n - i,
        {
            let ch = self.items_top.as_str().get_char(i);
            if contains_char(self.items_bottom.as_str(), ch) {
                return ch;
            }
            i = i + 1;
        }
        proof {
            assert(forall|k: int|
                0 <= k < self.spec_top().len() ==> !self.spec_bottom().contains(
                    self.spec_top()[k],
                ));
            assert(false);
        }
        ' '
    }

    /// Both compartments joined back into one string.
    pub fn get_string(&self) -> (r: String)
        ensures
            r@ == self.spec_top() + self.spec_bottom(),
    {
        let result = self.items_top.clone().concat(self.items_bottom.as_str());
        result
    }

    /// Scan a string of items left to right, collecting each item once per
    /// compartment that holds it.
    pub fn find_all_duplicates(&self, str: &String) -> (r: String)
        ensures
            r@ == dup_string(str@, self.spec_top(), self.spec_bottom()),
    {
        let mut matches = String::new();
        let n = str.as_str().unicode_len();
        let mut i: usize = 0;
        while i < n
            invariant
                n == str@.len(),
                i <= n,
                matches@ == dup_string(
                    str@.subrange(0, i as int),
                    self.spec_top(),
                    self.spec_bottom(),
                ),
            decreases n - i,
        {
            let ch = str.as_str().get_char(i);
            if contains_char(self.items_bottom.as_str(), ch) {
                push_char(&mut matches, ch);
            }
            if contains_char(self.items_top.as_str(), ch) {
                push_char(&mut matches, ch);
            }
            proof {
                let pre = str@.subrange(0, i as int);
                let cur = str@.subrange(0, i + 1 as int);
                assert(cur.drop_last() =~= pre);
                assert(cur.last() == str@[i as int]);
                assert(matches@ =~= dup_string(pre, self.spec_top(), self.spec_bottom())
                    + dup_matches(str@[i as int], self.spec_top(), self.spec_bottom()));
            }
            i = i + 1;
        }
        proof {
            assert(str@.subrange(0, n as int) =~= str@);
        }
        matches
    }

    /// The priority of an item type: lowercase items score 1 through 26,
    /// uppercase items 27 through 52.
    pub fn get_priority(item: char) -> (r: i32)
        requires
            ('a' <= item && item <= 'z') || ('A' <= item && item <= 'Z'),
        ensures
            'a' <= item && item <= 'z' ==> r == 1 + item as int - 'a' as int,
            'A' <= item && item <= 'Z' ==> r == 27 + item as int - 'A' as int,
    {
        if item >= 'a' && item <= 'z' {
            1 + ((item as u32) - ('a' as u32)) as i32
        } else {
            27 + ((item as u32) - ('A' as u32)) as i32
        }
    }
}

} // verus!
