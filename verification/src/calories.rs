//! Tallying the calories one elf carries: a running list of item values and
//! their total.

use vstd::prelude::*;

verus! {

/// One elf's inventory: the item values seen so far and their running total.
pub struct Elf {
    items: Vec<i32>,
    total: i32,
}

/// The sum of a sequence of item values, as an unbounded integer.
pub open spec fn sum_items(items: Seq<i32>) -> int
    decreases items.len(),
{
    if items.len() == 0 {
        0
    } else {
        sum_items(items.drop_last()) + items.last()
    }
}

impl Elf {
    /// The elf's total always equals the sum of the items it was handed.
    pub closed spec fn wf(&self) -> bool {
        self.total == sum_items(self.items@)
    }

    pub closed spec fn spec_items(&self) -> Seq<i32> {
        self.items@
    }

    pub fn new() -> (r: Self)
        ensures
            r.wf(),
            r.spec_items() == Seq::<i32>::empty(),
    {
        Self { items: Vec::new(), total: 0 }
    }

    pub fn add(&mut self, item: i32)
        requires
            old(self).wf(),
            i32::MIN <= sum_items(old(self).spec_items()) + item <= i32::MAX,
        ensures
            final(self).wf(),
            final(self).spec_items() == old(self).spec_items().push(item),
    {
        self.items.push(item);
        assert(self.items@.drop_last() == old(self).items@);
        self.total = self.total + item;
    }

    pub fn get_total(&self) -> (r: i32)
        requires
            self.wf(),
        ensures
            r == sum_items(self.spec_items()),
    {
        self.total
    }
}

} // verus!
