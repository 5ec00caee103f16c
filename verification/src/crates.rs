//! Stacks of labelled crates moved by a crane: crates come off the top of
//! one stack and land on another, one at a time or as a held group.

use vstd::prelude::*;

verus! {

/// One stack of crates, bottom first; the last element is the top.
#[derive(Debug, Clone)]
pub struct CrateStack {
    crates: Vec<char>,
}

impl CrateStack {
    /// The stack's crates, bottom first.
    pub closed spec fn spec_crates(&self) -> Seq<char> {
        self.crates@
    }

    pub fn new() -> (r: Self)
        ensures
            r.spec_crates() == Seq::<char>::empty(),
    {
        Self { crates: Vec::new() }
    }

    /// Slide a crate in under the stack (input lines arrive top first).
    pub fn add(&mut self, new_crate: char)
        ensures
            final(self).spec_crates() == seq![new_crate] + old(self).spec_crates(),
    {
        self.crates.insert(0, new_crate);
        proof {
            assert(self.crates@ =~= seq![new_crate] + old(self).spec_crates());
        }
    }

    /// Move `num_crates` crates from the top of `other` onto this stack, one
    /// at a time, so they arrive in reverse order.
    pub fn transfer(&mut self, other: &mut CrateStack, num_crates: i32)
        requires
            num_crates <= old(other).spec_crates().len(),
        ensures
            num_crates <= 0 ==> (final(self).spec_crates() == old(self).spec_crates() && final(other).spec_crates() == old(other).spec_crates()),
            num_crates > 0 ==> {
                let m = old(other).spec_crates().len();
                &&& final(self).spec_crates() == old(self).spec_crates() + Seq::new(
                    num_crates as nat,
                    |i: int| old(other).spec_crates()[m - 1 - i],
                )
                &&& final(other).spec_crates() == old(other).spec_crates().subrange(
                    0,
                    m - num_crates,
                )
            },
    {
        let mut j: i32 = 0;
        while j < num_crates
            invariant
                num_crates <= old(other).spec_crates().len(),
                0 <= j,
                j <= num_crates || j == 0,
                num_crates > 0 ==> j <= num_crates,
                other.spec_crates() == old(other).spec_crates().subrange(
                    0,
                    old(other).spec_crates().len() - j,
                ),
                self.spec_crates() == old(self).spec_crates() + Seq::new(
                    j as nat,
                    |i: int| old(other).spec_crates()[old(other).spec_crates().len() - 1 - i],
                ),
            decreases num_crates - j,
        {
            let c = other.pop();
            self.push(c);
            proof {
                let m = old(other).spec_crates().len();
                assert(other.spec_crates() =~= old(other).spec_crates().subrange(0, m - j - 1));
                assert(self.spec_crates() =~= old(self).spec_crates() + Seq::new(
                    (j + 1) as nat,
                    |i: int| old(other).spec_crates()[m - 1 - i],
                ));
            }
            j = j + 1;
        }
        proof {
            if num_crates <= 0 {
                assert(other.spec_crates() =~= old(other).spec_crates());
                assert(self.spec_crates() =~= old(self).spec_crates());
            }
        }
    }

    /// Move `num_crates` crates from the top of `other` onto this stack as
    /// one held group, so they arrive in their original order.
    pub fn transfer_part2(&mut self, other: &mut CrateStack, num_crates: i32)
        requires
            num_crates <= old(other).spec_crates().len(),
        ensures
            num_crates <= 0 ==> (final(self).spec_crates() == old(self).spec_crates() && final(other).spec_crates() == old(other).spec_crates()),
            num_crates > 0 ==> {
                let m = old(other).spec_crates().len();
                &&& final(self).spec_crates() == old(self).spec_crates() + old(other).spec_crates().subrange(m - num_crates, m as int)
                &&& final(other).spec_crates() == old(other).spec_crates().subrange(
                    0,
                    m - num_crates,
                )
            },
    {
        let mut tmp_stack: CrateStack = CrateStack::new();
        tmp_stack.transfer(other, num_crates);
        self.transfer(&mut tmp_stack, num_crates);
        proof {
            if num_crates > 0 {
                let m = old(other).spec_crates().len();
                assert(self.spec_crates() =~= old(self).spec_crates() + old(other).spec_crates().subrange(m - num_crates, m as int));
            }
        }
    }

    /// Take the top crate; the stack must not be empty.
    pub fn pop(&mut self) -> (r: char)
        requires
            old(self).spec_crates().len() > 0,
        ensures
            r == old(self).spec_crates().last(),
            final(self).spec_crates() == old(self).spec_crates().drop_last(),
    {
        self.crates.pop().unwrap()
    }

    /// Put one crate on top.
    pub fn push(&mut self, new_element: char)
        ensures
            final(self).spec_crates() == old(self).spec_crates().push(new_element),
    {
        self.crates.push(new_element);
    }

    /// The top crate, if any.
    pub fn last(&self) -> (r: Option<&char>)
        ensures
            match r {
                Some(c) => self.spec_crates().len() > 0 && *c == self.spec_crates().last(),
                None => self.spec_crates().len() == 0,
            },
    {
        self.crates.last()
    }
}

} // verus!
