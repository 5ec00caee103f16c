//! Mixing an encrypted list: each value, in original order, moves through a
//! circular list by its own amount; the grove coordinates are read off
//! relative to the zero entry.  Entries are held in an arena: values by
//! entry id, the circle as a list of ids, and each id's current position.

use vstd::prelude::*;

use crate::parsing::{int_str_val, is_int_str, parse_i64};

verus! {

/// The decryption key every parsed value is multiplied by.
pub const KEY: i64 = 811589153;

/// The position of an entry id in the circle.
pub open spec fn pos_of(list: Seq<usize>, id: usize) -> int {
    choose|j: int| 0 <= j < list.len() && list[j] == id
}

/// A remainder normalized into `[0, m)`.
pub open spec fn euclid_mod(a: int, m: int) -> int {
    ((a % m) + m) % m
}

/// One entry's move: take it out, step it by its value around the other
/// `len - 1` places, and put it back.
pub open spec fn mix_step(list: Seq<usize>, values: Seq<i64>, id: usize) -> Seq<usize> {
    let old_i = pos_of(list, id);
    let new_i = euclid_mod(old_i + values[id as int], list.len() - 1);
    list.remove(old_i).insert(new_i, id)
}

/// The circle after the first `k` entries have moved, in id order.
pub open spec fn mix_upto(list: Seq<usize>, values: Seq<i64>, k: nat) -> Seq<usize>
    decreases k,
{
    if k == 0 {
        list
    } else {
        mix_step(mix_upto(list, values, (k - 1) as nat), values, (k - 1) as usize)
    }
}

/// The circle after `r` whole rounds of mixing.
pub open spec fn mix_rounds(list: Seq<usize>, values: Seq<i64>, r: nat) -> Seq<usize>
    decreases r,
{
    if r == 0 {
        list
    } else {
        mix_upto(mix_rounds(list, values, (r - 1) as nat), values, values.len())
    }
}

/// The first circle position holding the zero value, or the length if none.
pub open spec fn first_zero(list: Seq<usize>, values: Seq<i64>, j: int) -> int
    decreases list.len() - j,
{
    if j < 0 || j >= list.len() {
        list.len() as int
    } else if values[list[j] as int] == 0 {
        j
    } else {
        first_zero(list, values, j + 1)
    }
}

/// The grove coordinates: the values one, two and three thousand places
/// after the zero entry, summed.
pub open spec fn spec_score(list: Seq<usize>, values: Seq<i64>) -> int {
    let n = list.len() as int;
    let p0 = first_zero(list, values, 0);
    values[list[(p0 + 1000) % n] as int] + values[list[(p0 + 2000) % n] as int]
        + values[list[(p0 + 3000) % n] as int]
}

/// The encrypted file: values by entry id, the circle of ids, and each id's
/// position in it.
pub struct Puzzle {
    order: Vec<i64>,
    list: Vec<usize>,
    pos: Vec<usize>,
}

impl Puzzle {
    /// The values, by entry id, already multiplied by the key.
    pub closed spec fn spec_values(&self) -> Seq<i64> {
        self.order@
    }

    /// The circle of entry ids, in current order.
    pub closed spec fn spec_list(&self) -> Seq<usize> {
        self.list@
    }

    /// The three vectors agree: `pos` and `list` are inverse bijections.
    pub closed spec fn wf(&self) -> bool {
        let n = self.order@.len();
        &&& self.list@.len() == n
        &&& self.pos@.len() == n
        &&& forall|j: int| 0 <= j < n ==> (#[trigger] self.list@[j]) < n
        &&& forall|j: int| 0 <= j < n ==> (#[trigger] self.pos@[j]) < n
        &&& forall|j: int| 0 <= j < n ==> self.pos@[self.list@[j] as int] == j
        &&& forall|q: int| 0 <= q < n ==> self.list@[self.pos@[q] as int] == q
    }

    pub fn new() -> (r: Puzzle)
        ensures
            r.wf(),
            r.spec_values() == Seq::<i64>::empty(),
            r.spec_list() == Seq::<usize>::empty(),
    {
        Self { order: Vec::new(), list: Vec::new(), pos: Vec::new() }
    }

    /// Parse one value, scale it by the key, and append it to the circle.
    pub fn add_line(&mut self, line: &str)
        requires
            old(self).wf(),
            is_int_str(line@),
            i64::MIN <= int_str_val(line@) <= i64::MAX,
            i64::MIN <= int_str_val(line@) * (KEY as int) <= i64::MAX,
        ensures
            final(self).wf(),
            final(self).spec_values() == old(self).spec_values().push(
                (int_str_val(line@) * (KEY as int)) as i64,
            ),
            final(self).spec_list() == old(self).spec_list().push(old(self).spec_values().len() as usize),
    {
        let index = self.order.len();
        let value: i64 = parse_i64(line).unwrap();
        let scaled = value * KEY;
        self.order.push(scaled);
        self.list.push(index);
        self.pos.push(index);
        proof {
            let n = self.order@.len();
            assert forall|j: int| 0 <= j < n implies self.pos@[self.list@[j] as int] == j by {
                if j < n - 1 {
                    assert(old(self).pos@[old(self).list@[j] as int] == j);
                }
            }
            assert forall|q: int| 0 <= q < n implies self.list@[self.pos@[q] as int] == q by {
                if q < n - 1 {
                    assert(old(self).list@[old(self).pos@[q] as int] == q);
                }
            }
        }
    }

    /// Move every entry once, in id order.
    fn mix(&mut self)
        requires
            old(self).wf(),
            old(self).spec_values().len() >= 2,
            old(self).spec_values().len() <= 0x1000_0000,
            forall|id: int|
                0 <= id < old(self).spec_values().len() ==> -0x1000_0000_0000_0000 <= (
                #[trigger] old(self).spec_values()[id]) <= 0x1000_0000_0000_0000,
        ensures
            final(self).wf(),
            final(self).spec_values() == old(self).spec_values(),
            final(self).spec_list() == mix_upto(
                old(self).spec_list(),
                old(self).spec_values(),
                old(self).spec_values().len() as nat,
            ),
    {
        let n = self.order.len();
        let mut id: usize = 0;
        while id < n
            invariant
                self.wf(),
                n == self.order@.len(),
                n >= 2,
                n <= 0x1000_0000,
                id <= n,
                self.spec_values() == old(self).spec_values(),
                forall|q: int|
                    0 <= q < n ==> -0x1000_0000_0000_0000 <= (#[trigger] self.spec_values()[q])
                        <= 0x1000_0000_0000_0000,
                self.spec_list() == mix_upto(old(self).spec_list(), old(self).spec_values(), id as nat),
            decreases n - id,
        {
            let ghost l0 = self.list@;
            let ghost p0 = self.pos@;
            let old_i = self.pos[id];
            let v = self.order[id];
            let m = (n - 1) as i64;
            let vr: i64 = if v >= 0 {
                v % m
            } else {
                let t = (-v) % m;
                if t == 0 {
                    0
                } else {
                    m - t
                }
            };
            proof {
                lemma_reduced_offset(v as int, m as int, vr as int);
            }
            let idx = old_i as i64 + vr;
            let new_i64 = if idx >= m {
                idx - m
            } else {
                idx
            };
            let new_i = new_i64 as usize;
            proof {
                assert(l0[old_i as int] == id);
                assert(0 <= new_i64 < m);
                lemma_shift_mod(old_i as int, v as int, vr as int, new_i64 as int, m as int);
                assert(new_i as int == euclid_mod(old_i as int + v as int, n - 1));
                assert(pos_of(l0, id) == old_i as int) by {
                    assert(0 <= old_i < l0.len() && l0[old_i as int] == id);
                    let j = pos_of(l0, id);
                    assert(0 <= j < l0.len() && l0[j] == id);
                    assert(p0[l0[j] as int] == j);
                }
            }
            if new_i < old_i {
                let mut j: usize = new_i;
                while j < old_i
                    invariant
                        self.wf_shifted_down(l0, p0, new_i as int, old_i as int, j as int),
                        new_i <= j <= old_i,
                        old_i < self.list@.len(),
                        self.list@ == l0,
                        self.order@ == old(self).order@,
                    decreases old_i - j,
                {
                    let q = self.list[j];
                    proof {
                        assert(p0[l0[j as int] as int] == j);
                        assert(self.pos@[q as int] == j);
                    }
                    let pq = self.pos[q];
                    self.pos.set(q, pq + 1);
                    j = j + 1;
                }
            } else if old_i < new_i {
                let mut j: usize = old_i + 1;
                while j <= new_i
                    invariant
                        self.wf_shifted_up(l0, p0, old_i as int, new_i as int, j as int),
                        new_i <= 0x1000_0000,
                        old_i + 1 <= j <= new_i + 1,
                        new_i < self.list@.len(),
                        self.list@ == l0,
                        self.order@ == old(self).order@,
                    decreases new_i + 1 - j,
                {
                    let q = self.list[j];
                    proof {
                        assert(p0[l0[j as int] as int] == j);
                        assert(self.pos@[q as int] == j);
                    }
                    let pq = self.pos[q];
                    self.pos.set(q, pq - 1);
                    j = j + 1;
                }
            }
            let to_move = self.list.remove(old_i);
            self.pos.set(id, new_i);
            self.list.insert(new_i, to_move);
            proof {
                self.lemma_move_ok(l0, p0, id, old_i as int, new_i as int);
                assert(self.list@ == mix_step(l0, old(self).order@, id));
            }
            id = id + 1;
        }
    }

    /// The `pos` table during a downward move: positions in `[new_i, j)` have
    /// been shifted up by one.
    spec fn wf_shifted_down(
        &self,
        l0: Seq<usize>,
        p0: Seq<usize>,
        new_i: int,
        old_i: int,
        j: int,
    ) -> bool {
        let n = l0.len() as int;
        &&& self.list@ == l0
        &&& self.pos@.len() == n
        &&& self.order@.len() == n
        &&& 0 <= new_i <= j <= old_i < n
        &&& forall|j2: int| 0 <= j2 < n ==> (#[trigger] l0[j2]) < n
        &&& forall|q: int| 0 <= q < n ==> (#[trigger] p0[q]) < n
        &&& forall|j2: int| 0 <= j2 < n ==> p0[l0[j2] as int] == j2
        &&& forall|q: int| 0 <= q < n ==> l0[p0[q] as int] == q
        &&& forall|q: int|
            0 <= q < n ==> (#[trigger] self.pos@[q]) as int == (if new_i <= p0[q] < j {
                p0[q] + 1
            } else {
                p0[q] as int
            })
    }

    /// The `pos` table during an upward move: positions in `[old_i + 1, j)`
    /// have been shifted down by one.
    spec fn wf_shifted_up(
        &self,
        l0: Seq<usize>,
        p0: Seq<usize>,
        old_i: int,
        new_i: int,
        j: int,
    ) -> bool {
        let n = l0.len() as int;
        &&& self.list@ == l0
        &&& self.pos@.len() == n
        &&& self.order@.len() == n
        &&& 0 <= old_i < new_i < n
        &&& old_i + 1 <= j <= new_i + 1
        &&& forall|j2: int| 0 <= j2 < n ==> (#[trigger] l0[j2]) < n
        &&& forall|q: int| 0 <= q < n ==> (#[trigger] p0[q]) < n
        &&& forall|j2: int| 0 <= j2 < n ==> p0[l0[j2] as int] == j2
        &&& forall|q: int| 0 <= q < n ==> l0[p0[q] as int] == q
        &&& forall|q: int|
            0 <= q < n ==> (#[trigger] self.pos@[q]) as int == (if old_i + 1 <= p0[q] < j {
                p0[q] - 1
            } else {
                p0[q] as int
            })
    }

    /// After the shifts, the removal and the insertion, the tables are a
    /// bijection again and the circle is exactly the specified step.
    proof fn lemma_move_ok(
        &self,
        l0: Seq<usize>,
        p0: Seq<usize>,
        id: usize,
        old_i: int,
        new_i: int,
    )
        requires
            ({
                let n = l0.len() as int;
                &&& 0 <= old_i < n
                &&& 0 <= new_i < n
                &&& (id as int) < n
                &&& l0[old_i] == id
                &&& p0[id as int] == old_i
                &&& forall|j2: int| 0 <= j2 < n ==> (#[trigger] l0[j2]) < n
                &&& forall|q: int| 0 <= q < n ==> (#[trigger] p0[q]) < n
                &&& forall|j2: int| 0 <= j2 < n ==> p0[l0[j2] as int] == j2
                &&& forall|q: int| 0 <= q < n ==> l0[p0[q] as int] == q
                &&& self.list@ == l0.remove(old_i).insert(new_i, id)
                &&& self.pos@.len() == n
                &&& self.order@.len() == n
                &&& forall|q: int|
                    0 <= q < n && q != id ==> (#[trigger] self.pos@[q]) as int == (if new_i
                        <= p0[q] < old_i {
                        p0[q] + 1
                    } else if old_i < p0[q] <= new_i {
                        p0[q] - 1
                    } else {
                        p0[q] as int
                    })
                &&& self.pos@[id as int] == new_i
            }),
        ensures
            self.wf(),
    {
        let n = l0.len() as int;
        let l2 = self.list@;
        assert(l2.len() == n);
        assert forall|j: int| 0 <= j < n implies (#[trigger] l2[j]) < n && self.pos@[l2[j] as int]
            == j by {
            let l1 = l0.remove(old_i);
            if j == new_i {
                assert(l2[j] == id);
            } else if j < new_i {
                assert(l2[j] == l1[j]);
                if j < old_i {
                    assert(l1[j] == l0[j]);
                } else {
                    assert(l1[j] == l0[j + 1]);
                }
            } else {
                assert(l2[j] == l1[j - 1]);
                if j - 1 < old_i {
                    assert(l1[j - 1] == l0[j - 1]);
                } else {
                    assert(l1[j - 1] == l0[j]);
                }
            }
        }
        assert forall|q: int| 0 <= q < n implies (#[trigger] self.pos@[q]) < n && l2[self.pos@[q] as int]
            == q by {
            let l1 = l0.remove(old_i);
            if q == id {
                assert(l2[new_i] == id);
            } else {
                let j0 = p0[q] as int;
                assert(l0[j0] == q);
                assert(j0 != old_i);
                if new_i <= j0 < old_i {
                    assert(self.pos@[q] as int == j0 + 1);
                    assert(l1[j0] == l0[j0]);
                    assert(l2[j0 + 1] == l1[j0]);
                } else if old_i < j0 <= new_i {
                    assert(self.pos@[q] as int == j0 - 1);
                    assert(l1[j0 - 1] == l0[j0]);
                    assert(l2[j0 - 1] == l1[j0 - 1]);
                } else if j0 < new_i && j0 < old_i {
                    assert(self.pos@[q] as int == j0);
                    assert(l1[j0] == l0[j0]);
                    assert(l2[j0] == l1[j0]);
                } else {
                    assert(j0 > new_i && j0 > old_i);
                    assert(self.pos@[q] as int == j0);
                    assert(l1[j0 - 1] == l0[j0]);
                    assert(l2[j0] == l1[j0 - 1]);
                }
            }
        }
    }

    /// The circle's current score is read without mixing.
    fn score(&self) -> (r: i64)
        requires
            self.wf(),
            self.spec_values().len() >= 1,
            self.spec_values().len() <= 0x1000_0000,
            exists|j: int|
                0 <= j < self.spec_list().len() && self.spec_values()[self.spec_list()[j] as int]
                    == 0,
            forall|id: int|
                0 <= id < self.spec_values().len() ==> -0x1000_0000_0000_0000 <= (
                #[trigger] self.spec_values()[id]) <= 0x1000_0000_0000_0000,
        ensures
            r == spec_score(self.spec_list(), self.spec_values()),
    {
        let n = self.list.len();
        let mut pos0: usize = 0;
        while pos0 < n
            invariant
                self.wf(),
                n == self.spec_list().len(),
                pos0 <= n,
                exists|j: int|
                    0 <= j < n && self.spec_values()[self.spec_list()[j] as int] == 0,
                first_zero(self.spec_list(), self.spec_values(), 0) == first_zero(
                    self.spec_list(),
                    self.spec_values(),
                    pos0 as int,
                ),
            ensures
                pos0 as int == first_zero(self.spec_list(), self.spec_values(), 0),
                pos0 <= n,
            decreases n - pos0,
        {
            if self.order[self.list[pos0]] == 0 {
                break ;
            }
            pos0 = pos0 + 1;
        }
        proof {
            if pos0 == n {
                let j = choose|j: int|
                    0 <= j < n && self.spec_values()[self.spec_list()[j] as int] == 0;
                lemma_first_zero_finds(self.spec_list(), self.spec_values(), n as int, j);
                assert(false);
            }
        }
        let i1 = (pos0 + 1000) % n;
        let i2 = (pos0 + 2000) % n;
        let i3 = (pos0 + 3000) % n;
        self.order[self.list[i1]] + self.order[self.list[i2]] + self.order[self.list[i3]]
    }

    /// The first part of the puzzle is not asked of this file.
    pub fn pt_1(&mut self) -> (r: i32)
        ensures
            r == 0,
    {
        0
    }

    /// Mix the whole file ten times and read off the grove coordinates.
    pub fn pt_2(&mut self) -> (r: i64)
        requires
            old(self).wf(),
            old(self).spec_values().len() >= 2,
            old(self).spec_values().len() <= 0x1000_0000,
            forall|id: int|
                0 <= id < old(self).spec_values().len() ==> -0x1000_0000_0000_0000 <= (
                #[trigger] old(self).spec_values()[id]) <= 0x1000_0000_0000_0000,
            exists|id: int|
                0 <= id < old(self).spec_values().len() && old(self).spec_values()[id] == 0,
        ensures
            final(self).wf(),
            final(self).spec_values() == old(self).spec_values(),
            final(self).spec_list() == mix_rounds(old(self).spec_list(), old(self).spec_values(), 10),
            r == spec_score(final(self).spec_list(), final(self).spec_values()),
    {
        let mut round: usize = 0;
        while round < 10
            invariant
                self.wf(),
                round <= 10,
                self.spec_values() == old(self).spec_values(),
                self.spec_values().len() >= 2,
                self.spec_values().len() <= 0x1000_0000,
                forall|id: int|
                    0 <= id < self.spec_values().len() ==> -0x1000_0000_0000_0000 <= (
                    #[trigger] self.spec_values()[id]) <= 0x1000_0000_0000_0000,
                self.spec_list() == mix_rounds(
                    old(self).spec_list(),
                    old(self).spec_values(),
                    round as nat,
                ),
            decreases 10 - round,
        {
            self.mix();
            round = round + 1;
        }
        proof {
            let id = choose|id: int|
                0 <= id < self.spec_values().len() && self.spec_values()[id] == 0;
            let j = self.pos@[id] as int;
            assert(self.spec_list()[j] == id);
        }
        self.score()
    }
}

/// The reduced offset is congruent to the raw offset and lies in `[0, m)`.
proof fn lemma_reduced_offset(v: int, m: int, vr: int)
    requires
        m >= 1,
        vr == (if v >= 0 {
            v % m
        } else {
            let t = (-v) % m;
            if t == 0 {
                0int
            } else {
                m - t
            }
        }),
    ensures
        0 <= vr < m,
        (v - vr) % m == 0,
{
    vstd::arithmetic::div_mod::lemma_mod_bound(v, m);
    vstd::arithmetic::div_mod::lemma_mod_bound(-v, m);
    vstd::arithmetic::div_mod::lemma_fundamental_div_mod(v, m);
    vstd::arithmetic::div_mod::lemma_fundamental_div_mod(-v, m);
    if v >= 0 {
        assert(v - vr == m * (v / m));
        vstd::arithmetic::div_mod::lemma_mod_multiples_basic(v / m, m);
    } else {
        let t = (-v) % m;
        if t == 0 {
            assert(v == m * (-((-v) / m))) by (nonlinear_arith)
                requires
                    -v == m * ((-v) / m),
            ;
            vstd::arithmetic::div_mod::lemma_mod_multiples_basic(-((-v) / m), m);
        } else {
            assert(v - vr == m * (-((-v) / m) - 1)) by (nonlinear_arith)
                requires
                    -v == m * ((-v) / m) + t,
                    vr == m - t,
            ;
            vstd::arithmetic::div_mod::lemma_mod_multiples_basic(-((-v) / m) - 1, m);
        }
    }
}

/// Stepping a position by a congruent reduced offset, then wrapping once,
/// lands on the normalized remainder of the raw step.
proof fn lemma_shift_mod(old_i: int, v: int, vr: int, new_i: int, m: int)
    requires
        m >= 1,
        0 <= old_i <= m,
        0 <= vr < m,
        (v - vr) % m == 0,
        new_i == (if old_i + vr >= m {
            old_i + vr - m
        } else {
            old_i + vr
        }),
    ensures
        new_i == euclid_mod(old_i + v, m),
{
    vstd::arithmetic::div_mod::lemma_fundamental_div_mod(v - vr, m);
    let k = (v - vr) / m;
    assert(v == vr + m * k);
    assert(old_i + v == (old_i + vr) + m * k);
    vstd::arithmetic::div_mod::lemma_mod_multiples_vanish(k, old_i + vr, m);
    assert((old_i + v) % m == (old_i + vr) % m);
    if old_i + vr >= m {
        assert(old_i + vr - m < m);
        vstd::arithmetic::div_mod::lemma_mod_multiples_vanish(1, old_i + vr - m, m);
        vstd::arithmetic::div_mod::lemma_small_mod((old_i + vr - m) as nat, m as nat);
    } else {
        vstd::arithmetic::div_mod::lemma_small_mod((old_i + vr) as nat, m as nat);
    }
    assert((old_i + v) % m == new_i);
    vstd::arithmetic::div_mod::lemma_small_mod(new_i as nat, m as nat);
    vstd::arithmetic::div_mod::lemma_mod_multiples_vanish(1, new_i, m);
}

/// Scanning from the start cannot pass a zero entry.
proof fn lemma_first_zero_finds(list: Seq<usize>, values: Seq<i64>, stop: int, j: int)
    requires
        0 <= j < list.len(),
        values[list[j] as int] == 0,
        stop > j,
    ensures
        first_zero(list, values, 0) < list.len(),
{
    lemma_first_zero_step(list, values, 0, j);
}

/// If a zero entry sits at or after `from`, the scan from `from` stops at or
/// before it.
proof fn lemma_first_zero_step(list: Seq<usize>, values: Seq<i64>, from: int, j: int)
    requires
        0 <= from <= j < list.len(),
        values[list[j] as int] == 0,
    ensures
        first_zero(list, values, from) <= j,
    decreases j - from,
{
    if from < j && values[list[from] as int] != 0 {
        lemma_first_zero_step(list, values, from + 1, j);
    }
}

} // verus!
