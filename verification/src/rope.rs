//! A rope of ten knots on a grid: the head is dragged one step at a time,
//! each knot follows the one before it, and the positions the last knot
//! visits are collected and counted.

use std::collections::HashMap;

use vstd::prelude::*;

verus! {

broadcast use vstd::std_specs::hash::group_hash_axioms;

/// One grid position.
#[derive(Hash, Copy, Clone)]
pub struct Point {
    x: i32,
    y: i32,
}

impl Point {
    pub closed spec fn spec_pos(&self) -> (int, int) {
        (self.x as int, self.y as int)
    }

    pub fn new(x: i32, y: i32) -> (r: Self)
        ensures
            r.spec_pos() == (x as int, y as int),
    {
        Self { x, y }
    }
}

/// A position packed into one word, for the visited table's key.
pub open spec fn enc(p: (int, int)) -> u64 {
    (((p.0 as i32) as u32 as u64) << 32) | ((p.1 as i32) as u32 as u64)
}

/// Equal packed words come from equal words' halves.
proof fn lemma_enc_halves(a: u32, b: u32, c: u32, d: u32)
    by (bit_vector)
    requires
        ((a as u64) << 32) | (b as u64) == ((c as u64) << 32) | (d as u64),
    ensures
        a == c,
        b == d,
{
}

/// Casting to a word keeps distinct coordinates distinct.
proof fn lemma_cast_injective(x1: i32, x2: i32)
    by (bit_vector)
    requires
        x1 as u32 == x2 as u32,
    ensures
        x1 == x2,
{
}

/// Packing positions into words is injective on in-range positions.
proof fn lemma_enc_injective(p: (int, int), q: (int, int))
    requires
        i32::MIN <= p.0 <= i32::MAX,
        i32::MIN <= p.1 <= i32::MAX,
        i32::MIN <= q.0 <= i32::MAX,
        i32::MIN <= q.1 <= i32::MAX,
        enc(p) == enc(q),
    ensures
        p == q,
{
    lemma_enc_halves((p.0 as i32) as u32, (p.1 as i32) as u32, (q.0 as i32) as u32, (q.1
        as i32) as u32);
    lemma_cast_injective(p.0 as i32, q.0 as i32);
    lemma_cast_injective(p.1 as i32, q.1 as i32);
}

/// A knot must follow its leader when they are no longer touching.
pub open spec fn needs_move(h: (int, int), t: (int, int)) -> bool {
    t.0 - h.0 > 1 || h.0 - t.0 > 1 || t.1 - h.1 > 1 || h.1 - t.1 > 1
}

/// Where a knot moves to: straight along a shared row or column, diagonally
/// toward its leader otherwise.
pub open spec fn moved(h: (int, int), t: (int, int)) -> (int, int) {
    if h.0 == t.0 {
        (t.0, if h.1 > t.1 {
            t.1 + 1
        } else {
            t.1 - 1
        })
    } else if h.1 == t.1 {
        (if h.0 > t.0 {
            t.0 + 1
        } else {
            t.0 - 1
        }, t.1)
    } else {
        (
            if h.0 < t.0 {
                t.0 - 1
            } else {
                t.0 + 1
            },
            if h.1 < t.1 {
                t.1 - 1
            } else {
                t.1 + 1
            },
        )
    }
}

/// The whole chain after the head has moved: each knot follows the knot
/// before it, in order.
pub open spec fn chain(leader: (int, int), tails: Seq<(int, int)>) -> Seq<(int, int)>
    decreases tails.len(),
{
    if tails.len() == 0 {
        Seq::empty()
    } else {
        let t0 = if needs_move(leader, tails[0]) {
            moved(leader, tails[0])
        } else {
            tails[0]
        };
        seq![t0] + chain(t0, tails.drop_first())
    }
}

/// Whether the chain's last knot moved.
pub open spec fn chain_last_moved(leader: (int, int), tails: Seq<(int, int)>) -> bool
    decreases tails.len(),
{
    if tails.len() == 0 {
        false
    } else if tails.len() == 1 {
        needs_move(leader, tails[0])
    } else {
        let t0 = if needs_move(leader, tails[0]) {
            moved(leader, tails[0])
        } else {
            tails[0]
        };
        chain_last_moved(t0, tails.drop_first())
    }
}

/// One head step: the head moves, the chain follows, and the last knot's
/// position joins the visited set if it moved.
pub open spec fn move_once(
    h: (int, int),
    tails: Seq<(int, int)>,
    visited: Set<(int, int)>,
    ax: int,
    ay: int,
) -> ((int, int), Seq<(int, int)>, Set<(int, int)>) {
    let h2 = (h.0 + ax, h.1 + ay);
    let ts = chain(h2, tails);
    let vis2 = if chain_last_moved(h2, tails) {
        visited.insert(ts.last())
    } else {
        visited
    };
    (h2, ts, vis2)
}

/// `k` head steps in the same direction.
pub open spec fn move_many(
    h: (int, int),
    tails: Seq<(int, int)>,
    visited: Set<(int, int)>,
    ax: int,
    ay: int,
    k: nat,
) -> ((int, int), Seq<(int, int)>, Set<(int, int)>)
    decreases k,
{
    if k == 0 {
        (h, tails, visited)
    } else {
        let st = move_many(h, tails, visited, ax, ay, (k - 1) as nat);
        move_once(st.0, st.1, st.2, ax, ay)
    }
}

/// Both coordinates within `m` of zero.
pub open spec fn pt_in_box(p: (int, int), m: int) -> bool {
    -m <= p.0 <= m && -m <= p.1 <= m
}

/// Every knot within `m` of zero.
pub open spec fn in_box(h: (int, int), tails: Seq<(int, int)>, m: int) -> bool {
    &&& pt_in_box(h, m)
    &&& forall|i: int| 0 <= i < tails.len() ==> pt_in_box(#[trigger] tails[i], m)
}

/// A chain is as long as the knots that follow.
proof fn lemma_chain_len(leader: (int, int), tails: Seq<(int, int)>)
    ensures
        chain(leader, tails).len() == tails.len(),
    decreases tails.len(),
{
    if tails.len() > 0 {
        let t0 = if needs_move(leader, tails[0]) {
            moved(leader, tails[0])
        } else {
            tails[0]
        };
        lemma_chain_len(t0, tails.drop_first());
    }
}

/// A knot following its leader stays inside any box that holds them both.
proof fn lemma_chain_box(leader: (int, int), tails: Seq<(int, int)>, m: int)
    requires
        pt_in_box(leader, m),
        forall|i: int| 0 <= i < tails.len() ==> pt_in_box(#[trigger] tails[i], m),
    ensures
        forall|i: int| 0 <= i < tails.len() ==> pt_in_box(#[trigger] chain(leader, tails)[i], m),
    decreases tails.len(),
{
    if tails.len() > 0 {
        let t0 = if needs_move(leader, tails[0]) {
            moved(leader, tails[0])
        } else {
            tails[0]
        };
        assert(pt_in_box(t0, m));
        assert(forall|i: int|
            0 <= i < tails.drop_first().len() ==> pt_in_box(#[trigger] tails.drop_first()[i], m));
        lemma_chain_box(t0, tails.drop_first(), m);
        lemma_chain_len(t0, tails.drop_first());
        assert(chain(leader, tails) == seq![t0] + chain(t0, tails.drop_first()));
        assert forall|i: int|
            0 <= i < tails.len() implies pt_in_box(#[trigger] chain(leader, tails)[i], m) by {
            if i > 0 {
                assert(chain(leader, tails)[i] == chain(t0, tails.drop_first())[i - 1]);
            }
        }
    }
}

/// The rope: the head, the nine trailing knots, and for each position the
/// last knot has rested on, how often it was reached.
pub struct Rope {
    head: Point,
    tails: Vec<Point>,
    tail_visited_points: HashMap<u64, u32>,
    visited: Ghost<Set<(int, int)>>,
}

impl Rope {
    pub closed spec fn spec_head(&self) -> (int, int) {
        self.head.spec_pos()
    }

    pub closed spec fn spec_tails(&self) -> Seq<(int, int)> {
        Seq::new(self.tails@.len(), |i: int| self.tails@[i].spec_pos())
    }

    /// The positions the last knot has rested on.
    pub closed spec fn spec_visited(&self) -> Set<(int, int)> {
        self.visited@
    }

    /// The knot chain is nine long, the visited table's keys are exactly the
    /// packed visited positions, and everything stays within the grid's
    /// coordinate type.
    pub closed spec fn wf(&self) -> bool {
        &&& self.tails@.len() == 9
        &&& self.visited@.finite()
        &&& forall|p: (int, int)|
            self.visited@.contains(p) ==> (i32::MIN <= p.0 <= i32::MAX && i32::MIN <= p.1
                <= i32::MAX)
        &&& forall|p: (int, int)|
            self.visited@.contains(p) ==> #[trigger] self.tail_visited_points@.contains_key(enc(p))
        &&& forall|k: u64|
            self.tail_visited_points@.contains_key(k) ==> exists|p: (int, int)|
                self.visited@.contains(p) && k == enc(p)
        &&& self.tail_visited_points@.dom().len() == self.visited@.len()
    }

    pub fn new() -> (r: Self)
        ensures
            r.wf(),
            r.spec_head() == (0int, 0int),
            r.spec_tails() =~= Seq::new(9, |i: int| (0int, 0int)),
            r.spec_visited() =~= set![(0int, 0int)],
    {
        let mut tail_visited_points: HashMap<u64, u32> = HashMap::new();
        let p0 = Point::new(0, 0);
        tail_visited_points.insert(0, 1);
        let tails = vec![
            Point::new(0, 0),
            Point::new(0, 0),
            Point::new(0, 0),
            Point::new(0, 0),
            Point::new(0, 0),
            Point::new(0, 0),
            Point::new(0, 0),
            Point::new(0, 0),
            Point::new(0, 0),
        ];
        let ghost vis0: Set<(int, int)> = set![(0int, 0int)];
        let r = Self { head: p0, tails, tail_visited_points, visited: Ghost(vis0) };
        proof {
            assert(((0u32 as u64) << 32) | (0u32 as u64) == 0u64) by (bit_vector);
            assert((0int as i32) as u32 == 0u32);
            assert(enc((0int, 0int)) == 0);
            assert(r.tail_visited_points@.dom() =~= set![0u64]);
            assert(r.visited@.len() == 1);
            assert(r.tail_visited_points@.dom().len() == 1);
        }
        r
    }

    fn does_follower_need_move(head: &Point, tail: &Point) -> (r: bool)
        ensures
            r == needs_move(head.spec_pos(), tail.spec_pos()),
    {
        let dx = tail.x as i64 - head.x as i64;
        let dy = tail.y as i64 - head.y as i64;
        dx > 1 || dx < -1 || dy > 1 || dy < -1
    }

    fn move_tail(head: &Point, tail: &mut Point)
        requires
            pt_in_box(old(tail).spec_pos(), i32::MAX - 1),
        ensures
            final(tail).spec_pos() == moved(head.spec_pos(), old(tail).spec_pos()),
    {
        if head.x == tail.x {
            if head.y > tail.y {
                tail.y = tail.y + 1;
            } else {
                tail.y = tail.y - 1;
            }
        } else if head.y == tail.y {
            if head.x > tail.x {
                tail.x = tail.x + 1;
            } else {
                tail.x = tail.x - 1;
            }
        } else {
            if head.x < tail.x {
                tail.x = tail.x - 1;
                if head.y < tail.y {
                    tail.y = tail.y - 1;
                } else {
                    tail.y = tail.y + 1;
                }
            } else {
                tail.x = tail.x + 1;
                if head.y < tail.y {
                    tail.y = tail.y - 1;
                } else {
                    tail.y = tail.y + 1;
                }
            }
        }
    }

    /// Drag the head one step and let the chain follow, recording the last
    /// knot's position when it moves.
    fn move_head(&mut self, amount_x: i32, amount_y: i32)
        requires
            old(self).wf(),
            -1 <= amount_x <= 1,
            -1 <= amount_y <= 1,
            in_box(old(self).spec_head(), old(self).spec_tails(), i32::MAX - 1),
        ensures
            final(self).wf(),
            (final(self).spec_head(), final(self).spec_tails(), final(self).spec_visited())
                == move_once(
                old(self).spec_head(),
                old(self).spec_tails(),
                old(self).spec_visited(),
                amount_x as int,
                amount_y as int,
            ),
            in_box(final(self).spec_head(), final(self).spec_tails(), i32::MAX as int),
    {
        let ghost h0 = old(self).spec_head();
        let ghost tails0 = old(self).spec_tails();
        let ghost vis0 = old(self).spec_visited();
        self.head.x = self.head.x + amount_x;
        self.head.y = self.head.y + amount_y;
        let ghost h2 = self.spec_head();
        proof {
            lemma_chain_box(h2, tails0, i32::MAX as int);
            lemma_chain_len(h2, tails0);
            assert(self.spec_tails() =~= tails0);
            assert(tails0.skip(0) =~= tails0);
            assert(self.spec_tails().subrange(0, 0) =~= Seq::<(int, int)>::empty());
            assert(Seq::<(int, int)>::empty() + chain(h2, tails0) =~= chain(h2, tails0));
        }
        let n = self.tails.len();
        let mut i: usize = 0;
        while i < n
            invariant
                n == 9,
                i <= n,
                self.tails@.len() == 9,
                self.head.spec_pos() == h2,
                h2 == (h0.0 + amount_x, h0.1 + amount_y),
                pt_in_box(h2, i32::MAX as int),
                forall|k: int|
                    0 <= k < tails0.len() ==> pt_in_box(#[trigger] tails0[k], i32::MAX - 1),
                forall|k: int|
                    0 <= k < 9 ==> pt_in_box(#[trigger] chain(h2, tails0)[k], i32::MAX as int),
                tails0.len() == 9,
                chain(h2, tails0).len() == 9,
                forall|k: int| i <= k < 9 ==> self.spec_tails()[k] == tails0[k],
                forall|k: int| 0 <= k < i ==> self.spec_tails()[k] == chain(h2, tails0)[k],
                chain(h2, tails0) == self.spec_tails().subrange(0, i as int) + chain(
                    (if i == 0 {
                        h2
                    } else {
                        self.spec_tails()[i - 1]
                    }),
                    tails0.skip(i as int),
                ),
                i < 9 ==> chain_last_moved(h2, tails0) == chain_last_moved(
                    (if i == 0 {
                        h2
                    } else {
                        self.spec_tails()[i - 1]
                    }),
                    tails0.skip(i as int),
                ),
                i < 9 ==> (self.tail_visited_points@ == old(self).tail_visited_points@
                    && self.visited@ == vis0),
                i == 9 ==> self.visited@ == (if chain_last_moved(h2, tails0) {
                    vis0.insert(chain(h2, tails0).last())
                } else {
                    vis0
                }),
                self.wf(),
            decreases n - i,
        {
            let ghost cur0 = self.spec_tails();
            let ghost leader_g = if i == 0 {
                h2
            } else {
                cur0[i - 1]
            };
            let ghost rest = tails0.skip(i as int);
            let ghost t0v = if needs_move(leader_g, rest[0]) {
                moved(leader_g, rest[0])
            } else {
                rest[0]
            };
            proof {
                lemma_chain_len(leader_g, rest);
                assert(rest[0] == tails0[i as int]);
                assert(rest.len() == 9 - i);
                assert(chain(leader_g, rest) == seq![t0v] + chain(t0v, rest.drop_first()));
                assert(cur0.subrange(0, i as int).len() == i);
                assert(chain(h2, tails0)[i as int] == t0v);
            }
            let leader = if i == 0 {
                self.head
            } else {
                self.tails[i - 1]
            };
            proof {
                assert(leader.spec_pos() == leader_g);
            }
            let ti = self.tails[i];
            if Self::does_follower_need_move(&leader, &ti) {
                let mut t = ti;
                proof {
                    assert(pt_in_box(tails0[i as int], i32::MAX - 1));
                }
                Self::move_tail(&leader, &mut t);
                self.tails.set(i, t);
                proof {
                    assert(self.spec_tails()[i as int] == t0v);
                }
                if i == n - 1 {
                    proof {
                        assert(t0v == chain(h2, tails0)[8]);
                        assert(pt_in_box(t0v, i32::MAX as int));
                    }
                    let key: u64 = (((t.x as u32) as u64) << 32) | ((t.y as u32) as u64);
                    proof {
                        assert(key == enc(t0v));
                    }
                    let count = match self.tail_visited_points.get(&key) {
                        Option::None => 1,
                        Option::Some(v) => {
                            if *v < u32::MAX {
                                *v + 1
                            } else {
                                *v
                            }
                        },
                    };
                    self.tail_visited_points.insert(key, count);
                    proof {
                        let p = t0v;
                        let newvis = vis0.insert(p);
                        self.visited@ = newvis;
                        assert forall|q: (int, int)| newvis.contains(q) implies #[trigger] self
                            .tail_visited_points@.contains_key(enc(q)) by {
                            if q != p {
                                assert(vis0.contains(q));
                            }
                        }
                        assert forall|k: u64|
                            self.tail_visited_points@.contains_key(k) implies exists|q: (int, int)|
                            newvis.contains(q) && k == enc(q) by {
                            if k != key {
                                assert(old(self).tail_visited_points@.contains_key(k));
                                let q = choose|q: (int, int)| vis0.contains(q) && k == enc(q);
                                assert(newvis.contains(q) && k == enc(q));
                            } else {
                                assert(newvis.contains(p) && k == enc(p));
                            }
                        }
                        if vis0.contains(p) {
                            assert(old(self).tail_visited_points@.contains_key(key));
                            assert(self.tail_visited_points@.dom() =~= old(
                                self,
                            ).tail_visited_points@.dom());
                            assert(newvis =~= vis0);
                        } else {
                            if old(self).tail_visited_points@.contains_key(key) {
                                let q = choose|q: (int, int)| vis0.contains(q) && key == enc(q);
                                lemma_enc_injective(p, q);
                                assert(false);
                            }
                            assert(self.tail_visited_points@.dom() =~= old(
                                self,
                            ).tail_visited_points@.dom().insert(key));
                            assert(newvis.len() == vis0.len() + 1);
                        }
                        assert(chain(h2, tails0).last() == p);
                    }
                }
            } else {
                proof {
                    assert(t0v == rest[0]);
                    assert(self.spec_tails()[i as int] == t0v);
                    if i == n - 1 {
                        assert(!chain_last_moved(h2, tails0));
                    }
                }
            }
            proof {
                assert(self.spec_tails()[i as int] == t0v);
                assert(forall|k: int| i + 1 <= k < 9 ==> self.spec_tails()[k] == tails0[k]);
                assert(forall|k: int|
                    0 <= k < i ==> self.spec_tails()[k] == cur0[k] && self.spec_tails()[k] == chain(
                        h2,
                        tails0,
                    )[k]);
                assert(rest.drop_first() =~= tails0.skip(i + 1));
                assert(self.spec_tails().subrange(0, i + 1) =~= cur0.subrange(0, i as int).push(
                    t0v,
                ));
                assert(cur0.subrange(0, i as int) =~= self.spec_tails().subrange(0, i as int));
                assert(chain(h2, tails0) =~= self.spec_tails().subrange(0, i + 1) + chain(
                    t0v,
                    tails0.skip(i + 1),
                ));
                if i + 1 < 9 {
                    assert(chain_last_moved(leader_g, rest) == chain_last_moved(
                        t0v,
                        rest.drop_first(),
                    ));
                }
            }
            i = i + 1;
        }
        proof {
            assert(self.spec_tails() =~= chain(h2, tails0));
        }
    }

    /// Drag the head `distance` steps upward.
    pub fn up(&mut self, distance: i32)
        requires
            old(self).wf(),
            distance > 0 ==> in_box(
                old(self).spec_head(),
                old(self).spec_tails(),
                i32::MAX - distance,
            ),
        ensures
            final(self).wf(),
            (final(self).spec_head(), final(self).spec_tails(), final(self).spec_visited())
                == move_many(
                old(self).spec_head(),
                old(self).spec_tails(),
                old(self).spec_visited(),
                0,
                1,
                (if distance > 0 {
                    distance as nat
                } else {
                    0nat
                }),
            ),
    {
        self.walk(0, 1, distance);
    }

    /// Drag the head `distance` steps downward.
    pub fn down(&mut self, distance: i32)
        requires
            old(self).wf(),
            distance > 0 ==> in_box(
                old(self).spec_head(),
                old(self).spec_tails(),
                i32::MAX - distance,
            ),
        ensures
            final(self).wf(),
            (final(self).spec_head(), final(self).spec_tails(), final(self).spec_visited())
                == move_many(
                old(self).spec_head(),
                old(self).spec_tails(),
                old(self).spec_visited(),
                0,
                -1,
                (if distance > 0 {
                    distance as nat
                } else {
                    0nat
                }),
            ),
    {
        self.walk(0, -1, distance);
    }

    /// Drag the head `distance` steps to the left.
    pub fn left(&mut self, distance: i32)
        requires
            old(self).wf(),
            distance > 0 ==> in_box(
                old(self).spec_head(),
                old(self).spec_tails(),
                i32::MAX - distance,
            ),
        ensures
            final(self).wf(),
            (final(self).spec_head(), final(self).spec_tails(), final(self).spec_visited())
                == move_many(
                old(self).spec_head(),
                old(self).spec_tails(),
                old(self).spec_visited(),
                -1,
                0,
                (if distance > 0 {
                    distance as nat
                } else {
                    0nat
                }),
            ),
    {
        self.walk(-1, 0, distance);
    }

    /// Drag the head `distance` steps to the right.
    pub fn right(&mut self, distance: i32)
        requires
            old(self).wf(),
            distance > 0 ==> in_box(
                old(self).spec_head(),
                old(self).spec_tails(),
                i32::MAX - distance,
            ),
        ensures
            final(self).wf(),
            (final(self).spec_head(), final(self).spec_tails(), final(self).spec_visited())
                == move_many(
                old(self).spec_head(),
                old(self).spec_tails(),
                old(self).spec_visited(),
                1,
                0,
                (if distance > 0 {
                    distance as nat
                } else {
                    0nat
                }),
            ),
    {
        self.walk(1, 0, distance);
    }

    /// Drag the head `distance` steps in one direction.
    fn walk(&mut self, ax: i32, ay: i32, distance: i32)
        requires
            old(self).wf(),
            -1 <= ax <= 1,
            -1 <= ay <= 1,
            distance > 0 ==> in_box(
                old(self).spec_head(),
                old(self).spec_tails(),
                i32::MAX - distance,
            ),
        ensures
            final(self).wf(),
            (final(self).spec_head(), final(self).spec_tails(), final(self).spec_visited())
                == move_many(
                old(self).spec_head(),
                old(self).spec_tails(),
                old(self).spec_visited(),
                ax as int,
                ay as int,
                (if distance > 0 {
                    distance as nat
                } else {
                    0nat
                }),
            ),
    {
        if distance <= 0 {
            return ;
        }
        let mut j: i32 = 0;
        while j < distance
            invariant
                self.wf(),
                -1 <= ax <= 1,
                -1 <= ay <= 1,
                0 < distance,
                0 <= j <= distance,
                (self.spec_head(), self.spec_tails(), self.spec_visited()) == move_many(
                    old(self).spec_head(),
                    old(self).spec_tails(),
                    old(self).spec_visited(),
                    ax as int,
                    ay as int,
                    j as nat,
                ),
                in_box(self.spec_head(), self.spec_tails(), i32::MAX - distance + j),
            decreases distance - j,
        {
            let ghost hb = self.spec_head();
            let ghost tb = self.spec_tails();
            let ghost m = i32::MAX - distance + j;
            proof {
                lemma_box_mono(hb, tb, m, i32::MAX - 1);
            }
            self.move_head(ax, ay);
            proof {
                assert forall|k: int| 0 <= k < tb.len() implies pt_in_box(#[trigger] tb[k], m + 1) by {
                    assert(pt_in_box(tb[k], m));
                }
                lemma_chain_box(self.spec_head(), tb, m + 1);
                assert(in_box(self.spec_head(), self.spec_tails(), m + 1));
            }
            j = j + 1;
        }
    }

    /// How many distinct positions the last knot has rested on.
    pub fn get_num_tail_visited(&self) -> (r: usize)
        requires
            self.wf(),
        ensures
            r == self.spec_visited().len(),
    {
        self.tail_visited_points.len()
    }
}

/// A box bound only loosens as it grows.
proof fn lemma_box_mono(h: (int, int), tails: Seq<(int, int)>, m1: int, m2: int)
    requires
        in_box(h, tails, m1),
        m1 <= m2,
    ensures
        in_box(h, tails, m2),
{
    assert forall|i: int| 0 <= i < tails.len() implies pt_in_box(#[trigger] tails[i], m2) by {
        assert(pt_in_box(tails[i], m1));
    }
}

} // verus!
