//! A network of sensors, each locked onto its nearest beacon: within a
//! sensor's beacon distance no other beacon can sit, so whole stretches of a
//! row can be ruled out as beacon positions.

use std::collections::{HashMap, HashSet};
use std::ops::RangeInclusive;

use vstd::prelude::*;

verus! {

broadcast use vstd::std_specs::hash::group_hash_axioms;

/// One grid position.
#[derive(Debug, Hash, Copy, Clone)]
pub struct Point {
    x: i32,
    y: i32,
}

/// The taxicab distance between two positions.
pub open spec fn manhattan(ax: int, ay: int, bx: int, by: int) -> int {
    (if ax >= bx {
        ax - bx
    } else {
        bx - ax
    }) + (if ay >= by {
        ay - by
    } else {
        by - ay
    })
}

/// A position packed into one word, for the beacon table's key.
pub open spec fn enc(x: int, y: int) -> u64 {
    (((x as i32) as u32 as u64) << 32) | ((y as i32) as u32 as u64)
}

impl Point {
    pub closed spec fn spec_x(&self) -> int {
        self.x as int
    }

    pub closed spec fn spec_y(&self) -> int {
        self.y as int
    }

    pub fn new(x: i32, y: i32) -> (r: Self)
        ensures
            r.spec_x() == x,
            r.spec_y() == y,
    {
        Self { x, y }
    }

    /// The taxicab distance to another position.
    pub fn distance(&self, other: &Self) -> (r: i32)
        requires
            manhattan(self.spec_x(), self.spec_y(), other.spec_x(), other.spec_y()) <= i32::MAX,
        ensures
            r == manhattan(self.spec_x(), self.spec_y(), other.spec_x(), other.spec_y()),
    {
        let dx = if self.x >= other.x {
            self.x as i64 - other.x as i64
        } else {
            other.x as i64 - self.x as i64
        };
        let dy = if self.y >= other.y {
            self.y as i64 - other.y as i64
        } else {
            other.y as i64 - self.y as i64
        };
        (dx + dy) as i32
    }
}

/// Relies on RangeInclusive::start: it returns the range's lower bound.
#[verifier::external_body]
fn range_start(r: &RangeInclusive<i32>) -> (s: i32)
    ensures
        s == r@.start,
{
    *r.start()
}

/// Relies on RangeInclusive::end: it returns the range's upper bound.
#[verifier::external_body]
fn range_end(r: &RangeInclusive<i32>) -> (e: i32)
    ensures
        e == r@.end,
{
    *r.end()
}

/// One sensor and the beacon it locked onto.
#[derive(Debug)]
pub struct Sensor {
    pt: Point,
    nearest_beacon: Point,
    distance: i32,
}

impl Sensor {
    pub closed spec fn spec_pt(&self) -> (int, int) {
        (self.pt.spec_x(), self.pt.spec_y())
    }

    pub closed spec fn spec_beacon(&self) -> (int, int) {
        (self.nearest_beacon.spec_x(), self.nearest_beacon.spec_y())
    }

    pub closed spec fn spec_dist(&self) -> int {
        self.distance as int
    }

    /// The stored distance is the beacon distance, and the sensor's covered
    /// stretch never leaves the coordinate type.
    pub closed spec fn wf(&self) -> bool {
        &&& self.spec_dist() == manhattan(
            self.spec_pt().0,
            self.spec_pt().1,
            self.spec_beacon().0,
            self.spec_beacon().1,
        )
        &&& i32::MIN <= self.spec_pt().0 - self.spec_dist()
        &&& self.spec_pt().0 + self.spec_dist() <= i32::MAX
    }

    pub fn new(sensor_pt: Point, beacon_pt: Point) -> (r: Self)
        requires
            manhattan(sensor_pt.spec_x(), sensor_pt.spec_y(), beacon_pt.spec_x(), beacon_pt.spec_y())
                <= i32::MAX,
            i32::MIN <= sensor_pt.spec_x() - manhattan(
                sensor_pt.spec_x(),
                sensor_pt.spec_y(),
                beacon_pt.spec_x(),
                beacon_pt.spec_y(),
            ),
            sensor_pt.spec_x() + manhattan(
                sensor_pt.spec_x(),
                sensor_pt.spec_y(),
                beacon_pt.spec_x(),
                beacon_pt.spec_y(),
            ) <= i32::MAX,
        ensures
            r.wf(),
            r.spec_pt() == (sensor_pt.spec_x(), sensor_pt.spec_y()),
            r.spec_beacon() == (beacon_pt.spec_x(), beacon_pt.spec_y()),
    {
        let distance = sensor_pt.distance(&beacon_pt);
        Self { pt: sensor_pt, nearest_beacon: beacon_pt, distance }
    }

    /// The stretch of a row within this sensor's beacon distance: exactly the
    /// positions where no undiscovered beacon can sit.
    pub fn get_range_for_row(&self, row: i32) -> (r: Option<RangeInclusive<i32>>)
        requires
            self.wf(),
            manhattan(0, self.spec_pt().1, 0, row as int) <= i32::MAX,
        ensures
            r is Some <==> manhattan(0, self.spec_pt().1, 0, row as int) <= self.spec_dist(),
            r is Some ==> {
                let rg = r->0;
                &&& !rg@.exhausted
                &&& forall|x: int|
                    (rg@.start <= x <= rg@.end) <==> manhattan(
                        self.spec_pt().0,
                        self.spec_pt().1,
                        x,
                        row as int,
                    ) <= self.spec_dist()
            },
    {
        let diff_y = if self.pt.y >= row {
            self.pt.y as i64 - row as i64
        } else {
            row as i64 - self.pt.y as i64
        };
        if diff_y > self.distance as i64 {
            return None;
        }
        let diff_y32 = diff_y as i32;
        let max_diff_x = self.distance - diff_y32;
        Some(RangeInclusive::new(self.pt.x - max_diff_x, self.pt.x + max_diff_x))
    }
}

/// The positions of the row a list of sensors rules out.
pub open spec fn covered_set(sensors: Seq<Sensor>, row: int) -> Set<i32>
    decreases sensors.len(),
{
    if sensors.len() == 0 {
        Set::empty()
    } else {
        covered_set(sensors.drop_last(), row).union(
            Set::new(
                |x: i32|
                    manhattan(
                        sensors.last().spec_pt().0,
                        sensors.last().spec_pt().1,
                        x as int,
                        row,
                    ) <= sensors.last().spec_dist(),
            ),
        )
    }
}

/// The covered positions, less those where a known beacon already sits.
pub open spec fn minus_beacons(s: Set<i32>, sensors: Seq<Sensor>, row: int) -> Set<i32>
    decreases sensors.len(),
{
    if sensors.len() == 0 {
        s
    } else {
        let prev = minus_beacons(s, sensors.drop_last(), row);
        if sensors.last().spec_beacon().1 == row {
            prev.remove((sensors.last().spec_beacon().0) as i32)
        } else {
            prev
        }
    }
}

/// The whole network: its sensors, the known beacons, and the bounding box
/// of everything seen.
#[derive(Debug)]
pub struct SensorNetwork {
    sensors: Vec<Sensor>,
    beacons: HashMap<u64, bool>,
    top_left: Point,
    bottom_right: Point,
}

impl SensorNetwork {
    pub closed spec fn spec_sensors(&self) -> Seq<Sensor> {
        self.sensors@
    }

    pub closed spec fn spec_beacons(&self) -> Map<u64, bool> {
        self.beacons@
    }

    pub closed spec fn spec_top_left(&self) -> (int, int) {
        (self.top_left.spec_x(), self.top_left.spec_y())
    }

    pub closed spec fn spec_bottom_right(&self) -> (int, int) {
        (self.bottom_right.spec_x(), self.bottom_right.spec_y())
    }

    /// Every stored sensor keeps its distance invariant.
    pub closed spec fn wf(&self) -> bool {
        forall|i: int| 0 <= i < self.sensors@.len() ==> (#[trigger] self.sensors@[i]).wf()
    }

    pub fn new() -> (r: Self)
        ensures
            r.wf(),
            r.spec_sensors() == Seq::<Sensor>::empty(),
            r.spec_beacons() == Map::<u64, bool>::empty(),
            r.spec_top_left() == (i32::MAX as int, i32::MAX as int),
            r.spec_bottom_right() == (0int, 0int),
    {
        Self {
            sensors: Vec::new(),
            beacons: HashMap::new(),
            top_left: Point::new(i32::MAX, i32::MAX),
            bottom_right: Point::new(0, 0),
        }
    }

    /// Record one sensor reading: the sensor, its beacon, and the stretched
    /// bounding box.
    pub fn add_line(&mut self, sensor_x: i32, sensor_y: i32, beacon_x: i32, beacon_y: i32)
        requires
            old(self).wf(),
            manhattan(sensor_x as int, sensor_y as int, beacon_x as int, beacon_y as int)
                <= i32::MAX,
            i32::MIN <= sensor_x - manhattan(
                sensor_x as int,
                sensor_y as int,
                beacon_x as int,
                beacon_y as int,
            ),
            sensor_x + manhattan(
                sensor_x as int,
                sensor_y as int,
                beacon_x as int,
                beacon_y as int,
            ) <= i32::MAX,
        ensures
            final(self).wf(),
            final(self).spec_sensors().len() == old(self).spec_sensors().len() + 1,
            final(self).spec_sensors().drop_last() == old(self).spec_sensors(),
            ({
                let s = final(self).spec_sensors().last();
                s.spec_pt() == (sensor_x as int, sensor_y as int) && s.spec_beacon() == (
                beacon_x as int,
                beacon_y as int,
                )
            }),
            final(self).spec_beacons() == old(self).spec_beacons().insert(
                enc(beacon_x as int, beacon_y as int),
                true,
            ),
            final(self).spec_top_left() == (
                (if sensor_x < beacon_x && sensor_x < old(self).spec_top_left().0 {
                    sensor_x as int
                } else if beacon_x < old(self).spec_top_left().0 {
                    beacon_x as int
                } else {
                    old(self).spec_top_left().0
                }),
                (if sensor_y < beacon_y && sensor_y < old(self).spec_top_left().1 {
                    sensor_y as int
                } else if beacon_y < old(self).spec_top_left().1 {
                    beacon_y as int
                } else {
                    old(self).spec_top_left().1
                }),
            ),
            final(self).spec_bottom_right() == (
                (if sensor_x > beacon_x && sensor_x > old(self).spec_bottom_right().0 {
                    sensor_x as int
                } else if beacon_x > old(self).spec_bottom_right().0 {
                    beacon_x as int
                } else {
                    old(self).spec_bottom_right().0
                }),
                (if sensor_y > beacon_y && sensor_y > old(self).spec_bottom_right().1 {
                    sensor_y as int
                } else if beacon_y > old(self).spec_bottom_right().1 {
                    beacon_y as int
                } else {
                    old(self).spec_bottom_right().1
                }),
            ),
    {
        let sensor = Point::new(sensor_x, sensor_y);
        let beacon = Point::new(beacon_x, beacon_y);

        let min_y = if sensor_y < beacon_y {
            sensor_y
        } else {
            beacon_y
        };
        if min_y < self.top_left.y {
            self.top_left.y = min_y;
        }
        let min_x = if sensor_x < beacon_x {
            sensor_x
        } else {
            beacon_x
        };
        if min_x < self.top_left.x {
            self.top_left.x = min_x;
        }
        let max_y = if sensor_y > beacon_y {
            sensor_y
        } else {
            beacon_y
        };
        if max_y > self.bottom_right.y {
            self.bottom_right.y = max_y;
        }
        let max_x = if sensor_x > beacon_x {
            sensor_x
        } else {
            beacon_x
        };
        if max_x > self.bottom_right.x {
            self.bottom_right.x = max_x;
        }

        self.sensors.push(Sensor::new(sensor, beacon));
        let key: u64 = (((beacon_x as u32) as u64) << 32) | ((beacon_y as u32) as u64);
        self.beacons.insert(key, true);
        proof {
            assert(self.sensors@.drop_last() =~= old(self).sensors@);
        }
    }

    /// How many positions of the given row cannot hold an undiscovered
    /// beacon: every position within some sensor's beacon distance, except
    /// those where a known beacon already sits.
    pub fn cannot_be(&self, row_num: i32) -> (r: usize)
        requires
            self.wf(),
            forall|i: int|
                0 <= i < self.spec_sensors().len() ==> manhattan(
                    0,
                    (#[trigger] self.spec_sensors()[i]).spec_pt().1,
                    0,
                    row_num as int,
                ) <= i32::MAX,
        ensures
            r == minus_beacons(
                covered_set(self.spec_sensors(), row_num as int),
                self.spec_sensors(),
                row_num as int,
            ).len(),
    {
        let mut result: HashSet<i32> = HashSet::new();
        let n = self.sensors.len();
        let mut i: usize = 0;
        proof {
            assert(result@ =~= covered_set(self.spec_sensors().subrange(0, 0), row_num as int));
        }
        while i < n
            invariant
                self.wf(),
                n == self.spec_sensors().len(),
                i <= n,
                forall|k: int|
                    0 <= k < n ==> manhattan(
                        0,
                        (#[trigger] self.spec_sensors()[k]).spec_pt().1,
                        0,
                        row_num as int,
                    ) <= i32::MAX,
                result@ == covered_set(self.spec_sensors().subrange(0, i as int), row_num as int),
            decreases n - i,
        {
            let ghost pre = self.spec_sensors().subrange(0, i as int);
            let ghost cur = self.spec_sensors().subrange(0, i + 1 as int);
            let ghost s = self.spec_sensors()[i as int];
            proof {
                assert(cur.drop_last() =~= pre);
                assert(cur.last() == s);
            }
            match self.sensors[i].get_range_for_row(row_num) {
                None => {
                    proof {
                        assert(Set::new(
                            |x: i32|
                                manhattan(s.spec_pt().0, s.spec_pt().1, x as int, row_num as int)
                                    <= s.spec_dist(),
                        ) =~= Set::<i32>::empty());
                        assert(result@ =~= covered_set(cur, row_num as int));
                    }
                },
                Some(range) => {
                    let lo = range_start(&range);
                    let hi = range_end(&range);
                    let ghost before = result@;
                    if lo <= hi {
                        let mut x = lo;
                        loop
                            invariant_except_break
                                lo <= x <= hi,
                                result@ == before.union(Set::new(|v: i32| lo <= v < x)),
                            ensures
                                result@ == before.union(Set::new(|v: i32| lo <= v <= hi)),
                            decreases hi - x,
                        {
                            result.insert(x);
                            if x == hi {
                                proof {
                                    assert(result@ =~= before.union(
                                        Set::new(|v: i32| lo <= v <= hi),
                                    ));
                                }
                                break ;
                            }
                            proof {
                                assert(result@ =~= before.union(
                                    Set::new(|v: i32| lo <= v < x + 1),
                                ));
                            }
                            x = x + 1;
                        }
                    } else {
                        proof {
                            assert(result@ =~= before.union(Set::new(|v: i32| lo <= v <= hi)));
                        }
                    }
                    proof {
                        assert(Set::new(|v: i32| lo <= v <= hi) =~= Set::new(
                            |x: i32|
                                manhattan(s.spec_pt().0, s.spec_pt().1, x as int, row_num as int)
                                    <= s.spec_dist(),
                        ));
                        assert(result@ =~= covered_set(cur, row_num as int));
                    }
                },
            }
            i = i + 1;
        }
        proof {
            assert(self.spec_sensors().subrange(0, n as int) =~= self.spec_sensors());
            assert(minus_beacons(
                covered_set(self.spec_sensors(), row_num as int),
                self.spec_sensors().subrange(0, 0),
                row_num as int,
            ) == covered_set(self.spec_sensors(), row_num as int));
        }
        let mut i: usize = 0;
        while i < n
            invariant
                self.wf(),
                n == self.spec_sensors().len(),
                i <= n,
                result@ == minus_beacons(
                    covered_set(self.spec_sensors(), row_num as int),
                    self.spec_sensors().subrange(0, i as int),
                    row_num as int,
                ),
            decreases n - i,
        {
            let ghost pre = self.spec_sensors().subrange(0, i as int);
            let ghost cur = self.spec_sensors().subrange(0, i + 1 as int);
            proof {
                assert(cur.drop_last() =~= pre);
                assert(cur.last() == self.spec_sensors()[i as int]);
            }
            let b = self.sensors[i].nearest_beacon;
            if b.y == row_num {
                result.remove(&b.x);
            }
            i = i + 1;
        }
        proof {
            assert(self.spec_sensors().subrange(0, n as int) =~= self.spec_sensors());
        }
        result.len()
    }
}

} // verus!
