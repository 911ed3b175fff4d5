use vstd::prelude::*;

verus! {

/// A point on the integer grid.
#[derive(Clone, Copy, Debug, PartialEq, Eq, Structural)]
pub struct Point {
    pub x: i32,
    pub y: i32,
    pub z: i32,
}

impl Point {
    pub fn new(x: i32, y: i32, z: i32) -> (r: Point)
        ensures
            r == (Point { x, y, z }),
    {
        Point { x, y, z }
    }
}

/// Axis-aligned bounding box given by its smallest and largest corners.
#[derive(Clone, Copy, Debug, PartialEq, Eq, Structural)]
pub struct Aabb {
    pub min: Point,
    pub max: Point,
}

pub open spec fn low(a: i32, b: i32) -> i32 {
    if a <= b { a } else { b }
}

pub open spec fn high(a: i32, b: i32) -> i32 {
    if a <= b { b } else { a }
}

/// The splitting coordinate of the interval `[lo, hi]`, rounded down.
pub open spec fn mid(lo: int, hi: int) -> int {
    lo + (hi - lo) / 2
}

/// Where an interval lies relative to a splitting coordinate `c`: `Some(0)` wholly below it,
/// `Some(1)` on or above it (a bound on `c` counts as above, so an interval that starts on
/// `c` and rises is above), `None` when it crosses `c`, ends on `c` from below, or is the
/// single coordinate `c` itself.
pub open spec fn axis_side(lo: i32, hi: i32, c: i32) -> Option<int> {
    if hi < c {
        Some(0)
    } else if lo >= c && hi > c {
        Some(1)
    } else {
        None
    }
}

/// Picks the half `[lo, c]` (bit clear) or `[c, hi]` (bit set) of an interval.
pub open spec fn half_lo(lo: i32, c: i32, bit: bool) -> i32 {
    if bit { c } else { lo }
}

pub open spec fn half_hi(c: i32, hi: i32, bit: bool) -> i32 {
    if bit { hi } else { c }
}

impl Aabb {
    /// Both corners are ordered on every axis.
    pub open spec fn wf(self) -> bool {
        &&& self.min.x <= self.max.x
        &&& self.min.y <= self.max.y
        &&& self.min.z <= self.max.z
    }

    pub open spec fn spec_contains(self, o: Aabb) -> bool {
        &&& self.min.x <= o.min.x
        &&& self.min.y <= o.min.y
        &&& self.min.z <= o.min.z
        &&& o.max.x <= self.max.x
        &&& o.max.y <= self.max.y
        &&& o.max.z <= self.max.z
    }

    /// Positive extent on every axis, so a positive volume.
    pub open spec fn spec_has_volume(self) -> bool {
        &&& self.min.x < self.max.x
        &&& self.min.y < self.max.y
        &&& self.min.z < self.max.z
    }

    /// At most one unit wide on every axis. On the integer grid such a box is the smallest
    /// cell: an octant of it can be the box itself, so it is not divided further, which is
    /// what bounds the depth of the tree.
    pub open spec fn is_unit(self) -> bool {
        &&& self.max.x - self.min.x <= 1
        &&& self.max.y - self.min.y <= 1
        &&& self.max.z - self.min.z <= 1
    }

    /// Sum of the extents, which shrinks from a divisible box to each of its octants.
    pub open spec fn measure(self) -> nat {
        ((self.max.x - self.min.x) + (self.max.y - self.min.y) + (self.max.z
            - self.min.z)) as nat
    }

    pub open spec fn spec_center(self) -> Point {
        Point {
            x: mid(self.min.x as int, self.max.x as int) as i32,
            y: mid(self.min.y as int, self.max.y as int) as i32,
            z: mid(self.min.z as int, self.max.z as int) as i32,
        }
    }

    /// Octant `k` of the box, cut through its center: bit 0 of `k` selects the high half
    /// in x, bit 1 in y, bit 2 in z.
    pub open spec fn octant(self, k: int) -> Aabb {
        let c = self.spec_center();
        let bx = k % 2 == 1;
        let by = (k / 2) % 2 == 1;
        let bz = k / 4 == 1;
        Aabb {
            min: Point {
                x: half_lo(self.min.x, c.x, bx),
                y: half_lo(self.min.y, c.y, by),
                z: half_lo(self.min.z, c.z, bz),
            },
            max: Point {
                x: half_hi(c.x, self.max.x, bx),
                y: half_hi(c.y, self.max.y, by),
                z: half_hi(c.z, self.max.z, bz),
            },
        }
    }

    /// The octant that holds `bb` whole, if one does. Axes are taken in the order z, y, x,
    /// adding 4, 2 and 1 for the high side. `None` when `bb` is not inside this box, when this
    /// box is a unit box (the smallest cell of the grid), or when on some axis `bb` does not
    /// lie wholly below or wholly on-or-above the plane through the center.
    pub open spec fn spec_select(self, bb: Aabb) -> Option<int> {
        if !self.spec_contains(bb) || self.is_unit() {
            None
        } else {
            let c = self.spec_center();
            match (
                axis_side(bb.min.z, bb.max.z, c.z),
                axis_side(bb.min.y, bb.max.y, c.y),
                axis_side(bb.min.x, bb.max.x, c.x),
            ) {
                (Some(z), Some(y), Some(x)) => Some(4 * z + 2 * y + x),
                _ => None,
            }
        }
    }

    /// The box spanned by two opposite corners, in either order.
    pub fn new(p1: Point, p2: Point) -> (r: Aabb)
        ensures
            r.min == (Point { x: low(p1.x, p2.x), y: low(p1.y, p2.y), z: low(p1.z, p2.z) }),
            r.max == (Point { x: high(p1.x, p2.x), y: high(p1.y, p2.y), z: high(p1.z, p2.z) }),
            r.wf(),
    {
        let min = Point {
            x: if p1.x <= p2.x { p1.x } else { p2.x },
            y: if p1.y <= p2.y { p1.y } else { p2.y },
            z: if p1.z <= p2.z { p1.z } else { p2.z },
        };
        let max = Point {
            x: if p1.x <= p2.x { p2.x } else { p1.x },
            y: if p1.y <= p2.y { p2.y } else { p1.y },
            z: if p1.z <= p2.z { p2.z } else { p1.z },
        };
        Aabb { min, max }
    }

    /// Whether `o` lies wholly inside this box (shared faces count as inside).
    pub fn contains(&self, o: &Aabb) -> (r: bool)
        ensures
            r == self.spec_contains(*o),
    {
        o.min.x >= self.min.x && o.min.y >= self.min.y && o.min.z >= self.min.z && o.max.x
            <= self.max.x && o.max.y <= self.max.y && o.max.z <= self.max.z
    }

    pub fn has_volume(&self) -> (r: bool)
        ensures
            r == self.spec_has_volume(),
    {
        self.min.x < self.max.x && self.min.y < self.max.y && self.min.z < self.max.z
    }

    pub fn center(&self) -> (r: Point)
        requires
            self.wf(),
        ensures
            r == self.spec_center(),
    {
        Point {
            x: mid_of(self.min.x, self.max.x),
            y: mid_of(self.min.y, self.max.y),
            z: mid_of(self.min.z, self.max.z),
        }
    }

    /// Octant `k` of this box, as `octant` describes it.
    pub fn octant_box(&self, k: usize) -> (r: Aabb)
        requires
            self.wf(),
            k < 8,
        ensures
            r == self.octant(k as int),
    {
        let c = self.center();
        let bx = k % 2 == 1;
        let by = (k / 2) % 2 == 1;
        let bz = k / 4 == 1;
        Aabb {
            min: Point {
                x: if bx { c.x } else { self.min.x },
                y: if by { c.y } else { self.min.y },
                z: if bz { c.z } else { self.min.z },
            },
            max: Point {
                x: if bx { self.max.x } else { c.x },
                y: if by { self.max.y } else { c.y },
                z: if bz { self.max.z } else { c.z },
            },
        }
    }

    /// Selects the octant for `bb`, as `spec_select` describes it.
    pub fn select_octant(&self, c: &Point, bb: &Aabb) -> (r: Option<usize>)
        requires
            self.wf(),
            *c == self.spec_center(),
        ensures
            r matches Some(k) ==> k < 8,
            r == (match self.spec_select(*bb) {
                Some(k) => Some(k as usize),
                None => None,
            }),
    {
        if !self.contains(bb) || self.is_unit_box() {
            return None;
        }
        let z = side_of(bb.min.z, bb.max.z, c.z);
        let y = side_of(bb.min.y, bb.max.y, c.y);
        let x = side_of(bb.min.x, bb.max.x, c.x);
        match (z, y, x) {
            (Some(z), Some(y), Some(x)) => Some(4 * z + 2 * y + x),
            _ => None,
        }
    }

    pub fn is_unit_box(&self) -> (r: bool)
        requires
            self.wf(),
        ensures
            r == self.is_unit(),
    {
        (self.max.x as i64 - self.min.x as i64) <= 1 && (self.max.y as i64 - self.min.y as i64)
            <= 1 && (self.max.z as i64 - self.min.z as i64) <= 1
    }
}

fn mid_of(lo: i32, hi: i32) -> (r: i32)
    requires
        lo <= hi,
    ensures
        r == mid(lo as int, hi as int),
        lo <= r <= hi,
{
    let w = (hi as i64 - lo as i64) as u64;
    (lo as i64 + (w / 2) as i64) as i32
}

fn side_of(lo: i32, hi: i32, c: i32) -> (r: Option<usize>)
    ensures
        r == (match axis_side(lo, hi, c) {
            Some(s) => Some(s as usize),
            None => None,
        }),
{
    if hi < c {
        Some(0)
    } else if lo >= c && hi > c {
        Some(1)
    } else {
        None
    }
}

/// Each octant of a well-formed box is well formed and lies inside the box; when the box is
/// not a unit box, each octant is also strictly smaller in `measure`.
pub proof fn lemma_octant(bb: Aabb, k: int)
    requires
        bb.wf(),
        0 <= k < 8,
    ensures
        bb.octant(k).wf(),
        bb.spec_contains(bb.octant(k)),
        !bb.is_unit() ==> bb.octant(k).measure() < bb.measure(),
{
}

/// A selected octant index is below 8, and the octant it names holds the box.
pub proof fn lemma_select(node: Aabb, bb: Aabb)
    requires
        node.wf(),
    ensures
        node.spec_select(bb) matches Some(k) ==> {
            &&& 0 <= k < 8
            &&& node.octant(k).spec_contains(bb)
        },
{
}

} // verus!
