//! Points and square regions of the plane, and their four quadrants.
//!
//! Points are in coordinate units (hundredths of a world unit). Regions are
//! in region units, `REGION_SCALE` to a coordinate unit, so that halving a
//! region and moving its center by a quarter of its size stay exact down to
//! squares far smaller than a coordinate unit.
use vstd::prelude::*;

verus! {

/// Largest magnitude of a body or query coordinate: a machine limit, so that
/// moments (mass times coordinate) fit in `i64` and the acceptance test's
/// squares fit in `u128`.
pub const POS_LIMIT: i64 = 16_777_216;

/// Region units per coordinate unit (2^29).
pub const REGION_SCALE: i64 = 536_870_912;

/// Largest magnitude, in region units, of any point covered by a region:
/// 2^26 coordinate units.
pub const COORD_LIMIT: i64 = 36_028_797_018_963_968;

/// Bound on the odd part of a region's size, 2^27: a region that can no
/// longer be halved exactly is then narrower than one coordinate unit.
pub const ODD_LIMIT: i64 = 134_217_728;

/// A point, or a vector, of the plane in coordinate units.
#[derive(Clone, Copy, Debug, PartialEq, Eq, Structural)]
pub struct Point {
    pub x: i64,
    pub y: i64,
}

impl Point {
    pub fn new(x: i64, y: i64) -> (r: Point)
        ensures
            r.x == x,
            r.y == y,
    {
        Point { x, y }
    }

    /// Whether both coordinates lie within `POS_LIMIT`.
    pub open spec fn in_range(self) -> bool {
        -POS_LIMIT <= self.x <= POS_LIMIT && -POS_LIMIT <= self.y <= POS_LIMIT
    }
}

/// An axis-aligned square in region units: its center and its width and
/// height.
#[derive(Clone, Copy, Debug, PartialEq, Eq, Structural)]
pub struct Rect {
    pub center: Point,
    pub size: Point,
}

/// `x` without its factors of two.
pub open spec fn odd_part(x: int) -> int
    decreases x,
{
    if x > 0 && x % 2 == 0 {
        odd_part(x / 2)
    } else {
        x
    }
}

/// Quadrant of `p` in `r`: 0 upper-left, 1 upper-right, 2 lower-left,
/// 3 lower-right. A point on a center line belongs to the left or lower side.
pub open spec fn quadrant_of(r: Rect, p: Point) -> int {
    let right = p.x * REGION_SCALE > r.center.x;
    let top = p.y * REGION_SCALE > r.center.y;
    if !right && top {
        0
    } else if right && top {
        1
    } else if !right && !top {
        2
    } else {
        3
    }
}

/// Whether quadrant `q` is on the right half.
pub open spec fn is_right(q: int) -> bool {
    q == 1 || q == 3
}

/// Whether quadrant `q` is on the upper half.
pub open spec fn is_top(q: int) -> bool {
    q == 0 || q == 1
}

/// The half-open part of `r`'s plane that quadrant `q` stands for.
pub open spec fn in_quadrant(r: Rect, q: int, p: Point) -> bool {
    &&& (if is_right(q) { p.x * REGION_SCALE > r.center.x } else { p.x * REGION_SCALE <= r.center.x })
    &&& (if is_top(q) { p.y * REGION_SCALE > r.center.y } else { p.y * REGION_SCALE <= r.center.y })
}

/// Quadrant `q` of `r`: half the size, its center moved by a quarter of the
/// size towards that quadrant.
pub open spec fn sub_rect(r: Rect, q: int) -> Rect {
    let half = (r.size.x / 2) as i64;
    let off = r.size.x / 4;
    Rect {
        center: Point {
            x: (if is_right(q) { r.center.x + off } else { r.center.x - off }) as i64,
            y: (if is_top(q) { r.center.y + off } else { r.center.y - off }) as i64,
        },
        size: Point { x: half, y: half },
    }
}

/// Whether the point `p` lies in the closed square that `r` covers.
pub open spec fn covers(r: Rect, p: Point) -> bool {
    &&& r.center.x - r.size.x / 2 <= p.x * REGION_SCALE <= r.center.x + r.size.x / 2
    &&& r.center.y - r.size.y / 2 <= p.y * REGION_SCALE <= r.center.y + r.size.y / 2
}

/// Whether the region point `(x, y)` lies in the closed square `r`.
pub open spec fn covers_at(r: Rect, x: int, y: int) -> bool {
    &&& r.center.x - r.size.x / 2 <= x <= r.center.x + r.size.x / 2
    &&& r.center.y - r.size.y / 2 <= y <= r.center.y + r.size.y / 2
}

impl Rect {
    /// A square whose size is a multiple of four (so that its quadrants are
    /// exact), whose odd part is below `ODD_LIMIT`, and whose points all stay
    /// within `COORD_LIMIT`.
    pub open spec fn valid(self) -> bool {
        &&& self.size.x == self.size.y
        &&& 0 <= self.size.x
        &&& self.size.x % 4 == 0
        &&& odd_part(self.size.x as int) < ODD_LIMIT
        &&& -COORD_LIMIT <= self.center.x - self.size.x / 2
        &&& self.center.x + self.size.x / 2 <= COORD_LIMIT
        &&& -COORD_LIMIT <= self.center.y - self.size.y / 2
        &&& self.center.y + self.size.y / 2 <= COORD_LIMIT
    }

    /// A square whose quadrants are again valid squares, and smaller.
    pub open spec fn splittable(self) -> bool {
        self.size.x >= 8 && self.size.x % 8 == 0
    }

    /// A square `size` coordinate units wide around `center`, in region units.
    pub fn around(center: Point, size: i64) -> (r: Rect)
        requires
            center.in_range(),
            0 <= size <= 2 * POS_LIMIT,
        ensures
            r.center.x == center.x * REGION_SCALE,
            r.center.y == center.y * REGION_SCALE,
            r.size.x == size * REGION_SCALE,
            r.size.y == size * REGION_SCALE,
    {
        let s = size * REGION_SCALE;
        Rect {
            center: Point { x: center.x * REGION_SCALE, y: center.y * REGION_SCALE },
            size: Point { x: s, y: s },
        }
    }

    /// Returns the quadrant index (0..=3) that contains `point`.
    pub fn get_quadrant_index(&self, point: Point) -> (r: usize)
        requires
            point.in_range(),
        ensures
            r == quadrant_of(*self, point),
            r < 4,
            in_quadrant(*self, r as int, point),
    {
        let right = point.x * REGION_SCALE > self.center.x;
        let top = point.y * REGION_SCALE > self.center.y;
        match (right, top) {
            (false, true) => 0,
            (true, true) => 1,
            (false, false) => 2,
            (true, false) => 3,
        }
    }

    /// Returns the sub-square of quadrant `index`: half the size, its center
    /// a quarter of the size away in the quadrant's direction.
    pub fn sub_quadrant(&self, index: usize) -> (r: Rect)
        requires
            self.valid(),
            index < 4,
        ensures
            r == sub_rect(*self, index as int),
            r.size.x * 2 == self.size.x,
            r.size.y * 2 == self.size.y,
            r.center.x * 4 == self.center.x * 4 + (if is_right(index as int) { self.size.x as int } else { -self.size.x }),
            r.center.y * 4 == self.center.y * 4 + (if is_top(index as int) { self.size.y as int } else { -self.size.y }),
            self.splittable() ==> r.valid() && r.size.x < self.size.x,
    {
        let half = self.size.x / 2;
        let off = self.size.x / 4;
        let center = match index {
            0 => Point { x: self.center.x - off, y: self.center.y + off },
            1 => Point { x: self.center.x + off, y: self.center.y + off },
            2 => Point { x: self.center.x - off, y: self.center.y - off },
            _ => Point { x: self.center.x + off, y: self.center.y - off },
        };
        proof {
            if self.splittable() {
                let s = self.size.x as int;
                assert(s / 2 > 0 && (s / 2) % 2 == 0);
                assert(odd_part(s) == odd_part(s / 2));
            }
        }
        Rect { center, size: Point { x: half, y: half } }
    }
}

/// A valid square that cannot be halved exactly again is narrower than one
/// coordinate unit, so it covers at most one point.
pub proof fn lemma_unsplittable_holds_one_point(r: Rect, p: Point, q: Point)
    requires
        r.valid(),
        !r.splittable(),
        covers(r, p),
        covers(r, q),
    ensures
        p == q,
{
    let s = r.size.x as int;
    // s is 0, or four times an odd number below ODD_LIMIT.
    if s > 0 {
        assert(s % 8 == 4);
        assert(s / 2 > 0 && (s / 2) % 2 == 0);
        assert(odd_part(s) == odd_part(s / 2));
        assert((s / 4) % 2 == 1);
        assert(odd_part(s / 2) == odd_part(s / 4));
        assert(odd_part(s / 4) == s / 4);
    }
    assert(s < REGION_SCALE);
    assert(-REGION_SCALE < (p.x - q.x) * REGION_SCALE < REGION_SCALE);
    assert(-REGION_SCALE < (p.y - q.y) * REGION_SCALE < REGION_SCALE);
    assert(p.x == q.x) by (nonlinear_arith)
        requires -REGION_SCALE < (p.x - q.x) * REGION_SCALE < REGION_SCALE, REGION_SCALE == 536_870_912;
    assert(p.y == q.y) by (nonlinear_arith)
        requires -REGION_SCALE < (p.y - q.y) * REGION_SCALE < REGION_SCALE, REGION_SCALE == 536_870_912;
}

/// The four quadrants of any valid square split the plane: every point lies
/// in exactly one of them, the one `get_quadrant_index` names. Each has half
/// the size of the square and its center a quarter of the size away in the
/// quadrant's direction; the square's points lie in the square of their
/// quadrant, and each quadrant's center is classified into that quadrant.
pub proof fn lemma_quadrants_partition(r: Rect, p: Point)
    requires
        r.valid(),
    ensures
        0 <= quadrant_of(r, p) < 4,
        forall|q: int| 0 <= q < 4 ==> (in_quadrant(r, q, p) <==> q == quadrant_of(r, p)),
        forall|q: int|
            0 <= q < 4 ==> {
                let s = #[trigger] sub_rect(r, q);
                &&& s.size.x * 2 == r.size.x
                &&& s.size.y == s.size.x
                &&& s.center.x * 4 == r.center.x * 4 + (if is_right(q) { r.size.x as int } else { -r.size.x })
                &&& s.center.y * 4 == r.center.y * 4 + (if is_top(q) { r.size.y as int } else { -r.size.y })
                &&& (r.size.x > 0 ==> (s.center.x > r.center.x <==> is_right(q)))
                &&& (r.size.x > 0 ==> (s.center.y > r.center.y <==> is_top(q)))
            },
        covers(r, p) ==> covers(sub_rect(r, quadrant_of(r, p)), p),
        forall|q: int, x: int, y: int| 0 <= q < 4 && #[trigger] covers_at(sub_rect(r, q), x, y) ==> covers_at(r, x, y),
{
}

} // verus!
