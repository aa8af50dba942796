//! Integer geometry: coordinates, Bezier curves and their approximate
//! lengths.
//!
//! All coordinates are whole pixels, bounded by [`MAX_COORD`] so that no
//! distance computation can overflow.  A curve's length is a deliberate,
//! documented approximation — the average of the control-point chord
//! distances, not a true arc length — and it is clamped to at least one
//! pixel so that every traversal of a track takes positive time.

use vstd::prelude::*;

verus! {

/// Bound on the magnitude of any coordinate, in pixels.
pub const MAX_COORD: i64 = 1_000_000_000;

/// A point on the plane, in whole pixels.
#[derive(Debug, Clone, Copy, PartialEq, Eq, Structural)]
pub struct Coord(pub i64, pub i64);

impl Coord {
    /// Both components are within the global coordinate bound.
    pub open spec fn in_range(self) -> bool {
        -MAX_COORD <= self.0 <= MAX_COORD && -MAX_COORD <= self.1 <= MAX_COORD
    }

    /// Decides at run time whether this point is within range.
    pub fn check_range(&self) -> (r: bool)
        ensures
            r == self.in_range(),
    {
        -MAX_COORD <= self.0 && self.0 <= MAX_COORD && -MAX_COORD <= self.1 && self.1 <= MAX_COORD
    }
}

/// `r` is the integer square root of `x`: the greatest integer whose square
/// does not exceed `x`.
pub open spec fn is_isqrt(x: int, r: int) -> bool {
    0 <= r && r * r <= x < (r + 1) * (r + 1)
}

pub open spec fn isqrt_spec(x: int) -> int {
    choose|r: int| is_isqrt(x, r)
}

pub proof fn lemma_isqrt_unique(x: int, a: int, b: int)
    by (nonlinear_arith)
    requires
        is_isqrt(x, a),
        is_isqrt(x, b),
    ensures
        a == b,
{
}

/// Integer square root by bisection.
pub fn isqrt(x: u64) -> (r: u64)
    ensures
        is_isqrt(x as int, r as int),
        r == isqrt_spec(x as int),
{
    let mut lo: u64 = 0;
    let mut hi: u64 = 4294967296;
    while hi - lo > 1
        invariant
            lo < hi <= 4294967296,
            (lo as int) * (lo as int) <= x as int,
            (hi as int) * (hi as int) > x as int,
        decreases hi - lo,
    {
        let mid = lo + (hi - lo) / 2;
        proof {
            assert(mid < 4294967296);
            assert((mid as int) * (mid as int) < 0xffff_ffff_ffff_ffff) by (nonlinear_arith)
                requires
                    0 <= mid < 4294967296,
            {
            }
        }
        if mid * mid <= x {
            lo = mid;
        } else {
            hi = mid;
        }
    }
    proof {
        assert(is_isqrt(x as int, lo as int));
        lemma_isqrt_unique(x as int, lo as int, isqrt_spec(x as int));
    }
    lo
}

/// The chord distance between `a` and `b`, rounded down to whole pixels.
pub open spec fn spec_distance(a: Coord, b: Coord) -> int {
    isqrt_spec((a.0 - b.0) * (a.0 - b.0) + (a.1 - b.1) * (a.1 - b.1))
}

pub proof fn lemma_distance_bound(a: Coord, b: Coord)
    by (nonlinear_arith)
    requires
        a.in_range(),
        b.in_range(),
    ensures
        0 <= spec_distance(a, b) < 0x1_0000_0000,
        is_isqrt(
            (a.0 - b.0) * (a.0 - b.0) + (a.1 - b.1) * (a.1 - b.1),
            spec_distance(a, b),
        ),
{
    let sq = (a.0 - b.0) * (a.0 - b.0) + (a.1 - b.1) * (a.1 - b.1);
    assert(0 <= sq < 0xffff_ffff_ffff_ffff);
    assert(is_isqrt(sq, isqrt_spec(sq))) by {
        // a witness exists: bisect in spec is not available, but the unique
        // root below 2^32 witnesses the choice
        lemma_isqrt_exists(sq);
    }
}

/// Every non-negative integer has an integer square root.
pub proof fn lemma_isqrt_exists(x: int)
    requires
        0 <= x,
    ensures
        is_isqrt(x, isqrt_spec(x)),
    decreases x,
{
    if x == 0 {
        assert(is_isqrt(0, 0));
    } else {
        lemma_isqrt_exists(x - 1);
        let r = isqrt_spec(x - 1);
        assert(is_isqrt(x - 1, r));
        if (r + 1) * (r + 1) <= x {
            assert(x == (r + 1) * (r + 1)) by (nonlinear_arith)
                requires
                    is_isqrt(x - 1, r),
                    (r + 1) * (r + 1) <= x,
            {
            }
            assert(is_isqrt(x, r + 1)) by (nonlinear_arith)
                requires
                    x == (r + 1) * (r + 1),
                    r >= 0,
            {
            }
            assert(isqrt_spec(x) == r + 1) by {
                lemma_isqrt_unique(x, r + 1, isqrt_spec(x));
            }
        } else {
            assert(is_isqrt(x, r));
            assert(isqrt_spec(x) == r) by {
                lemma_isqrt_unique(x, r, isqrt_spec(x));
            }
        }
    }
}

impl Coord {
    /// Chord distance to another point, rounded down to whole pixels.
    pub fn distance_to(&self, coord: &Coord) -> (r: u64)
        requires
            self.in_range(),
            coord.in_range(),
        ensures
            r == spec_distance(*self, *coord),
    {
        let dx = if self.0 >= coord.0 {
            (self.0 - coord.0) as u64
        } else {
            (coord.0 - self.0) as u64
        };
        let dy = if self.1 >= coord.1 {
            (self.1 - coord.1) as u64
        } else {
            (coord.1 - self.1) as u64
        };
        proof {
            assert((dx as int) * (dx as int) == (self.0 - coord.0) * (self.0 - coord.0))
                by (nonlinear_arith)
                requires
                    dx == if self.0 >= coord.0 {
                        self.0 - coord.0
                    } else {
                        coord.0 - self.0
                    },
            {
            }
            assert((dy as int) * (dy as int) == (self.1 - coord.1) * (self.1 - coord.1))
                by (nonlinear_arith)
                requires
                    dy == if self.1 >= coord.1 {
                        self.1 - coord.1
                    } else {
                        coord.1 - self.1
                    },
            {
            }
            assert((dx as int) * (dx as int) + (dy as int) * (dy as int)
                <= 0x7fff_ffff_ffff_ffff) by (nonlinear_arith)
                requires
                    0 <= dx <= 2 * MAX_COORD,
                    0 <= dy <= 2 * MAX_COORD,
            {
            }
        }
        isqrt(dx * dx + dy * dy)
    }
}

/// The change a control-command applies to a curve: keep only the endpoints,
/// or install one or two interior control points.
#[derive(Debug, Clone, Copy, PartialEq, Eq, Structural)]
pub enum BezierDiff {
    ToBezier2,
    ToBezier3(Coord),
    ToBezier4(Coord, Coord),
}

/// A Bezier curve with 2, 3 or 4 control points; the first and last control
/// points are the endpoints that sit on the track's nodes.
#[derive(Debug, Clone, Copy, PartialEq, Eq, Structural)]
pub enum Bezier {
    Bezier2(Coord, Coord),
    Bezier3(Coord, Coord, Coord),
    Bezier4(Coord, Coord, Coord, Coord),
}

impl BezierDiff {
    /// Decides at run time whether every control point is within range.
    pub fn check_range(&self) -> (r: bool)
        ensures
            r == self.in_range(),
    {
        match self {
            BezierDiff::ToBezier2 => true,
            BezierDiff::ToBezier3(p) => p.check_range(),
            BezierDiff::ToBezier4(p1, p2) => p1.check_range() && p2.check_range(),
        }
    }

    pub open spec fn in_range(self) -> bool {
        match self {
            BezierDiff::ToBezier2 => true,
            BezierDiff::ToBezier3(p) => p.in_range(),
            BezierDiff::ToBezier4(p1, p2) => p1.in_range() && p2.in_range(),
        }
    }
}

impl Bezier {
    /// Decides at run time whether every control point is within range.
    pub fn check_range(&self) -> (r: bool)
        ensures
            r == self.in_range(),
    {
        match self {
            Bezier::Bezier2(p1, p2) => p1.check_range() && p2.check_range(),
            Bezier::Bezier3(p1, p2, p3) => p1.check_range() && p2.check_range()
                && p3.check_range(),
            Bezier::Bezier4(p1, p2, p3, p4) => p1.check_range() && p2.check_range()
                && p3.check_range() && p4.check_range(),
        }
    }

    pub open spec fn in_range(self) -> bool {
        match self {
            Bezier::Bezier2(p1, p2) => p1.in_range() && p2.in_range(),
            Bezier::Bezier3(p1, p2, p3) => p1.in_range() && p2.in_range() && p3.in_range(),
            Bezier::Bezier4(p1, p2, p3, p4) => p1.in_range() && p2.in_range() && p3.in_range()
                && p4.in_range(),
        }
    }

    /// The chord-average length approximation, in whole pixels.
    pub open spec fn spec_fast_length(self) -> int {
        match self {
            Bezier::Bezier2(p1, p2) => spec_distance(p1, p2),
            Bezier::Bezier3(p1, p2, p3) => (spec_distance(p1, p2) + spec_distance(p2, p3)
                + spec_distance(p1, p3)) / 2,
            Bezier::Bezier4(p1, p2, p3, p4) => (spec_distance(p1, p2) + spec_distance(p2, p3)
                + spec_distance(p3, p4) + spec_distance(p1, p4)) / 2,
        }
    }

    /// The approximate curve length: the average of the control-point chord
    /// distances.  This is deliberately not a true arc length; the speed to
    /// time conversion of the whole engine is defined against it.
    pub fn fast_length(&self) -> (r: u64)
        requires
            self.in_range(),
        ensures
            r == self.spec_fast_length(),
            r < 0x2_0000_0000,
    {
        match self {
            Bezier::Bezier2(p1, p2) => {
                proof {
                    lemma_distance_bound(*p1, *p2);
                }
                p1.distance_to(p2)
            },
            Bezier::Bezier3(p1, p2, p3) => {
                proof {
                    lemma_distance_bound(*p1, *p2);
                    lemma_distance_bound(*p2, *p3);
                    lemma_distance_bound(*p1, *p3);
                }
                (p1.distance_to(p2) + p2.distance_to(p3) + p1.distance_to(p3)) / 2
            },
            Bezier::Bezier4(p1, p2, p3, p4) => {
                proof {
                    lemma_distance_bound(*p1, *p2);
                    lemma_distance_bound(*p2, *p3);
                    lemma_distance_bound(*p3, *p4);
                    lemma_distance_bound(*p1, *p4);
                }
                (p1.distance_to(p2) + p2.distance_to(p3) + p3.distance_to(p4) + p1.distance_to(
                    p4,
                )) / 2
            },
        }
    }

    /// The chord-average length of a bounded curve is bounded too.
    pub proof fn lemma_length_bound(self)
        requires
            self.in_range(),
        ensures
            0 <= self.spec_fast_length() < 0x2_0000_0000,
            1 <= self.spec_effective_length() < 0x2_0000_0000,
    {
        match self {
            Bezier::Bezier2(p1, p2) => {
                lemma_distance_bound(p1, p2);
            },
            Bezier::Bezier3(p1, p2, p3) => {
                lemma_distance_bound(p1, p2);
                lemma_distance_bound(p2, p3);
                lemma_distance_bound(p1, p3);
            },
            Bezier::Bezier4(p1, p2, p3, p4) => {
                lemma_distance_bound(p1, p2);
                lemma_distance_bound(p2, p3);
                lemma_distance_bound(p3, p4);
                lemma_distance_bound(p1, p4);
            },
        }
    }

    pub open spec fn spec_effective_length(self) -> int {
        if self.spec_fast_length() < 1 {
            1
        } else {
            self.spec_fast_length()
        }
    }

    /// The length used for movement: the chord-average length, clamped to at
    /// least one pixel so that a traversal always takes positive time.
    pub fn effective_length(&self) -> (r: u64)
        requires
            self.in_range(),
        ensures
            r == self.spec_effective_length(),
            1 <= r < 0x2_0000_0000,
    {
        let l = self.fast_length();
        if l < 1 {
            1
        } else {
            l
        }
    }

    pub open spec fn spec_start(self) -> Coord {
        match self {
            Bezier::Bezier2(start, _) => start,
            Bezier::Bezier3(start, _, _) => start,
            Bezier::Bezier4(start, _, _, _) => start,
        }
    }

    pub open spec fn spec_end(self) -> Coord {
        match self {
            Bezier::Bezier2(_, end) => end,
            Bezier::Bezier3(_, _, end) => end,
            Bezier::Bezier4(_, _, _, end) => end,
        }
    }

    /// The endpoint that sits on the track's start node.
    pub fn start(&self) -> (r: Coord)
        ensures
            r == self.spec_start(),
    {
        match self {
            Bezier::Bezier2(start, _) => *start,
            Bezier::Bezier3(start, _, _) => *start,
            Bezier::Bezier4(start, _, _, _) => *start,
        }
    }

    /// The endpoint that sits on the track's end node.
    pub fn end(&self) -> (r: Coord)
        ensures
            r == self.spec_end(),
    {
        match self {
            Bezier::Bezier2(_, end) => *end,
            Bezier::Bezier3(_, _, end) => *end,
            Bezier::Bezier4(_, _, _, end) => *end,
        }
    }

    pub open spec fn spec_with_start(self, coord: Coord) -> Bezier {
        match self {
            Bezier::Bezier2(_, p2) => Bezier::Bezier2(coord, p2),
            Bezier::Bezier3(_, p2, p3) => Bezier::Bezier3(coord, p2, p3),
            Bezier::Bezier4(_, p2, p3, p4) => Bezier::Bezier4(coord, p2, p3, p4),
        }
    }

    pub open spec fn spec_with_end(self, coord: Coord) -> Bezier {
        match self {
            Bezier::Bezier2(p1, _) => Bezier::Bezier2(p1, coord),
            Bezier::Bezier3(p1, p2, _) => Bezier::Bezier3(p1, p2, coord),
            Bezier::Bezier4(p1, p2, p3, _) => Bezier::Bezier4(p1, p2, p3, coord),
        }
    }

    /// Moves the endpoint on the start node, keeping the rest of the curve.
    pub fn set_start(&mut self, coord: Coord)
        ensures
            *final(self) == old(self).spec_with_start(coord),
    {
        *self = match *self {
            Bezier::Bezier2(_, p2) => Bezier::Bezier2(coord, p2),
            Bezier::Bezier3(_, p2, p3) => Bezier::Bezier3(coord, p2, p3),
            Bezier::Bezier4(_, p2, p3, p4) => Bezier::Bezier4(coord, p2, p3, p4),
        };
    }

    /// Moves the endpoint on the end node, keeping the rest of the curve.
    pub fn set_end(&mut self, coord: Coord)
        ensures
            *final(self) == old(self).spec_with_end(coord),
    {
        *self = match *self {
            Bezier::Bezier2(p1, _) => Bezier::Bezier2(p1, coord),
            Bezier::Bezier3(p1, p2, _) => Bezier::Bezier3(p1, p2, coord),
            Bezier::Bezier4(p1, p2, p3, _) => Bezier::Bezier4(p1, p2, p3, coord),
        };
    }

    pub open spec fn spec_new(start: Coord, end: Coord, diff: BezierDiff) -> Bezier {
        match diff {
            BezierDiff::ToBezier2 => Bezier::Bezier2(start, end),
            BezierDiff::ToBezier3(p) => Bezier::Bezier3(start, p, end),
            BezierDiff::ToBezier4(p1, p2) => Bezier::Bezier4(start, p1, p2, end),
        }
    }

    /// Builds the curve with the given endpoints and interior control points.
    pub fn new(start: Coord, end: Coord, diff: BezierDiff) -> (r: Bezier)
        ensures
            r == Bezier::spec_new(start, end, diff),
    {
        match diff {
            BezierDiff::ToBezier2 => Bezier::Bezier2(start, end),
            BezierDiff::ToBezier3(p) => Bezier::Bezier3(start, p, end),
            BezierDiff::ToBezier4(p1, p2) => Bezier::Bezier4(start, p1, p2, end),
        }
    }

    pub open spec fn spec_apply_diff(self, diff: BezierDiff) -> Bezier {
        Bezier::spec_new(self.spec_start(), self.spec_end(), diff)
    }

    /// Replaces the interior control points, keeping both endpoints fixed.
    pub fn apply_diff(&mut self, diff: BezierDiff)
        ensures
            *final(self) == old(self).spec_apply_diff(diff),
            final(self).spec_start() == old(self).spec_start(),
            final(self).spec_end() == old(self).spec_end(),
    {
        let start = self.start();
        let end = self.end();
        *self = match diff {
            BezierDiff::ToBezier2 => Bezier::Bezier2(start, end),
            BezierDiff::ToBezier3(p) => Bezier::Bezier3(start, p, end),
            BezierDiff::ToBezier4(p1, p2) => Bezier::Bezier4(start, p1, p2, end),
        };
    }

    /// Rebuilding a curve from its endpoints and its own diff gives the
    /// curve back.
    pub proof fn lemma_rebuild(self)
        ensures
            Bezier::spec_new(self.spec_start(), self.spec_end(), self.spec_get_diff()) == self,
    {
    }

    pub open spec fn spec_get_diff(self) -> BezierDiff {
        match self {
            Bezier::Bezier2(_, _) => BezierDiff::ToBezier2,
            Bezier::Bezier3(_, p, _) => BezierDiff::ToBezier3(p),
            Bezier::Bezier4(_, p1, p2, _) => BezierDiff::ToBezier4(p1, p2),
        }
    }

    /// The interior control points of this curve, as the diff that rebuilds
    /// it from its endpoints.
    pub fn get_diff(&self) -> (r: BezierDiff)
        ensures
            r == self.spec_get_diff(),
            Bezier::spec_new(self.spec_start(), self.spec_end(), r) == *self,
    {
        match self {
            Bezier::Bezier2(_, _) => BezierDiff::ToBezier2,
            Bezier::Bezier3(_, p, _) => BezierDiff::ToBezier3(*p),
            Bezier::Bezier4(_, p1, p2, _) => BezierDiff::ToBezier4(*p1, *p2),
        }
    }
}

} // verus!
