use vstd::prelude::*;

pub mod color;
pub mod laws;
pub mod math;
pub mod space;
pub mod state;

verus! {

/// Positions, speeds and distances are fixed-point: 1000 milli-units to one
/// world unit. Coordinates are kept inside `[-COORD_LIMIT, COORD_LIMIT]`.
pub const COORD_LIMIT: i64 = 1_000_000_000;

/// A plane vector in milli-units.
#[derive(Clone, Copy, PartialEq, Eq, Structural, Debug)]
pub struct Vec2 {
    pub x: i64,
    pub y: i64,
}

/// Both coordinates lie inside the world box.
pub open spec fn in_world(v: Vec2) -> bool {
    -COORD_LIMIT <= v.x <= COORD_LIMIT && -COORD_LIMIT <= v.y <= COORD_LIMIT
}

/// The squared Euclidean norm, as an unbounded integer.
pub open spec fn norm_sq(x: int, y: int) -> int {
    x * x + y * y
}

impl Vec2 {
    pub fn zero() -> (r: Vec2)
        ensures
            r == (Vec2 { x: 0, y: 0 }),
    {
        Vec2 { x: 0, y: 0 }
    }

    /// Squared distance between two in-world points; it never overflows.
    pub fn dist_sq(self, other: Vec2) -> (r: u64)
        requires
            in_world(self),
            in_world(other),
        ensures
            r == norm_sq(other.x - self.x, other.y - self.y),
    {
        let dx: i64 = other.x - self.x;
        let dy: i64 = other.y - self.y;
        proof {
            lemma_square_bound(dx as int, 2_000_000_000);
            lemma_square_bound(dy as int, 2_000_000_000);
        }
        (dx * dx + dy * dy) as u64
    }

    /// Squared norm of an in-world vector.
    pub fn len_sq(self) -> (r: u64)
        requires
            in_world(self),
        ensures
            r == norm_sq(self.x as int, self.y as int),
    {
        proof {
            lemma_square_bound(self.x as int, COORD_LIMIT as int);
            lemma_square_bound(self.y as int, COORD_LIMIT as int);
        }
        (self.x * self.x + self.y * self.y) as u64
    }
}

/// `|v| <= b` bounds `v * v` by `b * b`, and the square is non-negative.
pub proof fn lemma_square_bound(v: int, b: int)
    requires
        -b <= v <= b,
    ensures
        0 <= v * v <= b * b,
{
    assert(0 <= v * v <= b * b) by (nonlinear_arith)
        requires
            -b <= v <= b,
    ;
}

} // verus!
