//! Axial hex coordinates: a hex `(x, y)` has the cube coordinates `(x, y, -x - y)`.
use vstd::prelude::*;
use crate::vec_set::SetElem;

verus! {

#[derive(Debug, Clone, Copy, PartialEq, Eq, Structural, Hash)]
pub struct Hex {
    pub x: i32,
    pub y: i32,
}

pub open spec fn abs(v: int) -> int {
    if v < 0 {
        -v
    } else {
        v
    }
}

/// The number of steps between two hexes.
pub open spec fn hex_distance(a: Hex, b: Hex) -> int {
    (abs(b.x - a.x) + abs(b.y - a.y) + abs((b.x - a.x) + (b.y - a.y))) / 2
}

/// The six directions, each raising one cube coordinate and lowering another.
#[derive(Debug, Clone, Copy, PartialEq, Eq, Structural, Hash)]
pub enum Direction {
    XY,
    XZ,
    YZ,
    YX,
    ZX,
    ZY,
}

pub open spec fn spec_delta(d: Direction) -> (int, int) {
    match d {
        Direction::XY => (1, -1),
        Direction::XZ => (1, 0),
        Direction::YZ => (0, 1),
        Direction::YX => (-1, 1),
        Direction::ZX => (-1, 0),
        Direction::ZY => (0, -1),
    }
}

pub open spec fn spec_directions() -> Seq<Direction> {
    seq![
        Direction::XY,
        Direction::XZ,
        Direction::YZ,
        Direction::YX,
        Direction::ZX,
        Direction::ZY,
    ]
}

/// The hex one step from `h` in direction `d`.
pub open spec fn spec_step(h: Hex, d: Direction) -> Hex {
    Hex { x: (h.x + spec_delta(d).0) as i32, y: (h.y + spec_delta(d).1) as i32 }
}

/// The six neighbors of `h`, in the order of `spec_directions`.
pub open spec fn spec_neighbors(h: Hex) -> Seq<Hex> {
    spec_directions().map_values(|d: Direction| spec_step(h, d))
}

impl Direction {
    /// All six directions.
    pub fn all() -> (r: Vec<Direction>)
        ensures
            r@ == spec_directions(),
    {
        let r = vec![
            Direction::XY,
            Direction::XZ,
            Direction::YZ,
            Direction::YX,
            Direction::ZX,
            Direction::ZY,
        ];
        assert(r@ =~= spec_directions());
        r
    }

    /// The change in `(x, y)` of one step in this direction.
    pub fn delta(&self) -> (r: (i32, i32))
        ensures
            r.0 == spec_delta(*self).0,
            r.1 == spec_delta(*self).1,
    {
        match self {
            Direction::XY => (1, -1),
            Direction::XZ => (1, 0),
            Direction::YZ => (0, 1),
            Direction::YX => (-1, 1),
            Direction::ZX => (-1, 0),
            Direction::ZY => (0, -1),
        }
    }
}

impl Hex {
    /// Whether every neighbor of this hex has coordinates that fit.
    pub open spec fn interior(self) -> bool {
        i32::MIN < self.x < i32::MAX && i32::MIN < self.y < i32::MAX
    }

    /// The hex `(0, 0)`.
    pub fn origin() -> (r: Hex)
        ensures
            r == (Hex { x: 0, y: 0 }),
    {
        Hex { x: 0, y: 0 }
    }

    pub fn distance_to(&self, other: Hex) -> (r: i64)
        ensures
            r == hex_distance(*self, other),
            r >= 0,
    {
        let dx = other.x as i64 - self.x as i64;
        let dy = other.y as i64 - self.y as i64;
        let s = dx + dy;
        let ax = if dx < 0 {
            -dx
        } else {
            dx
        };
        let ay = if dy < 0 {
            -dy
        } else {
            dy
        };
        let az = if s < 0 {
            -s
        } else {
            s
        };
        (ax + ay + az) / 2
    }

    /// The hex one step away in direction `d`.
    pub fn step(&self, d: Direction) -> (r: Hex)
        requires
            self.interior(),
        ensures
            r == spec_step(*self, d),
            hex_distance(*self, r) == 1,
    {
        let (dx, dy) = d.delta();
        Hex { x: self.x + dx, y: self.y + dy }
    }

    /// The six neighbors of this hex.
    pub fn neighbors(&self) -> (r: Vec<Hex>)
        requires
            self.interior(),
        ensures
            r@ == spec_neighbors(*self),
            forall|i: int| 0 <= i < r@.len() ==> hex_distance(*self, #[trigger] r@[i]) == 1,
    {
        let dirs = Direction::all();
        let mut out: Vec<Hex> = Vec::new();
        let mut i: usize = 0;
        while i < dirs.len()
            invariant
                self.interior(),
                dirs@ == spec_directions(),
                i <= dirs@.len(),
                out@ == spec_directions().take(i as int).map_values(|d: Direction| spec_step(*self, d)),
                forall|j: int| 0 <= j < out@.len() ==> hex_distance(*self, #[trigger] out@[j]) == 1,
            decreases dirs@.len() - i,
        {
            let h = self.step(dirs[i]);
            out.push(h);
            assert(spec_directions().take(i + 1) =~= spec_directions().take(i as int).push(dirs@[i as int]));
            assert(out@ =~= spec_directions().take(i + 1).map_values(|d: Direction| spec_step(*self, d)));
            i = i + 1;
        }
        assert(spec_directions().take(6) =~= spec_directions());
        out
    }

    /// Every hex within `radius` steps of this one, each once.
    pub fn area(&self, radius: i32) -> (r: Vec<Hex>)
        requires
            radius < 0 || (i32::MIN <= self.x - radius && self.x + radius <= i32::MAX && i32::MIN
                <= self.y - radius && self.y + radius <= i32::MAX),
        ensures
            r@.no_duplicates(),
            forall|h: Hex| #[trigger] r@.contains(h) <==> hex_distance(*self, h) <= radius,
            radius >= 0 ==> r@.len() <= (2 * radius + 1) * (2 * radius + 1),
    {
        let mut out: Vec<Hex> = Vec::new();
        if radius < 0 {
            proof {
                assert forall|h: Hex| #[trigger] out@.contains(h) <==> hex_distance(*self, h)
                    <= radius by {
                    assert(hex_distance(*self, h) >= 0);
                }
            }
            return out;
        }
        let r = radius as i64;
        let mut dx: i64 = -r;
        while dx <= r
            invariant
                0 <= r <= i32::MAX,
                r == radius,
                -r <= dx <= r + 1,
                i32::MIN <= self.x - radius,
                self.x + radius <= i32::MAX,
                i32::MIN <= self.y - radius,
                self.y + radius <= i32::MAX,
                out@.no_duplicates(),
                out@.len() <= (dx + r) * (2 * r + 1),
                forall|h: Hex| #[trigger] out@.contains(h) <==> (hex_distance(*self, h) <= radius
                    && h.x - self.x < dx),
            decreases r + 1 - dx,
        {
            let mut dy: i64 = -r;
            let ghost row_start = out@;
            while dy <= r
                invariant
                    0 <= r <= i32::MAX,
                    r == radius,
                    -r <= dx <= r,
                    -r <= dy <= r + 1,
                    i32::MIN <= self.x - radius,
                    self.x + radius <= i32::MAX,
                    i32::MIN <= self.y - radius,
                    self.y + radius <= i32::MAX,
                    out@.no_duplicates(),
                    out@.len() <= (dx + r) * (2 * r + 1) + (dy + r),
                    forall|h: Hex| #[trigger] out@.contains(h) <==> (hex_distance(*self, h)
                        <= radius && (h.x - self.x < dx || (h.x - self.x == dx && h.y - self.y
                        < dy))),
                decreases r + 1 - dy,
            {
                let s = dx + dy;
                if -r <= s && s <= r {
                    let h = Hex { x: (self.x as i64 + dx) as i32, y: (self.y as i64 + dy) as i32 };
                    proof {
                        assert(!out@.contains(h));
                        assert forall|h2: Hex| #[trigger] out@.push(h).contains(h2) <==> (
                        hex_distance(*self, h2) <= radius && (h2.x - self.x < dx || (h2.x
                            - self.x == dx && h2.y - self.y < dy + 1))) by {
                            vstd::seq_lib::lemma_seq_contains_after_push(out@, h, h2);
                        }
                    }
                    out.push(h);
                } else {
                    proof {
                        assert forall|h2: Hex| #[trigger] out@.contains(h2) <==> (hex_distance(
                            *self,
                            h2,
                        ) <= radius && (h2.x - self.x < dx || (h2.x - self.x == dx && h2.y
                            - self.y < dy + 1))) by {
                            if h2.x - self.x == dx && h2.y - self.y == dy {
                                assert(hex_distance(*self, h2) > radius);
                            }
                        }
                    }
                }
                dy = dy + 1;
            }
            proof {
                assert((dx + r) * (2 * r + 1) + (2 * r + 1) == (dx + 1 + r) * (2 * r + 1)) by (nonlinear_arith);
                assert forall|h: Hex| #[trigger] out@.contains(h) <==> (hex_distance(*self, h)
                    <= radius && h.x - self.x < dx + 1) by {
                    if h.x - self.x == dx && hex_distance(*self, h) <= radius {
                        assert(h.y - self.y <= r);
                    }
                }
            }
            dx = dx + 1;
        }
        proof {
            assert forall|h: Hex| #[trigger] out@.contains(h) <==> hex_distance(*self, h) <= radius by {
                if hex_distance(*self, h) <= radius {
                    assert(h.x - self.x <= r);
                }
            }
        }
        out
    }
}

impl SetElem for Hex {
    fn same(&self, other: &Hex) -> (r: bool) {
        self.x == other.x && self.y == other.y
    }
}

/// Distance does not depend on the direction it is measured in, and is zero only between
/// a hex and itself.
pub proof fn law_distance_symmetric(a: Hex, b: Hex)
    ensures
        hex_distance(a, b) == hex_distance(b, a),
        hex_distance(a, b) >= 0,
        hex_distance(a, b) == 0 <==> a == b,
{
}

/// Going by way of a third hex is never shorter.
pub proof fn law_distance_triangle(a: Hex, b: Hex, c: Hex)
    ensures
        hex_distance(a, c) <= hex_distance(a, b) + hex_distance(b, c),
{
    let (x1, y1) = (b.x - a.x, b.y - a.y);
    let (x2, y2) = (c.x - b.x, c.y - b.y);
    let s_ab = abs(x1) + abs(y1) + abs(x1 + y1);
    let s_bc = abs(x2) + abs(y2) + abs(x2 + y2);
    let s_ac = abs(x1 + x2) + abs(y1 + y2) + abs(x1 + x2 + y1 + y2);
    assert(s_ac <= s_ab + s_bc);
    assert(s_ab % 2 == 0 && s_bc % 2 == 0 && s_ac % 2 == 0);
    assert(hex_distance(a, b) == s_ab / 2);
    assert(hex_distance(b, c) == s_bc / 2);
    assert(hex_distance(a, c) == s_ac / 2);
}

/// The neighbors of a hex are exactly the hexes one step from it.
pub proof fn law_neighbors_are_adjacent(h: Hex, n: Hex)
    requires
        h.interior(),
    ensures
        spec_neighbors(h).contains(n) <==> hex_distance(h, n) == 1,
{
    if hex_distance(h, n) == 1 {
        let dx = n.x - h.x;
        let dy = n.y - h.y;
        let d = if dx == 1 && dy == -1 {
            Direction::XY
        } else if dx == 1 && dy == 0 {
            Direction::XZ
        } else if dx == 0 && dy == 1 {
            Direction::YZ
        } else if dx == -1 && dy == 1 {
            Direction::YX
        } else if dx == -1 && dy == 0 {
            Direction::ZX
        } else {
            Direction::ZY
        };
        let k: int = match d {
            Direction::XY => 0,
            Direction::XZ => 1,
            Direction::YZ => 2,
            Direction::YX => 3,
            Direction::ZX => 4,
            Direction::ZY => 5,
        };
        assert(spec_neighbors(h)[k] == n);
    }
    if spec_neighbors(h).contains(n) {
        let k = choose|k: int| 0 <= k < spec_neighbors(h).len() && spec_neighbors(h)[k] == n;
        assert(spec_neighbors(h)[k] == spec_step(h, spec_directions()[k]));
    }
}

} // verus!
