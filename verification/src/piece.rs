use vstd::prelude::*;

use crate::arith::clamp_i64;

verus! {

/// Width of the well, in cells.
pub const COLS: i32 = 10;

/// Height of the visible part of the well, in cells.
pub const ROWS: i32 = 20;

/// Row index of a solid floor, if the well has one. This well is bottomless.
pub const FLOOR: Option<i64> = None;

/// How many rows on either side of the falling piece the well remembers.
pub const KEEP: i64 = 192;

/// Distance from the origin at which coordinates are rebased.
pub const SHIFT: i64 = 1_000_000;

/// The seven tetromino kinds.
#[derive(Clone, Copy, PartialEq, Eq, Structural, Debug)]
pub enum Kind {
    I,
    O,
    T,
    S,
    Z,
    J,
    L,
}

/// The four cells of kind `k` in rotation state `r` (0..4), as offsets inside
/// the piece's bounding box, in the order in which `cells` returns them.
pub open spec fn shape(k: Kind, r: int) -> Seq<(i32, i32)> {
    match k {
        Kind::I => if r == 0 {
            seq![(0i32, 1i32), (1, 1), (2, 1), (3, 1)]
        } else if r == 1 {
            seq![(2i32, 0i32), (2, 1), (2, 2), (2, 3)]
        } else if r == 2 {
            seq![(0i32, 2i32), (1, 2), (2, 2), (3, 2)]
        } else {
            seq![(1i32, 0i32), (1, 1), (1, 2), (1, 3)]
        },
        Kind::O => seq![(1i32, 0i32), (2, 0), (1, 1), (2, 1)],
        Kind::T => if r == 0 {
            seq![(1i32, 0i32), (0, 1), (1, 1), (2, 1)]
        } else if r == 1 {
            seq![(1i32, 0i32), (1, 1), (2, 1), (1, 2)]
        } else if r == 2 {
            seq![(0i32, 1i32), (1, 1), (2, 1), (1, 2)]
        } else {
            seq![(1i32, 0i32), (0, 1), (1, 1), (1, 2)]
        },
        Kind::S => if r == 0 {
            seq![(1i32, 0i32), (2, 0), (0, 1), (1, 1)]
        } else if r == 1 {
            seq![(1i32, 0i32), (1, 1), (2, 1), (2, 2)]
        } else if r == 2 {
            seq![(1i32, 1i32), (2, 1), (0, 2), (1, 2)]
        } else {
            seq![(0i32, 0i32), (0, 1), (1, 1), (1, 2)]
        },
        Kind::Z => if r == 0 {
            seq![(0i32, 0i32), (1, 0), (1, 1), (2, 1)]
        } else if r == 1 {
            seq![(2i32, 0i32), (1, 1), (2, 1), (1, 2)]
        } else if r == 2 {
            seq![(0i32, 1i32), (1, 1), (1, 2), (2, 2)]
        } else {
            seq![(1i32, 0i32), (0, 1), (1, 1), (0, 2)]
        },
        Kind::J => if r == 0 {
            seq![(0i32, 0i32), (0, 1), (1, 1), (2, 1)]
        } else if r == 1 {
            seq![(1i32, 0i32), (2, 0), (1, 1), (1, 2)]
        } else if r == 2 {
            seq![(0i32, 1i32), (1, 1), (2, 1), (2, 2)]
        } else {
            seq![(1i32, 0i32), (1, 1), (0, 2), (1, 2)]
        },
        Kind::L => if r == 0 {
            seq![(2i32, 0i32), (0, 1), (1, 1), (2, 1)]
        } else if r == 1 {
            seq![(1i32, 0i32), (1, 1), (1, 2), (2, 2)]
        } else if r == 2 {
            seq![(0i32, 1i32), (1, 1), (2, 1), (0, 2)]
        } else {
            seq![(0i32, 0i32), (1, 0), (1, 1), (1, 2)]
        },
    }
}

/// The cells of kind `k` in rotation `r % 4`, relative to the piece's corner.
pub fn cells(k: Kind, r: u8) -> (res: [(i32, i32); 4])
    ensures
        res@ == shape(k, (r % 4) as int),
{
    let q = r % 4;
    match k {
        Kind::I => if q == 0 {
            [(0, 1), (1, 1), (2, 1), (3, 1)]
        } else if q == 1 {
            [(2, 0), (2, 1), (2, 2), (2, 3)]
        } else if q == 2 {
            [(0, 2), (1, 2), (2, 2), (3, 2)]
        } else {
            [(1, 0), (1, 1), (1, 2), (1, 3)]
        },
        Kind::O => [(1, 0), (2, 0), (1, 1), (2, 1)],
        Kind::T => if q == 0 {
            [(1, 0), (0, 1), (1, 1), (2, 1)]
        } else if q == 1 {
            [(1, 0), (1, 1), (2, 1), (1, 2)]
        } else if q == 2 {
            [(0, 1), (1, 1), (2, 1), (1, 2)]
        } else {
            [(1, 0), (0, 1), (1, 1), (1, 2)]
        },
        Kind::S => if q == 0 {
            [(1, 0), (2, 0), (0, 1), (1, 1)]
        } else if q == 1 {
            [(1, 0), (1, 1), (2, 1), (2, 2)]
        } else if q == 2 {
            [(1, 1), (2, 1), (0, 2), (1, 2)]
        } else {
            [(0, 0), (0, 1), (1, 1), (1, 2)]
        },
        Kind::Z => if q == 0 {
            [(0, 0), (1, 0), (1, 1), (2, 1)]
        } else if q == 1 {
            [(2, 0), (1, 1), (2, 1), (1, 2)]
        } else if q == 2 {
            [(0, 1), (1, 1), (1, 2), (2, 2)]
        } else {
            [(1, 0), (0, 1), (1, 1), (0, 2)]
        },
        Kind::J => if q == 0 {
            [(0, 0), (0, 1), (1, 1), (2, 1)]
        } else if q == 1 {
            [(1, 0), (2, 0), (1, 1), (1, 2)]
        } else if q == 2 {
            [(0, 1), (1, 1), (2, 1), (2, 2)]
        } else {
            [(1, 0), (1, 1), (0, 2), (1, 2)]
        },
        Kind::L => if q == 0 {
            [(2, 0), (0, 1), (1, 1), (2, 1)]
        } else if q == 1 {
            [(1, 0), (1, 1), (1, 2), (2, 2)]
        } else if q == 2 {
            [(0, 1), (1, 1), (2, 1), (0, 2)]
        } else {
            [(0, 0), (1, 0), (1, 1), (1, 2)]
        },
    }
}

/// The wall-kick offsets tried, in order, when a piece turns from rotation
/// state `a` to `b` (both taken modulo 4); `long` selects the I piece's table.
/// Turns between states that are not neighbours try only staying in place.
pub open spec fn kick_table(long: bool, a: int, b: int) -> Seq<(i32, i32)> {
    if long {
        if a == 0 && b == 1 {
            seq![(0i32, 0i32), (-2i32, 0), (1, 0), (-2i32, -1i32), (1, 2)]
        } else if a == 1 && b == 0 {
            seq![(0i32, 0i32), (2, 0), (-1i32, 0), (2, 1), (-1i32, -2i32)]
        } else if a == 1 && b == 2 {
            seq![(0i32, 0i32), (-1i32, 0), (2, 0), (-1i32, 2), (2, -1i32)]
        } else if a == 2 && b == 1 {
            seq![(0i32, 0i32), (1, 0), (-2i32, 0), (1, -2i32), (-2i32, 1)]
        } else if a == 2 && b == 3 {
            seq![(0i32, 0i32), (2, 0), (-1i32, 0), (2, 1), (-1i32, -2i32)]
        } else if a == 3 && b == 2 {
            seq![(0i32, 0i32), (-2i32, 0), (1, 0), (-2i32, -1i32), (1, 2)]
        } else if a == 3 && b == 0 {
            seq![(0i32, 0i32), (1, 0), (-2i32, 0), (1, -2i32), (-2i32, 1)]
        } else if a == 0 && b == 3 {
            seq![(0i32, 0i32), (-1i32, 0), (2, 0), (-1i32, 2), (2, -1i32)]
        } else {
            seq![(0i32, 0i32), (0, 0), (0, 0), (0, 0), (0, 0)]
        }
    } else {
        if a == 0 && b == 1 {
            seq![(0i32, 0i32), (-1i32, 0), (-1i32, 1), (0, -2i32), (-1i32, -2i32)]
        } else if a == 1 && b == 0 {
            seq![(0i32, 0i32), (1, 0), (1, -1i32), (0, 2), (1, 2)]
        } else if a == 1 && b == 2 {
            seq![(0i32, 0i32), (1, 0), (1, -1i32), (0, 2), (1, 2)]
        } else if a == 2 && b == 1 {
            seq![(0i32, 0i32), (-1i32, 0), (-1i32, 1), (0, -2i32), (-1i32, -2i32)]
        } else if a == 2 && b == 3 {
            seq![(0i32, 0i32), (1, 0), (1, 1), (0, -2i32), (1, -2i32)]
        } else if a == 3 && b == 2 {
            seq![(0i32, 0i32), (-1i32, 0), (-1i32, -1i32), (0, 2), (-1i32, 2)]
        } else if a == 3 && b == 0 {
            seq![(0i32, 0i32), (-1i32, 0), (-1i32, -1i32), (0, 2), (-1i32, 2)]
        } else if a == 0 && b == 3 {
            seq![(0i32, 0i32), (1, 0), (1, 1), (0, -2i32), (1, -2i32)]
        } else {
            seq![(0i32, 0i32), (0, 0), (0, 0), (0, 0), (0, 0)]
        }
    }
}

/// The offsets to try when piece kind `k` turns from state `a` to state `b`.
pub fn kicks(k: Kind, a: u8, b: u8) -> (res: [(i32, i32); 5])
    ensures
        res@ == kick_table(k == Kind::I, (a % 4) as int, (b % 4) as int),
{
    let long = k == Kind::I;
    let a = a % 4;
    let b = b % 4;
    if long {
        if a == 0 && b == 1 {
            [(0, 0), (-2, 0), (1, 0), (-2, -1), (1, 2)]
        } else if a == 1 && b == 0 {
            [(0, 0), (2, 0), (-1, 0), (2, 1), (-1, -2)]
        } else if a == 1 && b == 2 {
            [(0, 0), (-1, 0), (2, 0), (-1, 2), (2, -1)]
        } else if a == 2 && b == 1 {
            [(0, 0), (1, 0), (-2, 0), (1, -2), (-2, 1)]
        } else if a == 2 && b == 3 {
            [(0, 0), (2, 0), (-1, 0), (2, 1), (-1, -2)]
        } else if a == 3 && b == 2 {
            [(0, 0), (-2, 0), (1, 0), (-2, -1), (1, 2)]
        } else if a == 3 && b == 0 {
            [(0, 0), (1, 0), (-2, 0), (1, -2), (-2, 1)]
        } else if a == 0 && b == 3 {
            [(0, 0), (-1, 0), (2, 0), (-1, 2), (2, -1)]
        } else {
            [(0, 0); 5]
        }
    } else {
        if a == 0 && b == 1 {
            [(0, 0), (-1, 0), (-1, 1), (0, -2), (-1, -2)]
        } else if a == 1 && b == 0 {
            [(0, 0), (1, 0), (1, -1), (0, 2), (1, 2)]
        } else if a == 1 && b == 2 {
            [(0, 0), (1, 0), (1, -1), (0, 2), (1, 2)]
        } else if a == 2 && b == 1 {
            [(0, 0), (-1, 0), (-1, 1), (0, -2), (-1, -2)]
        } else if a == 2 && b == 3 {
            [(0, 0), (1, 0), (1, 1), (0, -2), (1, -2)]
        } else if a == 3 && b == 2 {
            [(0, 0), (-1, 0), (-1, -1), (0, 2), (-1, 2)]
        } else if a == 3 && b == 0 {
            [(0, 0), (-1, 0), (-1, -1), (0, 2), (-1, 2)]
        } else if a == 0 && b == 3 {
            [(0, 0), (1, 0), (1, 1), (0, -2), (1, -2)]
        } else {
            [(0, 0); 5]
        }
    }
}

/// Every cell of every shape lies inside a four-by-four box.
pub proof fn lemma_shape_span(k: Kind, r: int)
    ensures
        shape(k, r).len() == 4,
        forall|i: int| 0 <= i < 4 ==> 0 <= #[trigger] shape(k, r)[i].0 <= 3 && 0 <= shape(k, r)[i].1 <= 3,
{
}

/// The four cells of every shape are different cells.
pub proof fn lemma_shape_distinct(k: Kind, r: int)
    ensures
        forall|i: int, j: int| 0 <= i < j < 4 ==> #[trigger] shape(k, r)[i] != #[trigger] shape(k, r)[j],
{
}

/// No two kinds share a shape: in whatever rotation states, some cell of kind
/// `k1` is not a cell of a different kind `k2`.
#[verifier::rlimit(50)]
pub proof fn lemma_kinds_differ(k1: Kind, r1: int, k2: Kind, r2: int)
    requires
        k1 != k2,
        0 <= r1 < 4,
        0 <= r2 < 4,
    ensures
        exists|i: int| 0 <= i < 4 && !shape(k2, r2).contains(#[trigger] shape(k1, r1)[i]),
{
    let a = shape(k1, r1);
    let b = shape(k2, r2);
    assert(b.len() == 4);
    assert forall|c: (i32, i32)| b.contains(c) implies c == b[0] || c == b[1] || c == b[2] || c == b[3] by {
        let j = choose|j: int| 0 <= j < b.len() && b[j] == c;
    }
    assert((a[0] != b[0] && a[0] != b[1] && a[0] != b[2] && a[0] != b[3])
        || (a[1] != b[0] && a[1] != b[1] && a[1] != b[2] && a[1] != b[3])
        || (a[2] != b[0] && a[2] != b[1] && a[2] != b[2] && a[2] != b[3])
        || (a[3] != b[0] && a[3] != b[1] && a[3] != b[2] && a[3] != b[3]));
}

/// The side of the square box in which kind `k` turns: four for the I piece,
/// three for the others.
pub open spec fn box_side(k: Kind) -> int {
    if k == Kind::I { 4 } else { 3 }
}

/// A cell of a box of side `n` after a clockwise quarter turn of the box
/// (rows grow downward).
pub open spec fn quarter_turn(c: (i32, i32), n: int) -> (i32, i32) {
    ((n - 1 - c.1) as i32, c.0)
}

/// Turning clockwise is a quarter turn of the piece's box: the cells of
/// rotation state `r + 1` are those of state `r` turned a quarter clockwise,
/// for every kind but O, whose four states are one and the same.
pub proof fn lemma_turn_is_quarter_turn(k: Kind, r: int)
    requires
        0 <= r < 4,
    ensures
        k != Kind::O ==> shape(k, (r + 1) % 4).to_set() == shape(k, r).map_values(|c: (i32, i32)| quarter_turn(c, box_side(k))).to_set(),
        k == Kind::O ==> shape(k, (r + 1) % 4) == shape(k, r),
{
    let a = shape(k, (r + 1) % 4);
    let b = shape(k, r).map_values(|c: (i32, i32)| quarter_turn(c, box_side(k)));
    if k != Kind::O {
        assert(b.len() == 4);
        assert(b[0] == quarter_turn(shape(k, r)[0], box_side(k)));
        assert(b[1] == quarter_turn(shape(k, r)[1], box_side(k)));
        assert(b[2] == quarter_turn(shape(k, r)[2], box_side(k)));
        assert(b[3] == quarter_turn(shape(k, r)[3], box_side(k)));
        assert forall|c: (i32, i32)| a.contains(c) <==> b.contains(c) by {
            if a.contains(c) {
                let i = choose|i: int| 0 <= i < a.len() && a[i] == c;
            }
            if b.contains(c) {
                let i = choose|i: int| 0 <= i < b.len() && b[i] == c;
            }
        }
        assert(a.to_set() =~= b.to_set());
    }
}

/// Kicks follow the side state of the turn. For J, L, S, T and Z, a turn into
/// state 1 or 3 tries the same kicks from either neighbour, and so does a turn
/// out of state 1 or 3; the first kick after staying in place moves one
/// column left on a turn out of state 3 or into state 1, and one column right
/// on a turn out of state 1 or into state 3. For I, a turn tries the same
/// kicks as the opposite turn between the opposite states.
pub proof fn lemma_kicks_follow_side(a: int, b: int)
    requires
        0 <= a < 4,
        0 <= b < 4,
        b == (a + 1) % 4 || a == (b + 1) % 4,
    ensures
        b % 2 == 1 ==> kick_table(false, a, b) == kick_table(false, (a + 2) % 4, b),
        a % 2 == 1 ==> kick_table(false, a, b) == kick_table(false, a, (b + 2) % 4),
        a == 3 || b == 1 ==> kick_table(false, a, b)[1] == (-1i32, 0i32),
        a == 1 || b == 3 ==> kick_table(false, a, b)[1] == (1i32, 0i32),
        kick_table(true, a, b) == kick_table(true, (b + 2) % 4, (a + 2) % 4),
{
}

/// Every turn between neighbouring states first tries staying in place, and
/// turning back tries the opposite offsets of turning there: the kicks of
/// `b -> a` are the negated kicks of `a -> b`.
pub proof fn lemma_kicks_undo(long: bool, a: int, b: int, i: int)
    requires
        0 <= a < 4,
        0 <= b < 4,
        b == (a + 1) % 4 || a == (b + 1) % 4,
        0 <= i < 5,
    ensures
        kick_table(long, a, b)[0] == (0i32, 0i32),
        kick_table(long, b, a)[i].0 == -kick_table(long, a, b)[i].0,
        kick_table(long, b, a)[i].1 == -kick_table(long, a, b)[i].1,
{
}

/// The absolute cells of piece `p`: each shape offset added to the corner, the
/// row clamped to the range of `i64`.
pub open spec fn placed(p: Fall) -> Seq<(i32, i64)> {
    shape(p.k, (p.r % 4) as int).map_values(
        |c: (i32, i32)| ((p.x + c.0) as i32, clamp_i64(p.y + c.1)),
    )
}

/// Every column of `p`'s cells fits in `i32`.
pub open spec fn columns_fit(p: Fall) -> bool {
    forall|i: int| 0 <= i < 4 ==> p.x + #[trigger] shape(p.k, (p.r % 4) as int)[i].0 <= i32::MAX
}

/// A falling piece: its kind, the column and row of its box's corner, and its
/// rotation state.
#[derive(Clone, Copy)]
pub struct Fall {
    pub k: Kind,
    pub x: i32,
    pub y: i64,
    pub r: u8,
}

impl Fall {
    /// The four cells that the piece covers.
    pub fn cells(&self) -> (res: [(i32, i64); 4])
        requires
            columns_fit(*self),
        ensures
            res@ == placed(*self),
    {
        let c = cells(self.k, self.r);
        proof {
            assert(c@[0] == shape(self.k, (self.r % 4) as int)[0]);
            assert(c@[1] == shape(self.k, (self.r % 4) as int)[1]);
            assert(c@[2] == shape(self.k, (self.r % 4) as int)[2]);
            assert(c@[3] == shape(self.k, (self.r % 4) as int)[3]);
        }
        let res = [
            (self.x + c[0].0, self.y.saturating_add(c[0].1 as i64)),
            (self.x + c[1].0, self.y.saturating_add(c[1].1 as i64)),
            (self.x + c[2].0, self.y.saturating_add(c[2].1 as i64)),
            (self.x + c[3].0, self.y.saturating_add(c[3].1 as i64)),
        ];
        assert(res@ =~= placed(*self));
        res
    }

    /// The same piece moved by `dx` columns and `dy` rows (the row saturating)
    /// and put in rotation state `r`.
    pub fn at(&self, dx: i32, dy: i64, r: u8) -> (res: Fall)
        requires
            i32::MIN <= self.x + dx <= i32::MAX,
        ensures
            res == (Fall { k: self.k, x: (self.x + dx) as i32, y: clamp_i64(self.y + dy), r }),
    {
        Fall { k: self.k, x: self.x + dx, y: self.y.saturating_add(dy), r }
    }
}

} // verus!
