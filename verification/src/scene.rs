use vstd::prelude::*;

use crate::arith::clamp_i64;
use crate::game::Game;
use crate::piece::{cells, columns_fit, lemma_shape_span, placed, shape, Fall, Kind, COLS, ROWS};
use crate::well::{clear_for, gap_in_range, has, inside, lemma_landing_unique, open_below, stops_at, Well};

verus! {

/// Row `y` lies in the visible part of the well.
pub open spec fn on_screen(y: i64) -> bool {
    0 <= y < ROWS
}

/// The cells of piece `p` after falling `d` rows (rows saturating).
pub open spec fn sunk(p: Fall, d: i64, c: (i32, i64)) -> bool {
    exists|i: int| 0 <= i < 4 && c.0 == #[trigger] placed(p)[i].0 && c.1 == clamp_i64(placed(p)[i].1 + d)
}

/// No visible cell of `cs` occurs twice.
pub open spec fn visible_distinct(cs: Seq<(i32, i64)>) -> bool {
    forall|i: int, j: int| 0 <= i < j < cs.len() && on_screen(cs[i].1) ==> cs[i] != cs[j]
}

/// The visible cells among `cs`.
fn visible(cs: [(i32, i64); 4]) -> (res: Vec<(i32, i64)>)
    ensures
        forall|c: (i32, i64)| #[trigger] res@.contains(c) <==> cs@.contains(c) && on_screen(c.1),
        visible_distinct(cs@) ==> res@.no_duplicates(),
{
    let mut out: Vec<(i32, i64)> = Vec::new();
    let mut i: usize = 0;
    while i < 4
        invariant
            i <= 4,
            forall|c: (i32, i64)| #[trigger] out@.contains(c) <==> cs@.take(i as int).contains(c) && on_screen(c.1),
            visible_distinct(cs@) ==> out@.no_duplicates(),
        decreases 4 - i,
    {
        let c = cs[i];
        let ghost before = out@;
        let ghost ni: int = i as int + 1;
        if 0 <= c.1 && c.1 < ROWS as i64 {
            proof {
                if visible_distinct(cs@) && out@.contains(c) {
                    assert(cs@.take(i as int).contains(c));
                    let j = choose|j: int| 0 <= j < i && cs@.take(i as int)[j] == c;
                    assert(cs@[j] == cs@[i as int]);
                }
                if visible_distinct(cs@) {
                    crate::glyphs::lemma_push_distinct(out@, c);
                }
            }
            out.push(c);
        }
        proof {
            assert(cs@.take(ni) =~= cs@.take(i as int).push(c));
            assert forall|q: (i32, i64)| #[trigger] out@.contains(q) <==> cs@.take(ni).contains(q) && on_screen(q.1) by {
                if out@.contains(q) && q != c {
                    let j = choose|j: int| 0 <= j < out@.len() && out@[j] == q;
                    assert(before[j] == q);
                    assert(before.contains(q));
                }
                if before.contains(q) {
                    let j = choose|j: int| 0 <= j < before.len() && before[j] == q;
                    assert(out@[j] == q);
                }
                if cs@.take(ni).contains(q) && q != c {
                    let j = choose|j: int| 0 <= j < ni && cs@.take(ni)[j] == q;
                    assert(cs@.take(i as int)[j] == q);
                }
                if cs@.take(i as int).contains(q) {
                    let j = choose|j: int| 0 <= j < i && cs@.take(i as int)[j] == q;
                    assert(cs@.take(ni)[j] == q);
                }
                if q == c && on_screen(c.1) {
                    assert(out@[out@.len() - 1] == c);
                    assert(cs@.take(ni)[i as int] == c);
                }
            }
        }
        i += 1;
    }
    proof {
        assert(cs@.take(4) =~= cs@);
    }
    out
}

/// Two cells of a piece that are visible after falling `d >= 0` rows are
/// different cells.
proof fn lemma_placed_distinct(p: Fall, d: int)
    requires
        0 <= d,
    ensures
        forall|i: int, j: int| 0 <= i < j < 4 && on_screen(clamp_i64(#[trigger] placed(p)[i].1 + d))
            ==> (placed(p)[i].0, clamp_i64(placed(p)[i].1 + d)) != (#[trigger] placed(p)[j].0, clamp_i64(placed(p)[j].1 + d)),
        forall|i: int, j: int| 0 <= i < j < 4 && on_screen(#[trigger] placed(p)[i].1) ==> placed(p)[i] != #[trigger] placed(p)[j],
{
    let sh = shape(p.k, (p.r % 4) as int);
    crate::piece::lemma_shape_distinct(p.k, (p.r % 4) as int);
    lemma_shape_span(p.k, (p.r % 4) as int);
    assert forall|i: int, j: int| 0 <= i < j < 4 && on_screen(clamp_i64(#[trigger] placed(p)[i].1 + d))
        implies (placed(p)[i].0, clamp_i64(placed(p)[i].1 + d)) != (#[trigger] placed(p)[j].0, clamp_i64(placed(p)[j].1 + d)) by {
        if (placed(p)[i].0, clamp_i64(placed(p)[i].1 + d)) == (placed(p)[j].0, clamp_i64(placed(p)[j].1 + d)) {
            lemma_same_column(p.x, sh[i].0, sh[j].0);
            assert(placed(p)[i].1 == placed(p)[j].1);
            assert(sh[i] == sh[j]);
        }
    }
    assert forall|i: int, j: int| 0 <= i < j < 4 && on_screen(#[trigger] placed(p)[i].1) implies placed(p)[i] != #[trigger] placed(p)[j] by {
        if placed(p)[i] == placed(p)[j] {
            lemma_same_column(p.x, sh[i].0, sh[j].0);
            assert(sh[i] == sh[j]);
        }
    }
}

/// Offsets within a box, added to the same column, land on the same column
/// (after wrapping to `i32`) only when they are equal.
proof fn lemma_same_column(x: i32, a: i32, b: i32)
    requires
        0 <= a <= 3,
        0 <= b <= 3,
    ensures
        (x + a) as i32 == (x + b) as i32 ==> a == b,
{
    assert((x + a) as i32 == (x + b) as i32 ==> a == b) by (bit_vector)
        requires 0 <= a <= 3, 0 <= b <= 3;
}

impl Well {
    /// The occupied cells in the visible part of the well, each once.
    pub fn shown(&self) -> (res: Vec<(i32, i64)>)
        ensures
            res@.no_duplicates(),
            forall|c: (i32, i64)| #[trigger] res@.contains(c) <==> 0 <= c.0 < COLS && on_screen(c.1)
                && self.rows@.contains_key(c.1) && has(self.rows@[c.1], c.0 as int),
    {
        let mut out: Vec<(i32, i64)> = Vec::new();
        let mut y: i64 = 0;
        while y < ROWS as i64
            invariant
                0 <= y <= ROWS,
                out@.no_duplicates(),
                forall|c: (i32, i64)| #[trigger] out@.contains(c) <==> 0 <= c.0 < COLS && 0 <= c.1 < y
                    && self.rows@.contains_key(c.1) && has(self.rows@[c.1], c.0 as int),
            decreases ROWS - y,
        {
            if let Some(m) = self.rows.get(&y) {
                let m = *m;
                let mut x: i32 = 0;
                while x < COLS
                    invariant
                        0 <= x <= COLS,
                        0 <= y < ROWS,
                        self.rows@.contains_key(y),
                        m == self.rows@[y],
                        out@.no_duplicates(),
                        forall|c: (i32, i64)| #[trigger] out@.contains(c) <==> 0 <= c.0 < COLS && (0 <= c.1 < y || (c.1 == y && c.0 < x))
                            && self.rows@.contains_key(c.1) && has(self.rows@[c.1], c.0 as int),
                    decreases COLS - x,
                {
                    let ghost before = out@;
                    if m & (1u16 << (x as u16)) != 0 {
                        proof {
                            assert(!out@.contains((x, y)));
                            crate::glyphs::lemma_push_distinct(out@, (x, y));
                        }
                        out.push((x, y));
                    }
                    proof {
                        assert forall|c: (i32, i64)| #[trigger] out@.contains(c) <==> 0 <= c.0 < COLS && (0 <= c.1 < y || (c.1 == y && c.0 < x + 1))
                            && self.rows@.contains_key(c.1) && has(self.rows@[c.1], c.0 as int) by {
                            if out@.contains(c) && c != (x, y) {
                                let j = choose|j: int| 0 <= j < out@.len() && out@[j] == c;
                                assert(before[j] == c);
                                assert(before.contains(c));
                            }
                            if before.contains(c) {
                                let j = choose|j: int| 0 <= j < before.len() && before[j] == c;
                                assert(out@[j] == c);
                            }
                            if c == (x, y) && has(m, x as int) {
                                assert(out@[out@.len() - 1] == c);
                            }
                        }
                    }
                    x += 1;
                }
            }
            y += 1;
        }
        out
    }
}

impl Game {
    /// The visible cells of the falling piece; none once the game is over.
    pub fn shown_piece(&self) -> (res: Vec<(i32, i64)>)
        requires
            columns_fit(self.now),
        ensures
            self.over ==> res@.len() == 0,
            !self.over ==> forall|c: (i32, i64)| #[trigger] res@.contains(c) <==> placed(self.now).contains(c) && on_screen(c.1),
            res@.no_duplicates(),
    {
        if self.over {
            return Vec::new();
        }
        proof {
            lemma_shape_span(self.now.k, (self.now.r % 4) as int);
        }
        proof {
            lemma_placed_distinct(self.now, 0);
        }
        visible(self.now.cells())
    }

    /// The visible cells of the drop shadow: where the piece would land, when
    /// it can fall at least one row onto something.
    pub fn ghost(&self) -> (res: Vec<(i32, i64)>)
        requires
            columns_fit(self.now),
            gap_in_range(self.well.rows@, self.now),
        ensures
            !inside(self.now) ==> res@.len() == 0,
            open_below(self.well.rows@, self.now, 4) ==> res@.len() == 0,
            inside(self.now) ==> forall|d: i64| clear_for(self.well.rows@, self.now, 4, d as int)
                && (exists|i: int| 0 <= i < 4 && #[trigger] stops_at(self.well.rows@, self.now, i, d as int)) ==> {
                &&& d <= 0 ==> res@.len() == 0
                &&& d > 0 ==> forall|c: (i32, i64)| #[trigger] res@.contains(c) <==> sunk(self.now, d, c) && on_screen(c.1)
            },
            res@.no_duplicates(),
    {
        proof {
            lemma_shape_span(self.now.k, (self.now.r % 4) as int);
        }
        match self.well.gap(&self.now) {
            Some(d) => {
                if d > 0 {
                    let c = self.now.cells();
                    let moved: [(i32, i64); 4] = [
                        (c[0].0, c[0].1.saturating_add(d)),
                        (c[1].0, c[1].1.saturating_add(d)),
                        (c[2].0, c[2].1.saturating_add(d)),
                        (c[3].0, c[3].1.saturating_add(d)),
                    ];
                    proof {
                        lemma_placed_distinct(self.now, d as int);
                        assert forall|i: int, j: int| 0 <= i < j < 4 && on_screen(moved@[i].1) implies moved@[i] != moved@[j] by {
                            assert(moved@[i] == (placed(self.now)[i].0, clamp_i64(placed(self.now)[i].1 + d)));
                            assert(moved@[j] == (placed(self.now)[j].0, clamp_i64(placed(self.now)[j].1 + d)));
                        }
                    }
                    let res = visible(moved);
                    proof {
                        assert forall|dd: i64| clear_for(self.well.rows@, self.now, 4, dd as int)
                            && (exists|i: int| 0 <= i < 4 && #[trigger] stops_at(self.well.rows@, self.now, i, dd as int)) implies dd == d by {
                            lemma_landing_unique(self.well.rows@, self.now, d as int, dd as int);
                            lemma_landing_unique(self.well.rows@, self.now, dd as int, d as int);
                        }
                        assert forall|q: (i32, i64)| moved@.contains(q) <==> sunk(self.now, d, q) by {
                            if moved@.contains(q) {
                                let j = choose|j: int| 0 <= j < 4 && moved@[j] == q;
                                assert(c@[j] == placed(self.now)[j]);
                            }
                            if sunk(self.now, d, q) {
                                let j = choose|j: int| 0 <= j < 4 && q.0 == #[trigger] placed(self.now)[j].0 && q.1 == clamp_i64(placed(self.now)[j].1 + d);
                                assert(moved@[j] == q);
                            }
                        }
                    }
                    res
                } else {
                    proof {
                        if inside(self.now) {
                            assert forall|dd: i64| clear_for(self.well.rows@, self.now, 4, dd as int)
                                && (exists|i: int| 0 <= i < 4 && #[trigger] stops_at(self.well.rows@, self.now, i, dd as int)) implies dd == d by {
                                lemma_landing_unique(self.well.rows@, self.now, d as int, dd as int);
                                lemma_landing_unique(self.well.rows@, self.now, dd as int, d as int);
                            }
                        }
                    }
                    Vec::new()
                }
            },
            None => {
                proof {
                    assert forall|dd: i64| clear_for(self.well.rows@, self.now, 4, dd as int)
                        && (exists|i: int| 0 <= i < 4 && #[trigger] stops_at(self.well.rows@, self.now, i, dd as int)) implies false by {
                        let i = choose|i: int| 0 <= i < 4 && #[trigger] stops_at(self.well.rows@, self.now, i, dd as int);
                    }
                }
                Vec::new()
            },
        }
    }
}

/// The least and greatest column and row of the cells of kind `k` in its
/// starting rotation.
pub fn extent(k: Kind) -> (res: (i32, i32, i32, i32))
    ensures
        forall|i: int| 0 <= i < 4 ==> res.0 <= #[trigger] shape(k, 0)[i].0 <= res.1 && res.2 <= shape(k, 0)[i].1 <= res.3,
        exists|i: int| 0 <= i < 4 && shape(k, 0)[i].0 == res.0,
        exists|i: int| 0 <= i < 4 && shape(k, 0)[i].0 == res.1,
        exists|i: int| 0 <= i < 4 && shape(k, 0)[i].1 == res.2,
        exists|i: int| 0 <= i < 4 && shape(k, 0)[i].1 == res.3,
{
    let c = cells(k, 0);
    let mut lo_x = c[0].0;
    let mut hi_x = c[0].0;
    let mut lo_y = c[0].1;
    let mut hi_y = c[0].1;
    let mut i: usize = 1;
    while i < 4
        invariant
            1 <= i <= 4,
            c@ == shape(k, 0),
            forall|j: int| 0 <= j < i ==> lo_x <= #[trigger] c@[j].0 <= hi_x && lo_y <= c@[j].1 <= hi_y,
            exists|j: int| 0 <= j < i && c@[j].0 == lo_x,
            exists|j: int| 0 <= j < i && c@[j].0 == hi_x,
            exists|j: int| 0 <= j < i && c@[j].1 == lo_y,
            exists|j: int| 0 <= j < i && c@[j].1 == hi_y,
        decreases 4 - i,
    {
        if c[i].0 < lo_x {
            lo_x = c[i].0;
        }
        if c[i].0 > hi_x {
            hi_x = c[i].0;
        }
        if c[i].1 < lo_y {
            lo_y = c[i].1;
        }
        if c[i].1 > hi_y {
            hi_y = c[i].1;
        }
        i += 1;
    }
    (lo_x, hi_x, lo_y, hi_y)
}

} // verus!
