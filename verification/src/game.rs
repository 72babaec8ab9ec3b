use vstd::prelude::*;

use crate::arith::{clamp_i64, clamp_u64};
use crate::bag::{dealt, fisher_yates, fresh_bag, whole_bag, Queue};
use crate::ledger::{paid, payable, title, Ledger, Spin};
use crate::piece::{
    cells, columns_fit, kick_table, kicks, lemma_shape_span, placed, shape, Fall, Kind, COLS, FLOOR, KEEP,
    ROWS, SHIFT,
};
use crate::well::{
    clear_for, cleared, columns_in_mask, filled, full_rows, gap_in_range, inside, open_below,
    pruned, room_for, rows_within, shifted, stamped_first, stops_at, under, Well,
};

verus! {

/// How many times the lock delay may be restarted by moving a resting piece.
pub const RESETS: u8 = 15;

/// Where a new piece's box starts: `ROWS` above the floor, or row 0 without one.
pub open spec fn origin_row() -> i64 {
    match FLOOR {
        Some(f) => clamp_i64(f - ROWS),
        None => 0,
    }
}

/// Piece `p` moved by `dx` columns and `dy` rows (the row saturating) and put
/// in rotation state `r`.
pub open spec fn moved(p: Fall, dx: int, dy: int, r: u8) -> Fall {
    Fall { k: p.k, x: (p.x + dx) as i32, y: clamp_i64(p.y + dy), r }
}

/// Piece `p` rests: one row lower it would overlap something solid.
pub open spec fn rests(rows: Map<i64, u16>, p: Fall) -> bool {
    !room_for(rows, moved(p, 0, 1, p.r))
}

/// The cell diagonal to the centre of a T piece's box, `dx` columns and `dy`
/// rows away, is solid.
pub open spec fn corner(rows: Map<i64, u16>, p: Fall, dx: int, dy: int) -> bool {
    filled(rows, p.x + 1 + dx, (p.y + 1 + dy) as i64)
}

/// The spin that a lock of piece `p` counts as: only a T piece whose last move
/// was a turn can spin; it needs three of the four corners around its centre
/// solid, and it is a full spin when both corners on its pointing side are
/// solid or the turn needed the last kick, a mini spin otherwise.
pub open spec fn spin_of(rows: Map<i64, u16>, p: Fall, turned: bool, kick: usize) -> Spin {
    if p.k != Kind::T || !turned {
        Spin::Plain
    } else {
        let c0 = corner(rows, p, -1, -1);
        let c1 = corner(rows, p, 1, -1);
        let c2 = corner(rows, p, -1, 1);
        let c3 = corner(rows, p, 1, 1);
        let count = (if c0 { 1int } else { 0 }) + (if c1 { 1int } else { 0 }) + (if c2 { 1int } else { 0 })
            + (if c3 { 1int } else { 0 });
        let face = if p.r % 4 == 0 {
            c0 && c1
        } else if p.r % 4 == 1 {
            c1 && c3
        } else if p.r % 4 == 2 {
            c2 && c3
        } else {
            c0 && c2
        };
        if count < 3 {
            Spin::Plain
        } else if face || kick == 4 {
            Spin::Full
        } else {
            Spin::Mini
        }
    }
}

/// The lock-delay restarts left after a move that leaves the piece at `p`: one
/// fewer when the piece now rests and any remain.
pub open spec fn touched(left: u8, rows: Map<i64, u16>, p: Fall) -> u8 {
    if rests(rows, p) && left > 0 {
        (left - 1) as u8
    } else {
        left
    }
}

/// The rotation state that turning piece `p` by `s` quarter turns aims for.
pub open spec fn turn_target(p: Fall, s: i8) -> u8 {
    (((p.r as i8) + s) % 4) as u8
}

/// The `i`-th placement tried when piece `p` turns by `s`: the target
/// rotation, shifted by the `i`-th kick (a kick's second component counts
/// upward).
pub open spec fn candidate(p: Fall, s: i8, i: int) -> Fall {
    moved(p, kick_of(p, s, i).0 as int, -(kick_of(p, s, i).1 as int), turn_target(p, s))
}

/// The `i`-th kick offset tried when piece `p` turns by `s`.
pub open spec fn kick_of(p: Fall, s: i8, i: int) -> (i32, i32) {
    kick_table(p.k == Kind::I, (p.r % 4) as int, (turn_target(p, s) % 4) as int)[i]
}

/// Turning piece `p` by `s` in a well with rows `rows` involves no
/// overflowing arithmetic: the target rotation is computed without overflow,
/// and so is each placement that is tried, that is each one after placements
/// that did not fit.
pub open spec fn turn_in_range(rows: Map<i64, u16>, p: Fall, s: i8) -> bool {
    p.k != Kind::O ==> {
        &&& i8::MIN <= (p.r as i8) + s <= i8::MAX
        &&& forall|i: int|
            0 <= i < 5 && (forall|j: int| 0 <= j < i ==> !room_for(rows, #[trigger] candidate(p, s, j)))
                ==> i32::MIN <= p.x + #[trigger] kick_of(p, s, i).0 <= i32::MAX && columns_fit(candidate(p, s, i))
    }
}

/// The least row index of `rows` (meaningful when it has a row).
pub open spec fn least_row(rows: Map<i64, u16>) -> i64 {
    choose|t: i64| rows.contains_key(t) && forall|k: i64| #[trigger] rows.contains_key(k) ==> t <= k
}

/// The row where a new piece is placed, given the well's rows and the row of
/// the piece that just locked: four rows above the topmost row (above the
/// locked piece's row when the well is empty), or the starting row of a well
/// with a floor.
pub open spec fn spawn_row(rows: Map<i64, u16>, y: i64) -> i64 {
    match FLOOR {
        Some(_) => origin_row(),
        None => if rows.dom().is_empty() {
            clamp_i64(y - 4)
        } else {
            clamp_i64(least_row(rows) - 4)
        },
    }
}

/// Coordinates are moved back to the origin once the piece is `SHIFT` rows
/// away from it, in a well without a floor.
pub open spec fn far_out(y: i64) -> bool {
    FLOOR is None && (y >= SHIFT || y <= -SHIFT)
}

/// `h` is game `g` after its piece locked with announcement `msg`: the piece's
/// cells are added to the well, the spin is judged on that well, the full rows
/// are cleared and paid for, far rows are forgotten, the next piece is born
/// (ending the game when it does not fit) and a new next piece is pulled, and
/// coordinates are rebased when the new piece is far out.
#[verifier::opaque]
pub open spec fn settles(g: Game, h: Game, msg: Seq<char>) -> bool {
    exists|stamped: Map<i64, u16>, swept: Map<i64, u16>|
        #[trigger] stamped_first(g.well.rows@, stamped, g.now, 4) && #[trigger] cleared(stamped, swept) && {
        let spin = spin_of(stamped, g.now, g.turned, g.kick);
        let n = full_rows(stamped).len() as u32;
        let near = pruned(swept, g.now.y);
        let born = Fall { k: g.next, x: 3, y: spawn_row(near, g.now.y), r: 0 };
        &&& msg == title(spin, n as int)
        &&& paid(g.ledger, h.ledger, spin, n)
        &&& dealt(g.bag, h.bag, h.next)
        &&& h.over == (g.over || !room_for(near, born))
        &&& h.left == RESETS
        &&& !h.turned
        &&& h.kick == g.kick
        &&& if far_out(born.y) {
            h.now == (Fall { y: 0, ..born }) && h.well.rows@ == shifted(near, born.y)
        } else {
            h.now == born && h.well.rows@ == near
        }
    }
}

/// Game `g` after its piece is dropped `d` rows straight down: a real drop
/// earns two points a row and ends any spin.
pub open spec fn dropped(g: Game, d: i64) -> Game {
    if d > 0 {
        Game {
            now: Fall { y: clamp_i64(g.now.y + d), ..g.now },
            ledger: Ledger { score: clamp_u64(g.ledger.score + 2 * d), ..g.ledger },
            turned: false,
            ..g
        }
    } else {
        g
    }
}

/// `d` is how far piece `p` falls in a hard drop on `rows`: the least
/// distance that brings one of its cells onto an obstacle, or 0 when it sticks
/// out of the walls.
pub open spec fn lands(rows: Map<i64, u16>, p: Fall, d: i64) -> bool {
    if inside(p) {
        &&& 0 <= d
        &&& clear_for(rows, p, 4, d as int)
        &&& exists|i: int| 0 <= i < 4 && stops_at(rows, p, i, d as int)
    } else {
        d == 0
    }
}

/// `h` is game `g` after a hard drop announced by `msg`: the piece falls as
/// far as it lands (see `lands`), and then locks.
pub open spec fn drops_to(g: Game, h: Game, msg: Seq<char>) -> bool {
    exists|d: i64| lands(g.well.rows@, g.now, d) && #[trigger] settles(dropped(g, d), h, msg)
}

/// Scoring the lock of piece `p` cannot overflow ledger `l`: judged on `rows`
/// with the piece stamped in, the spin and the number of full rows are payable.
pub open spec fn lock_payable(rows: Map<i64, u16>, p: Fall, l: Ledger, turned: bool, kick: usize) -> bool {
    forall|st: Map<i64, u16>| #[trigger] stamped_first(rows, st, p, 4)
        ==> payable(l, spin_of(st, p, turned, kick), full_rows(st).len() as u32)
}

/// What follows the lock of piece `p` on `rows` stays in range: once the
/// piece is stamped in and the full rows are cleared, every row is a
/// representable distance from the piece, and, without a floor, the next
/// piece's row is above the low end of `i64`.
pub open spec fn lock_leaves_range(rows: Map<i64, u16>, p: Fall) -> bool {
    forall|st: Map<i64, u16>, sw: Map<i64, u16>|
        #[trigger] stamped_first(rows, st, p, 4) && #[trigger] cleared(st, sw) ==> {
            &&& rows_within(sw, p.y)
            &&& FLOOR is None ==> spawn_row(pruned(sw, p.y), p.y) != i64::MIN
        }
}

/// A lock of piece `p` can run without overflow on a well with rows `rows`, a
/// ledger `l` and the given record of the last turn: the piece's columns are
/// representable and are bit positions of a row mask, the counters have room
/// for what the lock will pay, for a T piece that may spin its centre's
/// neighbours are representable, and what follows the lock stays in range.
pub open spec fn lock_ready(rows: Map<i64, u16>, p: Fall, l: Ledger, turned: bool, kick: usize) -> bool {
    &&& columns_fit(p)
    &&& columns_in_mask(p)
    &&& lock_payable(rows, p, l, turned, kick)
    &&& p.k == Kind::T && turned ==> p.x + 2 <= i32::MAX && p.y + 2 <= i64::MAX
    &&& lock_leaves_range(rows, p)
}

/// The whole game apart from its clocks: the well, the falling piece, the next
/// kind, the score, whether the game is over, the bag (`bag@` holds the kinds
/// still to come after `next`), how many lock-delay restarts remain, and how
/// the piece last moved (turned, and with which kick).
pub struct Game {
    pub well: Well,
    pub now: Fall,
    pub next: Kind,
    pub ledger: Ledger,
    pub over: bool,
    pub bag: Queue,
    pub left: u8,
    pub turned: bool,
    pub kick: usize,
}

impl Game {
    /// The falling piece is between the walls, its corner within three columns
    /// of them, and its rotation state is one of the four.
    pub open spec fn steady(&self) -> bool {
        &&& inside(self.now)
        &&& -3 <= self.now.x < COLS
        &&& self.now.r < 4
    }

    /// A fresh game: an empty well, the first piece of a fresh bag at column 3
    /// of the starting row, the second as the next piece.
    pub fn new() -> (res: Self)
        ensures
            res.well.rows@ == Map::<i64, u16>::empty(),
            res.now == (Fall { k: res.now.k, x: 3, y: origin_row(), r: 0 }),
            whole_bag(res.bag@.push(res.next).push(res.now.k)),
            res.bag@.push(res.next).push(res.now.k) == fisher_yates(fresh_bag(), res.bag.draws()),
            res.ledger.score == 0 && res.ledger.lines == 0 && res.ledger.combo == -1 && !res.ledger.b2b,
            !res.over,
            res.left == RESETS,
            !res.turned,
            res.kick == 0,
            res.steady(),
            res.unblocked(),
    {
        let mut bag = Queue::new();
        let first = bag.pull();
        let ghost after_first = bag@;
        let now = Fall { k: first, x: 3, y: Self::origin(), r: 0 };
        let next = bag.pull();
        proof {
            assert(bag@.push(next) =~= after_first);
        }
        let res = Self {
            well: Well::new(),
            now,
            next,
            ledger: Ledger::new(),
            over: false,
            bag,
            left: RESETS,
            turned: false,
            kick: 0,
        };
        proof {
            crate::well::lemma_void(res.now);
        }
        res
    }

    /// The piece rests: one row lower it would not fit.
    pub fn resting(&self) -> (res: bool)
        requires
            columns_fit(self.now),
        ensures
            res == rests(self.well.rows@, self.now),
    {
        !self.well.fits(&self.now.at(0, 1, self.now.r))
    }

    /// Restarts the lock delay, if any restarts remain, when the piece rests.
    fn touch(&mut self)
        requires
            columns_fit(old(self).now),
        ensures
            *final(self) == (Game { left: touched(old(self).left, old(self).well.rows@, old(self).now), ..*old(self) }),
    {
        if self.resting() && self.left > 0 {
            self.left -= 1;
        }
    }

    /// Moves the piece by `dx` columns and `dy` rows if it fits there; a move
    /// that succeeds ends any spin and may restart the lock delay.
    pub fn slide(&mut self, dx: i32, dy: i64) -> (res: bool)
        requires
            i32::MIN <= old(self).now.x + dx <= i32::MAX,
            columns_fit(moved(old(self).now, dx as int, dy as int, old(self).now.r)),
        ensures
            res == room_for(old(self).well.rows@, moved(old(self).now, dx as int, dy as int, old(self).now.r)),
            res ==> *final(self) == (Game {
                now: moved(old(self).now, dx as int, dy as int, old(self).now.r),
                turned: false,
                left: touched(old(self).left, old(self).well.rows@, moved(old(self).now, dx as int, dy as int, old(self).now.r)),
                ..*old(self)
            }),
            !res ==> *final(self) == *old(self),
            old(self).steady() ==> final(self).steady(),
            old(self).unblocked() ==> final(self).unblocked(),
            old(self).moves_on(*final(self)),
    {
        let p = self.now.at(dx, dy, self.now.r);
        if self.well.fits(&p) {
            proof {
                lemma_room_inside(self.well.rows@, p);
            }
            self.now = p;
            self.turned = false;
            self.touch();
            true
        } else {
            false
        }
    }

    /// Turns the piece by `s` quarter turns (positive is clockwise), trying the
    /// wall kicks in order and taking the first placement that fits. The O
    /// piece turns in place and always succeeds.
    pub fn rot(&mut self, s: i8) -> (res: bool)
        requires
            old(self).now.k == Kind::O ==> columns_fit(old(self).now),
            turn_in_range(old(self).well.rows@, old(self).now, s),
        ensures
            old(self).now.k == Kind::O ==> res && *final(self) == (Game {
                turned: true,
                kick: 0,
                left: touched(old(self).left, old(self).well.rows@, old(self).now),
                ..*old(self)
            }),
            old(self).now.k != Kind::O ==> {
                &&& res == exists|i: int| 0 <= i < 5 && room_for(old(self).well.rows@, #[trigger] candidate(old(self).now, s, i))
                &&& res ==> {
                    &&& final(self).kick < 5
                    &&& room_for(old(self).well.rows@, candidate(old(self).now, s, final(self).kick as int))
                    &&& forall|j: int| 0 <= j < final(self).kick ==> !room_for(old(self).well.rows@, #[trigger] candidate(old(self).now, s, j))
                    &&& *final(self) == (Game {
                        now: candidate(old(self).now, s, final(self).kick as int),
                        turned: true,
                        kick: final(self).kick,
                        left: touched(old(self).left, old(self).well.rows@, candidate(old(self).now, s, final(self).kick as int)),
                        ..*old(self)
                    })
                }
                &&& !res ==> *final(self) == *old(self)
            },
            old(self).steady() ==> final(self).steady(),
            old(self).unblocked() ==> final(self).unblocked(),
            old(self).moves_on(*final(self)),
    {
        if self.now.k == Kind::O {
            self.turned = true;
            self.kick = 0;
            self.touch();
            return true;
        }
        let a = self.now.r;
        let b = (a as i8 + s).rem_euclid(4) as u8;
        let ks = kicks(self.now.k, a, b);
        assert(b == turn_target(self.now, s));
        let mut i: usize = 0;
        while i < 5
            invariant
                i <= 5,
                *self == *old(self),
                turn_in_range(old(self).well.rows@, old(self).now, s),
                old(self).now.k != Kind::O,
                a == old(self).now.r,
                b == turn_target(old(self).now, s),
                ks@ == kick_table(old(self).now.k == Kind::I, (a % 4) as int, (b % 4) as int),
                forall|j: int| 0 <= j < i ==> !room_for(old(self).well.rows@, #[trigger] candidate(old(self).now, s, j)),
            decreases 5 - i,
        {
            let (kx, ky) = ks[i];
            assert(ks@[i as int] == kick_of(old(self).now, s, i as int));
            assert(i32::MIN <= old(self).now.x + kick_of(old(self).now, s, i as int).0 <= i32::MAX);
            assert(columns_fit(candidate(old(self).now, s, i as int)));
            let p = self.now.at(kx, -(ky as i64), b);
            assert(p == candidate(old(self).now, s, i as int));
            if self.well.fits(&p) {
                proof {
                    lemma_room_inside(self.well.rows@, p);
                }
                self.now = p;
                self.turned = true;
                self.kick = i;
                self.touch();
                return true;
            }
            i += 1;
        }
        false
    }

    /// How the current piece would count as a spin if it locked now.
    pub fn spin(&self) -> (res: Spin)
        requires
            self.now.k == Kind::T && self.turned ==> self.now.x + 2 <= i32::MAX && self.now.y + 2 <= i64::MAX,
        ensures
            res == spin_of(self.well.rows@, self.now, self.turned, self.kick),
    {
        spin_in(&self.well, &self.now, self.turned, self.kick)
    }

    /// A lock can run on this game without overflow (see `lock_ready`).
    pub open spec fn lockable(&self) -> bool {
        lock_ready(self.well.rows@, self.now, self.ledger, self.turned, self.kick)
    }

    /// A hard drop can run on this game without overflow: the piece's columns
    /// are representable, the distances to what lies below it fit in an `i64`,
    /// and the game with the piece moved to where it lands can lock.
    pub open spec fn droppable(&self) -> bool {
        &&& columns_fit(self.now)
        &&& gap_in_range(self.well.rows@, self.now)
        &&& forall|d: i64| #[trigger] lands(self.well.rows@, self.now, d) ==> dropped(*self, d).lockable()
    }

    /// The falling piece overlaps nothing solid.
    pub open spec fn unblocked(&self) -> bool {
        room_for(self.well.rows@, self.now)
    }

    /// `next` moves on from this game: the score and the row count have not
    /// dropped, a game that is over stays over, and while the game runs the
    /// piece stays clear of the stack.
    pub open spec fn moves_on(&self, next: Game) -> bool {
        &&& next.ledger.score >= self.ledger.score
        &&& next.ledger.lines >= self.ledger.lines
        &&& self.over ==> next.over
        &&& self.over || self.unblocked() ==> next.over || next.unblocked()
    }

    /// Whether the piece is steady (see `steady`).
    pub fn is_steady(&self) -> (res: bool)
        ensures
            res == self.steady(),
    {
        if !(-3 <= self.now.x && self.now.x < COLS) || self.now.r >= 4 {
            return false;
        }
        proof {
            lemma_shape_span(self.now.k, (self.now.r % 4) as int);
        }
        let c = self.now.cells();
        let mut i: usize = 0;
        while i < 4
            invariant
                i <= 4,
                c@ == placed(self.now),
                forall|j: int| 0 <= j < i ==> 0 <= #[trigger] placed(self.now)[j].0 < COLS,
            decreases 4 - i,
        {
            if !(0 <= c[i].0 && c[i].0 < COLS) {
                return false;
            }
            i += 1;
        }
        true
    }

    /// Whether the piece's columns are representable and are bit positions of
    /// a row mask.
    pub fn columns_ok(&self) -> (res: bool)
        ensures
            res == (columns_fit(self.now) && columns_in_mask(self.now)),
    {
        columns_ready(&self.now)
    }

    /// Whether a lock can run now (see `lockable`).
    pub fn can_lock(&self) -> (res: bool)
        ensures
            res == self.lockable(),
    {
        lock_ok(&self.well, &self.now, &self.ledger, self.turned, self.kick)
    }

    /// Whether a hard drop can run now (see `droppable`). It measures the drop
    /// and tries the lock where the piece would land.
    pub fn can_drop(&self) -> (res: bool)
        ensures
            res == self.droppable(),
    {
        if !columns_sound(&self.now) || !self.well.gap_ok(&self.now) {
            return false;
        }
        let ghost rows = self.well.rows@;
        match self.well.gap(&self.now) {
            None => {
                proof {
                    assert forall|e: i64| !#[trigger] lands(rows, self.now, e) by {
                        if lands(rows, self.now, e) {
                            let i = choose|i: int| 0 <= i < 4 && stops_at(rows, self.now, i, e as int);
                            if exists|ry: i64| #[trigger] under(rows, self.now, i, ry) && e == ry - placed(self.now)[i].1 - 1 {
                                let ry = choose|ry: i64| #[trigger] under(rows, self.now, i, ry) && e == ry - placed(self.now)[i].1 - 1;
                            }
                        }
                    }
                }
                true
            },
            Some(d) => {
                proof {
                    lemma_lands_once(rows, self.now, d);
                }
                let (y, score, turned) = if d > 0 {
                    (self.now.y.saturating_add(d), self.ledger.score.saturating_add(2 * d as u64), false)
                } else {
                    (self.now.y, self.ledger.score, self.turned)
                };
                let p = Fall { k: self.now.k, x: self.now.x, y, r: self.now.r };
                let l = Ledger { score, lines: self.ledger.lines, combo: self.ledger.combo, b2b: self.ledger.b2b };
                let ok = lock_ok(&self.well, &p, &l, turned, self.kick);
                proof {
                    let h = dropped(*self, d);
                    assert(h.now == p && h.ledger == l && h.turned == turned && h.kick == self.kick && h.well == self.well);
                }
                ok
            },
        }
    }

    /// Puts a new piece of kind `k` at column 3 above the stack; the game is
    /// over when it does not fit. The new piece has every lock-delay restart
    /// and has not turned.
    fn birth(&mut self, k: Kind)
        ensures
            *final(self) == (Game {
                now: Fall { k, x: 3, y: spawn_row(old(self).well.rows@, old(self).now.y), r: 0 },
                over: old(self).over || !room_for(old(self).well.rows@, Fall { k, x: 3, y: spawn_row(old(self).well.rows@, old(self).now.y), r: 0 }),
                left: RESETS,
                turned: false,
                ..*old(self)
            }),
            !old(self).well.rows@.dom().is_empty() ==> old(self).well.rows@.contains_key(least_row(old(self).well.rows@))
                && forall|k: i64| #[trigger] old(self).well.rows@.contains_key(k) ==> least_row(old(self).well.rows@) <= k,
    {
        proof {
            if !self.well.rows@.dom().is_empty() {
                let w = self.well.rows@.dom().choose();
                assert(self.well.rows@.contains_key(w));
            }
        }
        let y = match FLOOR {
            Some(_) => Self::origin(),
            None => {
                let t = self.well.top();
                proof {
                    if let Some(tt) = t {
                        assert(self.well.rows@.contains_key(tt));
                        let c = least_row(self.well.rows@);
                        assert(self.well.rows@.contains_key(c) && forall|k: i64| #[trigger] self.well.rows@.contains_key(k) ==> c <= k);
                        assert(c <= tt && tt <= c);
                    }
                }
                match t {
                    Some(t) => t,
                    None => self.now.y,
                }.saturating_sub(4)
            },
        };
        let p = Fall { k, x: 3, y, r: 0 };
        if !self.well.fits(&p) {
            self.over = true;
        }
        self.now = p;
        self.left = RESETS;
        self.turned = false;
    }

    /// Moves the coordinates back to the origin once the piece is far out:
    /// the rows move with it and the piece's row becomes 0.
    fn rebase(&mut self)
        requires
            old(self).now.y != i64::MIN,
            rows_within(old(self).well.rows@, old(self).now.y),
        ensures
            far_out(old(self).now.y) ==> final(self).well.rows@ == shifted(old(self).well.rows@, old(self).now.y)
                && *final(self) == (Game { now: Fall { y: 0, ..old(self).now }, well: final(self).well, ..*old(self) }),
            !far_out(old(self).now.y) ==> *final(self) == *old(self),
    {
        if FLOOR.is_some() {
            return;
        }
        let y = self.now.y;
        if y.abs() < SHIFT {
            return;
        }
        self.well.shift(y);
        self.now.y = 0;
    }

    /// Locks the piece: stamps it, scores the spin and the cleared rows,
    /// forgets far rows, brings in the next piece and pulls a new next one, and
    /// rebases the coordinates when needed. Returns the announcement.
    pub fn settle(&mut self) -> (res: &'static str)
        requires
            old(self).lockable(),
        ensures
            settles(*old(self), *final(self), res@),
            final(self).steady(),
            !final(self).over ==> final(self).unblocked(),
            old(self).moves_on(*final(self)),
    {
        let ghost g = *self;
        let (msg, Ghost(stamped)) = self.lock_in();
        let ghost swept = self.well.rows@;
        let ghost mid = *self;
        self.succeed();
        proof {
            assert(mid.now == g.now && mid.next == g.next && mid.bag == g.bag && mid.over == g.over && mid.kick == g.kick);
            assert(stamped_first(g.well.rows@, stamped, g.now, 4) && cleared(stamped, swept));
            crate::ledger::lemma_pay_never_lowers(g.ledger, mid.ledger,
                spin_of(stamped, g.now, g.turned, g.kick), full_rows(stamped).len() as u32);
            reveal(settles);
        }
        msg
    }

    /// The first half of a lock: stamps the piece, judges the spin on the
    /// stamped well, clears full rows and pays for them. Returns the
    /// announcement and the stamped rows.
    fn lock_in(&mut self) -> (res: (&'static str, Ghost<Map<i64, u16>>))
        requires
            old(self).lockable(),
        ensures
            stamped_first(old(self).well.rows@, res.1@, old(self).now, 4),
            cleared(res.1@, final(self).well.rows@),
            res.0@ == title(spin_of(res.1@, old(self).now, old(self).turned, old(self).kick), full_rows(res.1@).len() as u32 as int),
            paid(old(self).ledger, final(self).ledger, spin_of(res.1@, old(self).now, old(self).turned, old(self).kick), full_rows(res.1@).len() as u32),
            *final(self) == (Game { well: final(self).well, ledger: final(self).ledger, ..*old(self) }),
            rows_within(final(self).well.rows@, old(self).now.y),
            FLOOR is None ==> spawn_row(pruned(final(self).well.rows@, old(self).now.y), old(self).now.y) != i64::MIN,
    {
        let ghost g = *self;
        proof {
            lemma_shape_span(self.now.k, (self.now.r % 4) as int);
        }
        self.well.stamp(&self.now);
        let ghost stamped = self.well.rows@;
        let spin = self.spin();
        let c = self.now.cells();
        let ys: [i64; 4] = [c[0].1, c[1].1, c[2].1, c[3].1];
        let n = self.well.clear(ys.as_slice());
        let ghost swept = self.well.rows@;
        let msg = self.ledger.pay(spin, n);
        proof {
            assert(stamped_first(g.well.rows@, stamped, g.now, 4) && cleared(stamped, swept));
        }
        (msg, Ghost(stamped))
    }

    /// The second half of a lock: forgets far rows, brings in the next piece,
    /// pulls a new next one and rebases the coordinates when needed.
    fn succeed(&mut self)
        requires
            rows_within(old(self).well.rows@, old(self).now.y),
            FLOOR is None ==> spawn_row(pruned(old(self).well.rows@, old(self).now.y), old(self).now.y) != i64::MIN,
        ensures
            ({
                let near = pruned(old(self).well.rows@, old(self).now.y);
                let born = Fall { k: old(self).next, x: 3, y: spawn_row(near, old(self).now.y), r: 0 };
                &&& dealt(old(self).bag, final(self).bag, final(self).next)
                &&& final(self).over == (old(self).over || !room_for(near, born))
                &&& final(self).left == RESETS
                &&& !final(self).turned
                &&& final(self).kick == old(self).kick
                &&& final(self).ledger == old(self).ledger
                &&& if far_out(born.y) {
                    final(self).now == (Fall { y: 0, ..born }) && final(self).well.rows@ == shifted(near, born.y)
                } else {
                    final(self).now == born && final(self).well.rows@ == near
                }
            }),
            final(self).steady(),
            !final(self).over ==> final(self).unblocked(),
    {
        self.well.prune(self.now.y);
        let ghost near = self.well.rows@;
        let heir = self.next;
        self.next = self.bag.pull();
        self.birth(heir);
        proof {
            let y0 = old(self).now.y;
            let y = self.now.y;
            assert forall|k: i64| #[trigger] near.contains_key(k) implies -KEEP <= k - y0 <= KEEP by {}
            if !near.dom().is_empty() {
                let t = least_row(near);
                assert(near.contains_key(t));
                assert(y == t - 4);
            }
            if !self.over && far_out(y) {
                lemma_rebase_keeps_room(near, self.now);
            }
        }
        self.rebase();
    }

    /// Drops the piece as far as it goes and locks it there, returning the
    /// announcement; without anything below the piece, nothing happens. A
    /// piece that sticks out of the walls locks where it is.
    pub fn drop(&mut self) -> (res: Option<&'static str>)
        requires
            old(self).droppable(),
        ensures
            inside(old(self).now) ==> (res is None <==> open_below(old(self).well.rows@, old(self).now, 4)),
            !inside(old(self).now) ==> res is Some,
            res is None ==> *final(self) == *old(self),
            res matches Some(m) ==> drops_to(*old(self), *final(self), m@) && final(self).steady(),
            res is Some && !final(self).over ==> final(self).unblocked(),
            old(self).moves_on(*final(self)),
    {
        let ghost g = *self;
        match self.well.gap(&self.now) {
            Some(d) => {
                proof {
                    lemma_lands_once(g.well.rows@, g.now, d);
                }
                self.land(d);
                let m = self.settle();
                assert(settles(dropped(g, d), *self, m@));
                assert(drops_to(g, *self, m@));
                Some(m)
            },
            None => None,
        }
    }

    /// Moves the piece `d` rows down for a hard drop, paying two points a row.
    fn land(&mut self, d: i64)
        requires
            0 <= d,
        ensures
            *final(self) == dropped(*old(self), d),
    {
        if d > 0 {
            self.now.y = self.now.y.saturating_add(d);
            self.ledger.score = self.ledger.score.saturating_add(2 * d as u64);
            self.turned = false;
        }
    }

    /// One step of gravity: moves the piece a row down if it fits there (a
    /// soft-dropped step earns a point in a well with a floor). Returns whether
    /// the piece reached a new row.
    pub fn fall(&mut self, soft: bool) -> (res: bool)
        requires
            columns_fit(old(self).now),
        ensures
            ({
                let p = moved(old(self).now, 0, 1, old(self).now.r);
                &&& room_for(old(self).well.rows@, p) ==> {
                    &&& *final(self) == (Game {
                        now: p,
                        turned: false,
                        left: touched(old(self).left, old(self).well.rows@, p),
                        ledger: Ledger {
                            score: if FLOOR is Some && soft { clamp_u64(old(self).ledger.score + 1) } else { old(self).ledger.score },
                            ..old(self).ledger
                        },
                        ..*old(self)
                    })
                    &&& res == (p.y != old(self).now.y)
                }
                &&& !room_for(old(self).well.rows@, p) ==> *final(self) == *old(self) && !res
            }),
            old(self).steady() ==> final(self).steady(),
            old(self).unblocked() ==> final(self).unblocked(),
            old(self).moves_on(*final(self)),
    {
        proof {
            lemma_shape_span(self.now.k, (self.now.r % 4) as int);
        }
        let y0 = self.now.y;
        if self.slide(0, 1) {
            if FLOOR.is_some() && soft {
                self.ledger.score = self.ledger.score.saturating_add(1);
            }
            self.now.y != y0
        } else {
            false
        }
    }

    /// Whether the piece rests; a piece in the air gets every lock-delay
    /// restart back.
    pub fn ground(&mut self) -> (res: bool)
        requires
            columns_fit(old(self).now),
        ensures
            res == rests(old(self).well.rows@, old(self).now),
            res ==> *final(self) == *old(self),
            !res ==> *final(self) == (Game { left: RESETS, ..*old(self) }),
            old(self).moves_on(*final(self)),
    {
        proof {
            lemma_shape_span(self.now.k, (self.now.r % 4) as int);
        }
        if self.resting() {
            true
        } else {
            self.left = RESETS;
            false
        }
    }

    /// The end of a frame: forgets rows far from the piece and rebases the
    /// coordinates when the piece is far out. Afterwards, in a well without a
    /// floor, the piece is within `SHIFT` rows of the origin and every row is
    /// within `KEEP` rows of the piece.
    pub fn tidy(&mut self)
        requires
            old(self).now.y != i64::MIN,
            rows_within(old(self).well.rows@, old(self).now.y),
        ensures
            ({
                let near = pruned(old(self).well.rows@, old(self).now.y);
                if far_out(old(self).now.y) {
                    final(self).well.rows@ == shifted(near, old(self).now.y)
                        && *final(self) == (Game { now: Fall { y: 0, ..old(self).now }, well: final(self).well, ..*old(self) })
                } else {
                    final(self).well.rows@ == near
                        && *final(self) == (Game { well: final(self).well, ..*old(self) })
                }
            }),
            FLOOR is None ==> -SHIFT < final(self).now.y < SHIFT,
            old(self).steady() ==> final(self).steady(),
            old(self).unblocked() ==> final(self).unblocked(),
            old(self).moves_on(*final(self)),
            FLOOR is None ==> forall|k: i64| #[trigger] final(self).well.rows@.contains_key(k)
                ==> -KEEP <= k - final(self).now.y <= KEEP,
    {
        self.well.prune(self.now.y);
        proof {
            if old(self).unblocked() {
                assert forall|i: int| 0 <= i < 4 implies !filled(self.well.rows@, #[trigger] placed(self.now)[i].0 as int, placed(self.now)[i].1) by {
                    assert(!filled(old(self).well.rows@, placed(self.now)[i].0 as int, placed(self.now)[i].1));
                }
                if far_out(self.now.y) {
                    lemma_rebase_keeps_room(self.well.rows@, self.now);
                }
            }
        }
        self.rebase();
        proof {
            crate::well::lemma_inside_any_row(old(self).now, self.now.y);
        }
    }

    /// The row where a new piece starts.
    fn origin() -> (res: i64)
        ensures
            res == origin_row(),
    {
        match FLOOR {
            Some(f) => f.saturating_sub(ROWS as i64),
            None => 0,
        }
    }

}

/// Whether the columns of piece `p`'s cells are representable.
fn columns_sound(p: &Fall) -> (res: bool)
    ensures
        res == columns_fit(*p),
{
    let c = cells(p.k, p.r);
    let mut i: usize = 0;
    while i < 4
        invariant
            i <= 4,
            c@ == shape(p.k, (p.r % 4) as int),
            forall|j: int| 0 <= j < i ==> p.x + #[trigger] shape(p.k, (p.r % 4) as int)[j].0 <= i32::MAX,
        decreases 4 - i,
    {
        if p.x > i32::MAX - c[i].0 {
            return false;
        }
        i += 1;
    }
    true
}

/// Whether the columns of piece `p`'s cells are representable and are bit
/// positions of a row mask.
fn columns_ready(p: &Fall) -> (res: bool)
    ensures
        res == (columns_fit(*p) && columns_in_mask(*p)),
{
    let c = cells(p.k, p.r);
    let mut i: usize = 0;
    while i < 4
        invariant
            i <= 4,
            c@ == shape(p.k, (p.r % 4) as int),
            forall|j: int| 0 <= j < i ==> p.x + #[trigger] shape(p.k, (p.r % 4) as int)[j].0 <= i32::MAX
                && 0 <= placed(*p)[j].0 < 16,
        decreases 4 - i,
    {
        if p.x > i32::MAX - c[i].0 {
            return false;
        }
        let x = p.x + c[i].0;
        assert(placed(*p)[i as int].0 == x);
        if !(0 <= x && x < 16) {
            return false;
        }
        i += 1;
    }
    true
}

/// Whether a lock of piece `p` can run (see `lock_ready`). It tries the lock
/// on a copy of the well.
fn lock_ok(well: &Well, p: &Fall, l: &Ledger, turned: bool, kick: usize) -> (res: bool)
    ensures
        res == lock_ready(well.rows@, *p, *l, turned, kick),
{
    let spins = p.k == Kind::T && turned;
    if !(columns_ready(p) && (!spins || (p.x <= i32::MAX - 2 && p.y <= i64::MAX - 2))) {
        return false;
    }
    let mut trial = Well { rows: well.rows.clone() };
    trial.stamp(p);
    let ghost st = trial.rows@;
    let spin = spin_in(&trial, p, turned, kick);
    let n = trial.clear(&[]);
    let ghost sw = trial.rows@;
    let pays = if n == 0 {
        match spin {
            Spin::Full => l.lv() <= u64::MAX / 400,
            Spin::Mini => l.lv() <= u64::MAX / 100,
            Spin::Plain => true,
        }
    } else {
        l.combo < i32::MAX
    };
    let in_range = if !trial.within(p.y) {
        false
    } else {
        match FLOOR {
            Some(_) => true,
            None => {
                trial.prune(p.y);
                let ghost near = trial.rows@;
                let t = trial.top();
                proof {
                    if let Some(tt) = t {
                        let c = least_row(near);
                        assert(near.contains_key(c) && forall|k: i64| #[trigger] near.contains_key(k) ==> c <= k);
                        assert(c <= tt && tt <= c);
                    }
                }
                match t {
                    Some(t) => t,
                    None => p.y,
                }.saturating_sub(4) != i64::MIN
            },
        }
    };
    proof {
        assert forall|other: Map<i64, u16>| #[trigger] stamped_first(well.rows@, other, *p, 4) implies other == st by {
            crate::well::lemma_stamp_unique(well.rows@, other, st, *p);
        }
        assert forall|a: Map<i64, u16>, b: Map<i64, u16>|
            #[trigger] stamped_first(well.rows@, a, *p, 4) && #[trigger] cleared(a, b) implies a == st && b == sw by {
            crate::well::lemma_stamp_unique(well.rows@, a, st, *p);
            crate::well::lemma_clear_unique(st, b, sw);
        }
        assert(stamped_first(well.rows@, st, *p, 4) && cleared(st, sw));
    }
    pays && in_range
}

/// How piece `p` would count as a spin if it locked in `well`, given whether
/// its last move was a turn and with which kick.
fn spin_in(well: &Well, p: &Fall, turned: bool, kick: usize) -> (res: Spin)
    requires
        p.k == Kind::T && turned ==> p.x + 2 <= i32::MAX && p.y + 2 <= i64::MAX,
    ensures
        res == spin_of(well.rows@, *p, turned, kick),
{
    if p.k != Kind::T || !turned {
        return Spin::Plain;
    }
    let cx = p.x + 1;
    let cy = p.y + 1;
    let c0 = well.solid(cx - 1, cy - 1);
    let c1 = well.solid(cx + 1, cy - 1);
    let c2 = well.solid(cx - 1, cy + 1);
    let c3 = well.solid(cx + 1, cy + 1);
    let count: u8 = (if c0 { 1u8 } else { 0 }) + (if c1 { 1u8 } else { 0 }) + (if c2 { 1u8 } else { 0 })
        + (if c3 { 1u8 } else { 0 });
    if count < 3 {
        return Spin::Plain;
    }
    let face = match p.r % 4 {
        0 => c0 && c1,
        1 => c1 && c3,
        2 => c2 && c3,
        _ => c0 && c2,
    };
    if face || kick == 4 {
        Spin::Full
    } else {
        Spin::Mini
    }
}

/// Moving on is kept along any run of steps: when each state moves on from the
/// one before it, the last moves on from the first. A frame of play is such a
/// run of moves, gravity steps, locks and tidying, so over a whole frame the
/// score and the row count never drop and a running game's piece stays clear
/// of the stack.
pub proof fn lemma_moves_on_chain(gs: Seq<Game>)
    requires
        gs.len() >= 1,
        forall|i: int| 0 <= i < gs.len() - 1 ==> #[trigger] gs[i].moves_on(gs[i + 1]),
    ensures
        gs[0].moves_on(gs.last()),
    decreases gs.len(),
{
    if gs.len() > 1 {
        let head = gs.drop_last();
        assert forall|i: int| 0 <= i < head.len() - 1 implies #[trigger] head[i].moves_on(head[i + 1]) by {
            assert(gs[i].moves_on(gs[i + 1]));
        }
        lemma_moves_on_chain(head);
        let k = gs.len() - 2;
        assert(gs[k].moves_on(gs[k + 1]));
        assert(head[0] == gs[0] && head.last() == gs[k] && gs[k + 1] == gs.last());
    }
}

/// A lock counts as a spin, mini or full, only for a T piece whose last move
/// was a turn and with at least three of the four cells diagonal to the centre
/// of its box solid; with two or fewer of them solid it is plain, whatever the
/// kick.
pub proof fn lemma_spin_needs_three_corners(rows: Map<i64, u16>, p: Fall, turned: bool, kick: usize)
    ensures
        spin_of(rows, p, turned, kick) != Spin::Plain ==> {
            &&& p.k == Kind::T
            &&& turned
            &&& (if filled(rows, p.x as int, p.y) { 1int } else { 0 })
                + (if filled(rows, p.x + 2, p.y) { 1int } else { 0 })
                + (if filled(rows, p.x as int, (p.y + 2) as i64) { 1int } else { 0 })
                + (if filled(rows, p.x + 2, (p.y + 2) as i64) { 1int } else { 0 }) >= 3
        },
{
}

/// In an empty well without a floor a piece between the walls never rests.
pub proof fn lemma_void_never_rests(p: Fall)
    requires
        FLOOR is None,
        inside(p),
    ensures
        !rests(Map::<i64, u16>::empty(), p),
{
    let q = moved(p, 0, 1, p.r);
    assert(q == Fall { y: q.y, ..p });
    crate::well::lemma_inside_any_row(p, q.y);
    crate::well::lemma_void(q);
}

/// What `gap` reports for a piece is the one distance at which it lands.
proof fn lemma_lands_once(rows: Map<i64, u16>, p: Fall, d: i64)
    requires
        inside(p) ==> clear_for(rows, p, 4, d as int) && exists|i: int| 0 <= i < 4 && stops_at(rows, p, i, d as int),
        !inside(p) ==> d == 0,
    ensures
        lands(rows, p, d),
        forall|e: i64| #[trigger] lands(rows, p, e) ==> e == d,
{
    if inside(p) {
        let i = choose|i: int| 0 <= i < 4 && stops_at(rows, p, i, d as int);
        if exists|ry: i64| #[trigger] under(rows, p, i, ry) && d == ry - placed(p)[i].1 - 1 {
            let ry = choose|ry: i64| #[trigger] under(rows, p, i, ry) && d == ry - placed(p)[i].1 - 1;
        }
        assert forall|e: i64| #[trigger] lands(rows, p, e) implies e == d by {
            crate::well::lemma_landing_unique(rows, p, d as int, e as int);
            crate::well::lemma_landing_unique(rows, p, e as int, d as int);
        }
    }
}

/// Moving the coordinates back to the origin with the piece keeps the piece
/// clear of the rows, which move with it.
proof fn lemma_rebase_keeps_room(rows: Map<i64, u16>, p: Fall)
    requires
        FLOOR is None,
        p.y != i64::MIN,
        room_for(rows, p),
    ensures
        room_for(shifted(rows, p.y), Fall { y: 0, ..p }),
{
    lemma_shape_span(p.k, (p.r % 4) as int);
    let q = Fall { y: 0, ..p };
    assert forall|i: int| 0 <= i < 4 implies !filled(shifted(rows, p.y), #[trigger] placed(q)[i].0 as int, placed(q)[i].1) by {
        assert(!filled(rows, placed(p)[i].0 as int, placed(p)[i].1));
        if p.y + shape(p.k, (p.r % 4) as int)[i].1 <= i64::MAX {
            crate::well::lemma_shift_moves_cells(rows, p.y, placed(p)[i].0 as int, placed(p)[i].1);
            assert(placed(p)[i].1 - p.y == placed(q)[i].1);
        } else {
            assert(!shifted(rows, p.y).contains_key(placed(q)[i].1));
        }
    }
}

/// A piece that fits, and whose columns were computed without overflow, lies
/// between the walls with its corner at most three columns left of them.
pub proof fn lemma_room_inside(rows: Map<i64, u16>, p: Fall)
    requires
        room_for(rows, p),
        columns_fit(p),
    ensures
        inside(p),
        -3 <= p.x < COLS,
{
    lemma_shape_span(p.k, (p.r % 4) as int);
    assert forall|j: int| 0 <= j <= 3 implies 0 <= #[trigger] placed(p)[j].0 < COLS by {
        assert(!filled(rows, placed(p)[j].0 as int, placed(p)[j].1));
    }
    assert(!filled(rows, placed(p)[0].0 as int, placed(p)[0].1));
    assert(shape(p.k, (p.r % 4) as int)[0].0 <= 3);
}

} // verus!
