use vstd::prelude::*;

use crate::piece::Kind;

verus! {

/// A sequence holds every kind exactly once.
pub open spec fn whole_bag(s: Seq<Kind>) -> bool {
    &&& s.len() == 7
    &&& s.no_duplicates()
    &&& forall|k: Kind| #[trigger] s.contains(k)
}

/// Taking `k` from a queue holding `before` leaves `after`: the last piece
/// comes out, or, from an empty queue, a piece of a fresh whole bag.
pub open spec fn pulled(before: Seq<Kind>, after: Seq<Kind>, k: Kind) -> bool {
    &&& before.len() > 0 ==> k == before.last() && after == before.drop_last()
    &&& before.len() == 0 ==> whole_bag(after.push(k))
}

/// The kinds of a bag before it is shuffled.
pub open spec fn fresh_bag() -> Seq<Kind> {
    seq![Kind::I, Kind::O, Kind::T, Kind::S, Kind::Z, Kind::J, Kind::L]
}

/// `bag` after the first `n` swaps of a Fisher-Yates shuffle: the `t`-th swap
/// exchanges position `6 - t` with position `draws[t]`.
pub open spec fn swapped(bag: Seq<Kind>, draws: Seq<usize>, n: nat) -> Seq<Kind>
    decreases n,
{
    if n == 0 {
        bag
    } else {
        let s = swapped(bag, draws, (n - 1) as nat);
        let i = 7 - n;
        let j = draws[n - 1] as int;
        s.update(i, s[j]).update(j, s[i])
    }
}

/// `bag` shuffled by swapping position `i` with position `draws[6 - i]`, for
/// `i` from 6 down to 1.
pub open spec fn fisher_yates(bag: Seq<Kind>, draws: Seq<usize>) -> Seq<Kind> {
    swapped(bag, draws, 6)
}

/// Six draws of a shuffle, each within the positions it may pick: the `t`-th
/// draw is at most `6 - t`.
pub open spec fn draws_fit(draws: Seq<usize>) -> bool {
    &&& draws.len() == 6
    &&& forall|t: int| 0 <= t < 6 ==> #[trigger] draws[t] <= 6 - t
}

/// Swapping two positions of a whole bag leaves a whole bag.
proof fn lemma_swap_keeps_bag(s: Seq<Kind>, i: int, j: int)
    requires
        whole_bag(s),
        0 <= i < 7,
        0 <= j < 7,
    ensures
        whole_bag(s.update(i, s[j]).update(j, s[i])),
{
    let t = s.update(i, s[j]).update(j, s[i]);
    assert forall|kind: Kind| #[trigger] t.contains(kind) by {
        assert(s.contains(kind));
        let q = choose|q: int| 0 <= q < 7 && s[q] == kind;
        if q == i {
            assert(t[j] == kind);
        } else if q == j {
            assert(t[i] == kind);
        } else {
            assert(t[q] == kind);
        }
    }
    assert forall|p: int, q: int| 0 <= p < q < 7 implies t[p] != t[q] by {
        let pp = if p == i { j } else if p == j { i } else { p };
        let qq = if q == i { j } else if q == j { i } else { q };
        assert(t[p] == s[pp]);
        assert(t[q] == s[qq]);
    }
}

/// The unshuffled bag holds every kind once.
proof fn lemma_fresh_whole()
    ensures
        whole_bag(fresh_bag()),
{
    let f = fresh_bag();
    assert forall|kind: Kind| #[trigger] f.contains(kind) by {
        match kind {
            Kind::I => assert(f[0] == kind),
            Kind::O => assert(f[1] == kind),
            Kind::T => assert(f[2] == kind),
            Kind::S => assert(f[3] == kind),
            Kind::Z => assert(f[4] == kind),
            Kind::J => assert(f[5] == kind),
            Kind::L => assert(f[6] == kind),
        }
    }
}

/// The first `n` swaps depend only on the first `n` draws.
proof fn lemma_swapped_prefix(bag: Seq<Kind>, d1: Seq<usize>, d2: Seq<usize>, n: nat)
    requires
        n <= d1.len(),
        n <= d2.len(),
        forall|t: int| 0 <= t < n ==> d1[t] == d2[t],
    ensures
        swapped(bag, d1, n) == swapped(bag, d2, n),
    decreases n,
{
    if n > 0 {
        lemma_swapped_prefix(bag, d1, d2, (n - 1) as nat);
    }
}

/// Extends draws `d` that already put the last `d.len()` kinds of `s` in place
/// to six draws within bounds that put every position but the first in place.
proof fn lemma_extend_draws(s: Seq<Kind>, d: Seq<usize>) -> (all: Seq<usize>)
    requires
        whole_bag(s),
        d.len() <= 6,
        forall|t: int| 0 <= t < d.len() ==> #[trigger] d[t] <= 6 - t,
        whole_bag(swapped(fresh_bag(), d, d.len())),
        forall|q: int| 7 - d.len() <= q < 7 ==> #[trigger] swapped(fresh_bag(), d, d.len())[q] == s[q],
    ensures
        draws_fit(all),
        whole_bag(fisher_yates(fresh_bag(), all)),
        forall|q: int| 1 <= q < 7 ==> #[trigger] fisher_yates(fresh_bag(), all)[q] == s[q],
    decreases 6 - d.len(),
{
    if d.len() == 6 {
        d
    } else {
        let n = d.len();
        let cur = swapped(fresh_bag(), d, n);
        let i = 6 - n;
        assert(cur.contains(s[i]));
        let j = choose|j: int| 0 <= j < cur.len() && cur[j] == s[i];
        if j > i {
            assert(cur[j] == s[j]);
        }
        let d2 = d.push(j as usize);
        lemma_swapped_prefix(fresh_bag(), d2, d, n);
        let next = swapped(fresh_bag(), d2, n + 1);
        assert(next == cur.update(i, cur[j]).update(j, cur[i]));
        lemma_swap_keeps_bag(cur, i, j);
        assert forall|q: int| 7 - d2.len() <= q < 7 implies #[trigger] next[q] == s[q] by {
            if q != i {
                assert(next[q] == cur[q]);
            }
        }
        lemma_extend_draws(s, d2)
    }
}

/// Every order of the seven kinds can be dealt: for each one, some six draws
/// within their bounds shuffle the fresh bag into it.
pub proof fn lemma_every_order_dealt(s: Seq<Kind>)
    requires
        whole_bag(s),
    ensures
        exists|d: Seq<usize>| draws_fit(d) && fisher_yates(fresh_bag(), d) == s,
{
    lemma_fresh_whole();
    let all = lemma_extend_draws(s, Seq::empty());
    let f = fisher_yates(fresh_bag(), all);
    assert(f.contains(s[0]));
    let p = choose|p: int| 0 <= p < f.len() && f[p] == s[0];
    if p > 0 {
        assert(f[p] == s[p]);
    }
    assert(f =~= s);
}

/// Taking `k` from queue `before` leaves queue `after` (see `pulled`); a
/// fresh bag is the fresh kinds shuffled by the draws recorded in `after`,
/// and otherwise the recorded draws stay as they were.
pub open spec fn dealt(before: Queue, after: Queue, k: Kind) -> bool {
    &&& pulled(before@, after@, k)
    &&& before@.len() == 0 ==> draws_fit(after.draws()) && after@.push(k) == fisher_yates(fresh_bag(), after.draws())
    &&& before@.len() > 0 ==> after.draws() == before.draws()
}

/// Seven pulls starting from an empty queue deal every kind exactly once.
pub proof fn lemma_seven_pulls(qs: Seq<Seq<Kind>>, ks: Seq<Kind>)
    requires
        qs.len() == 8,
        ks.len() == 7,
        qs[0].len() == 0,
        forall|i: int| 0 <= i < 7 ==> pulled(#[trigger] qs[i], qs[i + 1], ks[i]),
    ensures
        whole_bag(ks),
{
    assert(pulled(qs[0], qs[1], ks[0]));
    let bag = qs[1].push(ks[0]);
    assert(whole_bag(bag));
    assert forall|i: int| 1 <= i <= 7 implies #[trigger] qs[i] == bag.take(7 - i) by {
        lemma_drained(qs, ks, bag, i);
    }
    assert forall|i: int| 0 <= i < 7 implies #[trigger] ks[i] == bag[6 - i] by {
        if i > 0 {
            assert(pulled(qs[i], qs[i + 1], ks[i]));
            assert(qs[i] == bag.take(7 - i));
        }
    }
    assert forall|k: Kind| #[trigger] ks.contains(k) by {
        assert(bag.contains(k));
        let j = choose|j: int| 0 <= j < 7 && bag[j] == k;
        assert(ks[6 - j] == k);
    }
    assert forall|a: int, b: int| 0 <= a < b < 7 implies ks[a] != ks[b] by {
        assert(ks[a] == bag[6 - a] && ks[b] == bag[6 - b]);
    }
}

/// After `i` pulls from an empty queue, the queue holds the first `7 - i`
/// pieces of the bag opened by the first pull.
proof fn lemma_drained(qs: Seq<Seq<Kind>>, ks: Seq<Kind>, bag: Seq<Kind>, i: int)
    requires
        qs.len() == 8,
        ks.len() == 7,
        qs[0].len() == 0,
        forall|j: int| 0 <= j < 7 ==> pulled(#[trigger] qs[j], qs[j + 1], ks[j]),
        bag == qs[1].push(ks[0]),
        whole_bag(bag),
        1 <= i <= 7,
    ensures
        qs[i] == bag.take(7 - i),
    decreases i,
{
    if i == 1 {
        assert(qs[1] =~= bag.take(6));
    } else {
        lemma_drained(qs, ks, bag, i - 1);
        assert(pulled(qs[i - 1], qs[i], ks[i - 1]));
        assert(qs[i] =~= bag.take(7 - i));
    }
}

/// `macroquad::rand::gen_range(0, n)`, a draw from macroquad's global
/// pseudo-random generator. What is claimed: the draw lies in `0..n`. Its
/// source computes `(n as f64 * (rand() as f64 / 2^32)) as usize` from a 32-bit
/// draw; below 2^21 that product is exact and smaller than `n`. Which value
/// comes back depends on the generator's hidden state and is left open.
#[verifier::external_body]
fn draw_below(n: usize) -> (r: usize)
    requires
        0 < n <= 0x20_0000,
    ensures
        r < n,
{
    macroquad::rand::gen_range(0, n)
}

/// Shuffles the seven kinds with the given draws (see `fisher_yates`).
pub fn deal(draws: [usize; 6]) -> (res: Vec<Kind>)
    requires
        forall|t: int| 0 <= t < 6 ==> draws[t] <= 6 - t,
    ensures
        res@ == fisher_yates(fresh_bag(), draws@),
        whole_bag(res@),
{
    let mut k: Vec<Kind> = vec![Kind::I, Kind::O, Kind::T, Kind::S, Kind::Z, Kind::J, Kind::L];
    proof {
        assert(k@ =~= fresh_bag());
        lemma_fresh_whole();
    }
    let mut t: usize = 0;
    while t < 6
        invariant
            t <= 6,
            forall|u: int| 0 <= u < 6 ==> draws[u] <= 6 - u,
            k@ == swapped(fresh_bag(), draws@, t as nat),
            whole_bag(k@),
        decreases 6 - t,
    {
        let i = 6 - t;
        let j = draws[t];
        let ghost before = k@;
        let a = k[i];
        let b = k[j];
        k.set(i, b);
        k.set(j, a);
        proof {
            assert(k@ =~= before.update(i as int, b).update(j as int, a));
            assert(swapped(fresh_bag(), draws@, (t + 1) as nat) == before.update(i as int, before[j as int]).update(j as int, before[i as int]));
            lemma_swap_keeps_bag(before, i as int, j as int);
        }
        t += 1;
    }
    k
}

/// The randomizer: pieces come in shuffled bags holding each kind once, and the
/// next piece is taken from the end of the current bag.
pub struct Queue {
    rest: Vec<Kind>,
    shuffle: Ghost<Seq<usize>>,
}

impl View for Queue {
    type V = Seq<Kind>;

    /// The pieces left in the current bag; the last one comes out first.
    closed spec fn view(&self) -> Seq<Kind> {
        self.rest@
    }
}

impl Queue {
    #[verifier::type_invariant]
    spec fn distinct(self) -> bool {
        self.rest@.no_duplicates()
    }

    /// The draws that shuffled the most recent bag (none before the first).
    pub closed spec fn draws(&self) -> Seq<usize> {
        self.shuffle@
    }

    /// An empty queue: the first pull opens a fresh bag.
    pub fn new() -> (res: Self)
        ensures
            res@ == Seq::<Kind>::empty(),
    {
        Self { rest: Vec::new(), shuffle: Ghost(Seq::empty()) }
    }

    /// Takes the next piece. When the bag is empty, a fresh bag of all seven
    /// kinds is shuffled first, with six draws from the random generator (the
    /// draw for position `i` picks one of positions `0..=i`); the piece taken and
    /// the pieces left then make up that shuffled bag.
    pub fn pull(&mut self) -> (res: Kind)
        ensures
            dealt(*old(self), *final(self), res),
            final(self)@.no_duplicates(),
    {
        proof {
            use_type_invariant(&*self);
        }
        if self.rest.len() == 0 {
            let d0 = draw_below(7);
            let d1 = draw_below(6);
            let d2 = draw_below(5);
            let d3 = draw_below(4);
            let d4 = draw_below(3);
            let d5 = draw_below(2);
            let draws = [d0, d1, d2, d3, d4, d5];
            let k = deal(draws);
            self.rest = k;
            self.shuffle = Ghost(draws@);
        }
        proof {
            use_type_invariant(&*self);
        }
        let ghost dealt = self.rest@;
        assert(dealt.len() > 0);
        let mut rest: Vec<Kind> = Vec::new();
        std::mem::swap(&mut rest, &mut self.rest);
        let res = rest.pop().unwrap();
        proof {
            assert(rest@.push(res) =~= dealt);
            assert(rest@ =~= dealt.drop_last());
        }
        self.rest = rest;
        res
    }
}

} // verus!
