//! The visiting order of a tour and its random two-position swap moves.
//!
//! A tour of an instance of `n` cities visits the instance positions
//! `0..n` in the order `current_solution`. The cost of the tour is the sum
//! of the weights of the edges between consecutive entries; each edge is
//! named by its slot in the packed weight matrix (see `matrix`). A move
//! swaps two positions of the order; only the edges touching the two
//! positions change, and `incident_edges` names exactly those.

use rand::rngs::StdRng;
use vstd::prelude::*;

use crate::matrix::{pair_count, tri_fits, tri_index, tri_spec, lemma_tri_index_injective};

verus! {

/// `StdRng` is carried through the tour as an opaque generator.
#[verifier::external_type_specification]
#[verifier::external_body]
pub struct ExStdRng(StdRng);

/// The generator that `rand::SeedableRng::seed_from_u64` makes of `seed`
/// for `StdRng`: a ChaCha generator whose state is fixed by the seed alone.
pub uninterp spec fn seeded_generator(seed: u64) -> StdRng;

/// What `rand::RngExt::random_range(rng, 0..bound)` draws from a `StdRng`
/// in the state `rng`: the value drawn and the state the generator is left
/// in. Both are fixed by the state and the bound alone.
pub uninterp spec fn draw_below(rng: StdRng, bound: usize) -> (usize, StdRng);

/// Calls `rand::SeedableRng::seed_from_u64` for `StdRng`. The generator is
/// the one the seed determines, `seeded_generator(seed)`. `StdRng` is
/// documented as not reproducible across versions of `rand`; within the
/// version this crate is built with, the seed fixes it.
#[verifier::external_body]
fn seeded_rng(seed: u64) -> (r: StdRng)
    ensures
        r == seeded_generator(seed),
{
    <StdRng as rand::SeedableRng>::seed_from_u64(seed)
}

/// Calls `rand::random::<u64>()`: a seed drawn from the thread-local
/// generator, which the operating system seeds. Any value may come back.
#[verifier::external_body]
fn fresh_seed() -> u64 {
    rand::random::<u64>()
}

/// Calls `rand::RngExt::random_range(rng, 0..bound)`, which panics on an
/// empty range and otherwise returns a value of the range. The value and
/// the generator's next state are `draw_below` of the state before the call
/// and the bound.
#[verifier::external_body]
fn random_below(rng: &mut StdRng, bound: usize) -> (r: usize)
    requires
        bound > 0,
    ensures
        r < bound,
        (r, *final(rng)) == draw_below(*old(rng), bound),
{
    rand::RngExt::random_range(rng, 0..bound)
}

/// The move drawn from a generator in the state `rng` for a tour of `n`
/// positions, and the state the generator is left in: no move and the
/// same state when `n < 2`; otherwise `a` is drawn from `0..n`, then `b`
/// from `0..n - 1`, and the move is the pair `pick_spec(a, b)`.
pub open spec fn swap_draw(rng: StdRng, n: usize) -> (Option<(usize, usize)>, StdRng) {
    if n < 2 {
        (None, rng)
    } else {
        let first = draw_below(rng, n);
        let second = draw_below(first.1, (n - 1) as usize);
        let pq = pick_spec(first.0 as int, second.0 as int);
        (Some((pq.0 as usize, pq.1 as usize)), second.1)
    }
}

/// `s` visits each of the positions `0..s.len()` exactly once.
pub open spec fn is_permutation(s: Seq<usize>) -> bool {
    &&& forall|i: int| 0 <= i < s.len() ==> #[trigger] s[i] < s.len()
    &&& forall|i: int, j: int| 0 <= i < j < s.len() ==> #[trigger] s[i] != #[trigger] s[j]
}

/// The order that visits the positions `0..n` in increasing order.
pub open spec fn identity(n: nat) -> Seq<usize> {
    Seq::new(n, |i: int| i as usize)
}

/// `s` with the entries at positions `p` and `q` exchanged.
pub open spec fn swapped(s: Seq<usize>, p: int, q: int) -> Seq<usize> {
    s.update(p, s[q]).update(q, s[p])
}

/// The matrix arithmetic for `n` cities stays within `usize`.
pub open spec fn matrix_fits(n: int) -> bool {
    &&& 2 * n <= usize::MAX
    &&& n * (n - 1) <= usize::MAX
}

/// Slot of the edge between the cities at the positions `a` and `b` of `s`.
pub open spec fn edge_slot(s: Seq<usize>, a: int, b: int) -> int {
    let x = s[a] as int;
    let y = s[b] as int;
    if x < y {
        tri_spec(s.len() as int, x, y)
    } else {
        tri_spec(s.len() as int, y, x)
    }
}

/// The edge between the cities at `a` and `b` of `s` has a slot: both are
/// cities of the instance and they differ.
pub open spec fn edge_valid(s: Seq<usize>, a: int, b: int) -> bool {
    &&& 0 <= a < s.len()
    &&& 0 <= b < s.len()
    &&& s[a] < s.len()
    &&& s[b] < s.len()
    &&& s[a] != s[b]
}

/// Number of edges of a path through `n` stops.
pub open spec fn edge_count(n: nat) -> nat {
    if n == 0 {
        0
    } else {
        (n - 1) as nat
    }
}

/// Slots of the edges of the path `s`, in the order the path takes them.
pub open spec fn path_slots(s: Seq<usize>) -> Seq<int> {
    Seq::new(edge_count(s.len()), |k: int| edge_slot(s, k, k + 1))
}

/// Every edge of the path `s` has a slot.
pub open spec fn path_valid(s: Seq<usize>) -> bool {
    forall|k: int| 0 <= k < edge_count(s.len()) ==> #[trigger] edge_valid(s, k, k + 1)
}

/// Slots of the edges of `s` that touch the positions `p < q`: the edges
/// `(p - 1, p)` when `p > 0`, `(p, p + 1)`, `(q - 1, q)` when it is not
/// the edge `(p, p + 1)` again, and `(q, q + 1)` when `q` is not last.
pub open spec fn incident_slots(s: Seq<usize>, p: int, q: int) -> Seq<int> {
    let before_p = if p > 0 {
        seq![edge_slot(s, p - 1, p)]
    } else {
        Seq::<int>::empty()
    };
    let before_q = if q > p + 1 {
        seq![edge_slot(s, q - 1, q)]
    } else {
        Seq::<int>::empty()
    };
    let after_q = if q + 1 < s.len() {
        seq![edge_slot(s, q, q + 1)]
    } else {
        Seq::<int>::empty()
    };
    before_p + seq![edge_slot(s, p, p + 1)] + before_q + after_q
}

/// Total weight of the slots `slots` under the weights `w`.
pub open spec fn slot_sum(slots: Seq<int>, w: spec_fn(int) -> int) -> int
    decreases slots.len(),
{
    if slots.len() == 0 {
        0
    } else {
        slot_sum(slots.drop_last(), w) + w(slots.last())
    }
}

/// The two positions, in increasing order, that a move swaps when the
/// generator draws `a` from `0..n` and then `b` from `0..n - 1`: `b` skips
/// over `a`, so the two positions always differ.
pub open spec fn pick_spec(a: int, b: int) -> (int, int) {
    let c = if b >= a {
        b + 1
    } else {
        b
    };
    if a < c {
        (a, c)
    } else {
        (c, a)
    }
}

/// Maps the two draws of a move to the pair of positions it swaps.
pub fn pick_swap(n: usize, a: usize, b: usize) -> (r: (usize, usize))
    requires
        a < n,
        b + 1 < n,
    ensures
        r.0 == pick_spec(a as int, b as int).0,
        r.1 == pick_spec(a as int, b as int).1,
        r.0 < r.1 < n,
{
    let c = if b >= a {
        b + 1
    } else {
        b
    };
    if a < c {
        (a, c)
    } else {
        (c, a)
    }
}

/// Every pair of positions `p < q < n` is swapped for exactly two of the
/// `n * (n - 1)` possible draws, `(p, q - 1)` and `(q, p)`: each pair is
/// equally likely when the draws are uniform.
pub proof fn lemma_pick_covers_each_pair_twice(n: int, p: int, q: int)
    requires
        0 <= p < q < n,
    ensures
        pick_spec(p, q - 1) == (p, q),
        pick_spec(q, p) == (p, q),
        forall|a: int, b: int|
            0 <= a < n && 0 <= b < n - 1 && #[trigger] pick_spec(a, b) == (p, q) ==> (a == p && b
                == q - 1) || (a == q && b == p),
{
}

/// Swapping two positions keeps an order a permutation of the positions.
pub proof fn lemma_swap_keeps_permutation(s: Seq<usize>, p: int, q: int)
    requires
        is_permutation(s),
        0 <= p < s.len(),
        0 <= q < s.len(),
    ensures
        is_permutation(swapped(s, p, q)),
{
    let t = swapped(s, p, q);
    assert forall|i: int, j: int| 0 <= i < j < t.len() implies #[trigger] t[i] != #[trigger] t[j] by {
        let si = if i == q {
            p
        } else if i == p {
            q
        } else {
            i
        };
        let sj = if j == q {
            p
        } else if j == p {
            q
        } else {
            j
        };
        assert(t[i] == s[si]);
        assert(t[j] == s[sj]);
        assert(si != sj);
        if si < sj {
            assert(s[si] != s[sj]);
        } else {
            assert(s[sj] != s[si]);
        }
    }
    assert forall|i: int| 0 <= i < t.len() implies #[trigger] t[i] < t.len() by {
        if i == q {
            assert(t[i] == s[p]);
        } else if i == p {
            assert(t[i] == s[q]);
        } else {
            assert(t[i] == s[i]);
        }
    }
}

/// Undoing a move: swapping the same two positions again gives back the
/// order the move started from.
pub proof fn lemma_swap_twice(s: Seq<usize>, p: int, q: int)
    requires
        0 <= p < s.len(),
        0 <= q < s.len(),
    ensures
        swapped(swapped(s, p, q), p, q) == s,
{
    assert(swapped(swapped(s, p, q), p, q) =~= s);
}

/// The identity order is a permutation.
pub proof fn lemma_identity_is_permutation(n: nat)
    requires
        n <= usize::MAX,
    ensures
        is_permutation(identity(n)),
{
}

proof fn lemma_slot_sum_single(x: int, w: spec_fn(int) -> int)
    ensures
        slot_sum(seq![x], w) == w(x),
{
    assert(seq![x].drop_last() =~= Seq::<int>::empty());
    assert(slot_sum(Seq::<int>::empty(), w) == 0);
}

proof fn lemma_slot_sum_append(x: Seq<int>, y: Seq<int>, w: spec_fn(int) -> int)
    ensures
        slot_sum(x + y, w) == slot_sum(x, w) + slot_sum(y, w),
    decreases y.len(),
{
    if y.len() > 0 {
        assert((x + y).drop_last() =~= x + y.drop_last());
        lemma_slot_sum_append(x, y.drop_last(), w);
    } else {
        assert(x + y =~= x);
    }
}

/// Weight of the edge between the positions `k` and `k + 1` of `s`.
spec fn edge_weight(s: Seq<usize>, w: spec_fn(int) -> int, k: int) -> int {
    w(edge_slot(s, k, k + 1))
}

/// Whether the edge `(k, k + 1)` touches one of the positions `p < q`.
spec fn is_incident(n: int, p: int, q: int, k: int) -> bool {
    ||| (p > 0 && k == p - 1)
    ||| k == p
    ||| (q > p + 1 && k == q - 1)
    ||| (q + 1 < n && k == q)
}

/// Change of weight on the incident edges below `hi` when `s` becomes `t`.
spec fn incident_change_below(
    s: Seq<usize>,
    t: Seq<usize>,
    w: spec_fn(int) -> int,
    p: int,
    q: int,
    hi: int,
) -> int {
    let d = |k: int| edge_weight(t, w, k) - edge_weight(s, w, k);
    (if p > 0 && p - 1 < hi {
        d(p - 1)
    } else {
        0
    }) + (if p < hi {
        d(p)
    } else {
        0
    }) + (if q > p + 1 && q - 1 < hi {
        d(q - 1)
    } else {
        0
    }) + (if q + 1 < s.len() && q < hi {
        d(q)
    } else {
        0
    })
}

proof fn lemma_prefix_change(s: Seq<usize>, w: spec_fn(int) -> int, p: int, q: int, hi: int)
    requires
        0 <= p < q < s.len(),
        0 <= hi <= s.len() - 1,
    ensures
        slot_sum(path_slots(swapped(s, p, q)).take(hi), w) - slot_sum(path_slots(s).take(hi), w)
            == incident_change_below(s, swapped(s, p, q), w, p, q, hi),
    decreases hi,
{
    let t = swapped(s, p, q);
    if hi > 0 {
        lemma_prefix_change(s, w, p, q, hi - 1);
        assert(path_slots(t).take(hi).drop_last() =~= path_slots(t).take(hi - 1));
        assert(path_slots(s).take(hi).drop_last() =~= path_slots(s).take(hi - 1));
        let k = hi - 1;
        assert(path_slots(t).take(hi).last() == edge_slot(t, k, k + 1));
        assert(path_slots(s).take(hi).last() == edge_slot(s, k, k + 1));
        if !is_incident(s.len() as int, p, q, k) {
            assert(t[k] == s[k]);
            assert(t[k + 1] == s[k + 1]);
            assert(edge_slot(t, k, k + 1) == edge_slot(s, k, k + 1));
        }
    } else {
        assert(path_slots(t).take(0) =~= Seq::<int>::empty());
        assert(path_slots(s).take(0) =~= Seq::<int>::empty());
    }
}

proof fn lemma_incident_sum(s: Seq<usize>, w: spec_fn(int) -> int, p: int, q: int)
    requires
        0 <= p < q < s.len(),
    ensures
        slot_sum(incident_slots(s, p, q), w) == (if p > 0 {
            edge_weight(s, w, p - 1)
        } else {
            0
        }) + edge_weight(s, w, p) + (if q > p + 1 {
            edge_weight(s, w, q - 1)
        } else {
            0
        }) + (if q + 1 < s.len() {
            edge_weight(s, w, q)
        } else {
            0
        }),
{
    let before_p = if p > 0 {
        seq![edge_slot(s, p - 1, p)]
    } else {
        Seq::<int>::empty()
    };
    let at_p = seq![edge_slot(s, p, p + 1)];
    let before_q = if q > p + 1 {
        seq![edge_slot(s, q - 1, q)]
    } else {
        Seq::<int>::empty()
    };
    let after_q = if q + 1 < s.len() {
        seq![edge_slot(s, q, q + 1)]
    } else {
        Seq::<int>::empty()
    };
    lemma_slot_sum_append(before_p + at_p + before_q, after_q, w);
    lemma_slot_sum_append(before_p + at_p, before_q, w);
    lemma_slot_sum_append(before_p, at_p, w);
    assert(slot_sum(Seq::<int>::empty(), w) == 0);
    lemma_slot_sum_single(edge_slot(s, p, p + 1), w);
    if p > 0 {
        lemma_slot_sum_single(edge_slot(s, p - 1, p), w);
    }
    if q > p + 1 {
        lemma_slot_sum_single(edge_slot(s, q - 1, q), w);
    }
    if q + 1 < s.len() {
        lemma_slot_sum_single(edge_slot(s, q, q + 1), w);
    }
}

/// Swapping the positions `p < q` changes the total weight of the path by
/// exactly the change of weight on the edges that touch `p` or `q`, for
/// every weighting of the slots: the cost after a move can be updated from
/// the incident edges alone.
pub proof fn lemma_swap_delta(s: Seq<usize>, p: int, q: int, w: spec_fn(int) -> int)
    requires
        0 <= p < q < s.len(),
    ensures
        slot_sum(path_slots(swapped(s, p, q)), w) - slot_sum(path_slots(s), w) == slot_sum(
            incident_slots(swapped(s, p, q), p, q),
            w,
        ) - slot_sum(incident_slots(s, p, q), w),
{
    let t = swapped(s, p, q);
    let m = s.len() - 1;
    lemma_prefix_change(s, w, p, q, m);
    assert(path_slots(t).take(m) =~= path_slots(t));
    assert(path_slots(s).take(m) =~= path_slots(s));
    lemma_incident_sum(s, w, p, q);
    lemma_incident_sum(t, w, p, q);
}

proof fn lemma_slot_fits(n: int, lo: int, hi: int)
    requires
        0 <= lo < hi < n,
        matrix_fits(n),
    ensures
        tri_fits(n, lo, hi),
        0 <= tri_spec(n, lo, hi) < pair_count(n),
        pair_count(n) <= usize::MAX,
{
    assert(n * (n - 1) - lo * (2 * n - lo - 1) == (n - lo) * (n - lo - 1)) by (nonlinear_arith);
    assert((n - lo) * (n - lo - 1) >= 0) by (nonlinear_arith)
        requires
            n - lo >= 1,
    ;
    lemma_tri_index_injective(n);
    assert(0 <= tri_spec(n, lo, hi) < pair_count(n));
    assert(n * (n - 1) >= 0) by (nonlinear_arith)
        requires
            n >= 1,
    ;
}

/// Slot of the edge between the cities `x != y` of an instance of `n`.
pub fn slot_between(n: usize, x: usize, y: usize) -> (r: usize)
    requires
        x < n,
        y < n,
        x != y,
        matrix_fits(n as int),
    ensures
        r == (if x < y {
            tri_spec(n as int, x as int, y as int)
        } else {
            tri_spec(n as int, y as int, x as int)
        }),
        r < pair_count(n as int),
{
    if x < y {
        proof {
            lemma_slot_fits(n as int, x as int, y as int);
        }
        tri_index(n, x, y)
    } else {
        proof {
            lemma_slot_fits(n as int, y as int, x as int);
        }
        tri_index(n, y, x)
    }
}

/// Slots of the edges of the path `solution`, in order: the weights a full
/// recomputation of the path's cost adds up.
pub fn path_edge_slots(solution: &[usize]) -> (r: Vec<usize>)
    requires
        path_valid(solution@),
        matrix_fits(solution@.len() as int),
    ensures
        r@.len() == path_slots(solution@).len(),
        forall|k: int| 0 <= k < r@.len() ==> r@[k] as int == #[trigger] path_slots(solution@)[k],
        forall|k: int| 0 <= k < r@.len() ==> #[trigger] r@[k] < pair_count(solution@.len() as int),
{
    let n = solution.len();
    let mut r: Vec<usize> = Vec::new();
    let mut k: usize = 1;
    while k < n
        invariant
            n == solution@.len(),
            1 <= k <= n || (n == 0 && k == 1),
            path_valid(solution@),
            matrix_fits(n as int),
            r@.len() == k - 1,
            forall|i: int| 0 <= i < r@.len() ==> r@[i] as int == #[trigger] path_slots(solution@)[i],
            forall|i: int| 0 <= i < r@.len() ==> #[trigger] r@[i] < pair_count(n as int),
        decreases n - k,
    {
        proof {
            assert(edge_valid(solution@, k - 1, (k - 1) + 1));
        }
        let slot = slot_between(n, solution[k - 1], solution[k]);
        r.push(slot);
        k = k + 1;
    }
    r
}

/// The visiting order of a tour, the generator that draws its moves, and
/// the last move made, so that it can be undone.
pub struct TourOrder {
    pub current_solution: Vec<usize>,
    pub rng_seed: u64,
    rand: StdRng,
    solution_last_move: (usize, usize),
}

impl TourOrder {
    /// The order in which the tour visits the positions.
    pub closed spec fn order(&self) -> Seq<usize> {
        self.current_solution@
    }

    /// The seed the generator was started from.
    pub closed spec fn seed(&self) -> u64 {
        self.rng_seed
    }

    /// The generator that draws the moves.
    pub closed spec fn rng(&self) -> StdRng {
        self.rand
    }

    /// The last move made, as the pair of swapped positions.
    pub closed spec fn last_move(&self) -> (int, int) {
        (self.solution_last_move.0 as int, self.solution_last_move.1 as int)
    }

    /// The order is a permutation of the positions and the last move names
    /// positions of it (when there is any position).
    pub closed spec fn wf(&self) -> bool {
        &&& is_permutation(self.current_solution@)
        &&& self.current_solution@.len() > 0 ==> {
            &&& self.solution_last_move.0 < self.current_solution@.len()
            &&& self.solution_last_move.1 < self.current_solution@.len()
        }
    }

    /// A tour over `size` positions, visited in increasing order, with a
    /// generator seeded from `rng_seed`, or from a fresh random seed when
    /// none is given; the generator is the one its seed determines, so the
    /// seed reproduces every move drawn. No move has been made: the last
    /// move is `(0, 0)`.
    pub fn new(size: usize, rng_seed: Option<u64>) -> (r: TourOrder)
        ensures
            r.wf(),
            is_permutation(r.order()),
            r.order() == identity(size as nat),
            rng_seed matches Some(seed) ==> r.seed() == seed,
            r.rng() == seeded_generator(r.seed()),
            r.last_move() == (0int, 0int),
    {
        let seed = match rng_seed {
            Some(seed) => seed,
            None => fresh_seed(),
        };
        let mut current_solution: Vec<usize> = Vec::new();
        let mut i: usize = 0;
        while i < size
            invariant
                i <= size,
                current_solution@ == identity(i as nat),
            decreases size - i,
        {
            current_solution.push(i);
            i = i + 1;
            proof {
                assert(current_solution@ =~= identity(i as nat));
            }
        }
        proof {
            lemma_identity_is_permutation(size as nat);
        }
        TourOrder {
            current_solution,
            rng_seed: seed,
            rand: seeded_rng(seed),
            solution_last_move: (0, 0),
        }
    }

    /// The seed the generator was started from.
    pub fn get_rng_seed(&self) -> (r: u64)
        ensures
            r == self.seed(),
    {
        self.rng_seed
    }

    /// Draws the two positions of the next move: `None` when the tour has
    /// fewer than two positions; otherwise the generator draws `a` from
    /// `0..n`, then `b` from `0..n - 1`, and the move is the pair `p < q`
    /// that `pick_swap(n, a, b)` makes of them (`swap_draw`). The order is
    /// not changed.
    pub fn choose_swap(&mut self) -> (r: Option<(usize, usize)>)
        requires
            old(self).wf(),
        ensures
            final(self).wf(),
            is_permutation(final(self).order()),
            final(self).order() == old(self).order(),
            final(self).seed() == old(self).seed(),
            final(self).last_move() == old(self).last_move(),
            r is None <==> old(self).order().len() < 2,
            (r, final(self).rng()) == swap_draw(old(self).rng(), old(self).order().len() as usize),
            r matches Some(pq) ==> pq.0 < pq.1 < old(self).order().len(),
    {
        let n = self.current_solution.len();
        if n < 2 {
            return None;
        }
        let a = random_below(&mut self.rand, n);
        let b = random_below(&mut self.rand, n - 1);
        let (p, q) = pick_swap(n, a, b);
        Some((p, q))
    }

    /// Swaps the entries at the positions `p` and `q` of the order and
    /// records the move, so that `undo_move` takes it back.
    pub fn apply_move(&mut self, p: usize, q: usize)
        requires
            old(self).wf(),
            p < old(self).order().len(),
            q < old(self).order().len(),
        ensures
            final(self).wf(),
            is_permutation(final(self).order()),
            final(self).order() == swapped(old(self).order(), p as int, q as int),
            final(self).last_move() == (p as int, q as int),
            final(self).seed() == old(self).seed(),
            final(self).rng() == old(self).rng(),
    {
        proof {
            lemma_swap_keeps_permutation(self.order(), p as int, q as int);
        }
        let at_p = self.current_solution[p];
        let at_q = self.current_solution[q];
        self.current_solution.set(p, at_q);
        self.current_solution.set(q, at_p);
        self.solution_last_move = (p, q);
    }

    /// Takes back the last move by swapping its two positions again.
    pub fn undo_move(&mut self)
        requires
            old(self).wf(),
            old(self).order().len() > 0,
        ensures
            final(self).wf(),
            is_permutation(final(self).order()),
            final(self).order() == swapped(
                old(self).order(),
                old(self).last_move().0,
                old(self).last_move().1,
            ),
            final(self).last_move() == old(self).last_move(),
            final(self).seed() == old(self).seed(),
            final(self).rng() == old(self).rng(),
    {
        let (p, q) = self.solution_last_move;
        proof {
            lemma_swap_keeps_permutation(self.order(), p as int, q as int);
        }
        let at_p = self.current_solution[p];
        let at_q = self.current_solution[q];
        self.current_solution.set(p, at_q);
        self.current_solution.set(q, at_p);
    }

    /// Slot of the edge between the cities at the positions `a` and `b`.
    pub fn edge_index(&self, a: usize, b: usize) -> (r: usize)
        requires
            self.wf(),
            a < self.order().len(),
            b < self.order().len(),
            a != b,
            matrix_fits(self.order().len() as int),
        ensures
            r == edge_slot(self.order(), a as int, b as int),
            r < pair_count(self.order().len() as int),
    {
        let n = self.current_solution.len();
        let x = self.current_solution[a];
        let y = self.current_solution[b];
        slot_between(n, x, y)
    }

    /// The slots that `incident_edges(p, q)` would give once the positions
    /// `p < q` are swapped, computed without swapping them: the weights a
    /// move would bring in.
    pub fn swapped_incident_edges(&self, p: usize, q: usize) -> (r: Vec<usize>)
        requires
            self.wf(),
            p < q < self.order().len(),
            matrix_fits(self.order().len() as int),
        ensures
            r@.len() == incident_slots(swapped(self.order(), p as int, q as int), p as int, q as int).len(),
            forall|k: int|
                0 <= k < r@.len() ==> r@[k] as int == #[trigger] incident_slots(
                    swapped(self.order(), p as int, q as int),
                    p as int,
                    q as int,
                )[k],
    {
        let ghost t = swapped(self.current_solution@, p as int, q as int);
        proof {
            lemma_swap_keeps_permutation(self.current_solution@, p as int, q as int);
        }
        let n = self.current_solution.len();
        let at_p = self.current_solution[q];
        let at_q = self.current_solution[p];
        let mut r: Vec<usize> = Vec::new();
        if p > 0 {
            r.push(slot_between(n, self.current_solution[p - 1], at_p));
            proof {
                assert(t[p - 1] == self.current_solution@[p - 1]);
                assert(t[p as int] == at_p);
            }
        }
        let next_p = if p + 1 == q {
            at_q
        } else {
            self.current_solution[p + 1]
        };
        proof {
            assert(t[p + 1] == next_p);
            assert(t[p as int] == at_p);
            assert(t[p as int] != t[p + 1]);
        }
        r.push(slot_between(n, at_p, next_p));
        if q > p + 1 {
            proof {
                assert(t[q - 1] == self.current_solution@[q - 1]);
                assert(t[q as int] == at_q);
                assert(t[q - 1] != t[q as int]);
            }
            r.push(slot_between(n, self.current_solution[q - 1], at_q));
        }
        if q + 1 < n {
            proof {
                assert(t[q + 1] == self.current_solution@[q + 1]);
                assert(t[q as int] == at_q);
                assert(t[q as int] != t[q + 1]);
            }
            r.push(slot_between(n, at_q, self.current_solution[q + 1]));
        }
        proof {
            assert(r@.map_values(|x: usize| x as int) =~= incident_slots(t, p as int, q as int));
            assert forall|k: int| 0 <= k < r@.len() implies r@[k] as int
                == #[trigger] incident_slots(t, p as int, q as int)[k] by {
                assert(r@.map_values(|x: usize| x as int)[k] == r@[k] as int);
            }
        }
        r
    }

    /// Slots of the edges that touch the positions `p < q`, in the order of
    /// `incident_slots`: the only edges whose weight a swap of `p` and `q`
    /// can change.
    pub fn incident_edges(&self, p: usize, q: usize) -> (r: Vec<usize>)
        requires
            self.wf(),
            p < q < self.order().len(),
            matrix_fits(self.order().len() as int),
        ensures
            r@.len() == incident_slots(self.order(), p as int, q as int).len(),
            forall|k: int|
                0 <= k < r@.len() ==> r@[k] as int == #[trigger] incident_slots(
                    self.order(),
                    p as int,
                    q as int,
                )[k],
            forall|k: int|
                0 <= k < r@.len() ==> #[trigger] r@[k] < pair_count(
                    self.order().len() as int,
                ),
    {
        let n = self.current_solution.len();
        let mut r: Vec<usize> = Vec::new();
        if p > 0 {
            r.push(self.edge_index(p - 1, p));
        }
        r.push(self.edge_index(p, p + 1));
        if q > p + 1 {
            r.push(self.edge_index(q - 1, q));
        }
        if q + 1 < n {
            r.push(self.edge_index(q, q + 1));
        }
        proof {
            assert(r@.map_values(|x: usize| x as int) =~= incident_slots(
                self.order(),
                p as int,
                q as int,
            ));
            assert forall|k: int| 0 <= k < r@.len() implies r@[k] as int
                == #[trigger] incident_slots(self.order(), p as int, q as int)[k] by {
                assert(r@.map_values(|x: usize| x as int)[k] == r@[k] as int);
            }
        }
        r
    }
}

/// Every edge of the path `solution` has a slot: its entries are cities of
/// an instance of its length, and no two consecutive entries are equal.
pub fn is_valid_path(solution: &[usize]) -> (r: bool)
    ensures
        r == path_valid(solution@),
        r == (forall|k: int|
            0 <= k < solution@.len() - 1 ==> #[trigger] solution@[k] < solution@.len()
                && solution@[k + 1] < solution@.len() && solution@[k] != solution@[k + 1]),
        is_permutation(solution@) ==> r,
{
    proof {
        lemma_valid_path_is_in_range_and_distinct(solution@);
    }
    let n = solution.len();
    let mut k: usize = 1;
    while k < n
        invariant
            n == solution@.len(),
            1 <= k,
            k <= n || n == 0,
            forall|j: int| 0 <= j < k - 1 ==> #[trigger] edge_valid(solution@, j, j + 1),
        decreases n - k,
    {
        if solution[k - 1] >= n || solution[k] >= n || solution[k - 1] == solution[k] {
            proof {
                assert(!edge_valid(solution@, k - 1, (k - 1) + 1));
            }
            return false;
        }
        k = k + 1;
    }
    true
}

/// Whether `order` is a permutation of its positions, the orders a tour
/// may take.
pub fn is_tour_order(order: &[usize]) -> (r: bool)
    ensures
        r == is_permutation(order@),
{
    let n = order.len();
    let mut seen: Vec<bool> = Vec::new();
    let mut i: usize = 0;
    while i < n
        invariant
            i <= n,
            n == order@.len(),
            seen@.len() == i,
            forall|j: int| 0 <= j < i ==> !#[trigger] seen@[j],
        decreases n - i,
    {
        seen.push(false);
        i = i + 1;
    }
    let mut k: usize = 0;
    while k < n
        invariant
            k <= n,
            n == order@.len(),
            seen@.len() == n,
            forall|j: int| 0 <= j < k ==> #[trigger] order@[j] < n,
            forall|i: int, j: int| 0 <= i < j < k ==> #[trigger] order@[i] != #[trigger] order@[j],
            forall|v: int| 0 <= v < n ==> (#[trigger] seen@[v] <==> exists|j: int| 0 <= j < k && order@[j] == v),
        decreases n - k,
    {
        let v = order[k];
        if v >= n {
            return false;
        }
        if seen[v] {
            proof {
                let j = choose|j: int| 0 <= j < k && order@[j] == v;
                assert(order@[j] == order@[k as int]);
            }
            return false;
        }
        seen.set(v, true);
        k = k + 1;
    }
    true
}

/// A path is valid exactly when each pair of consecutive entries are two
/// different cities of an instance of the path's length; in particular
/// every permutation of the positions is a valid path.
pub proof fn lemma_valid_path_is_in_range_and_distinct(s: Seq<usize>)
    ensures
        path_valid(s) == (forall|k: int|
            0 <= k < s.len() - 1 ==> #[trigger] s[k] < s.len() && s[k + 1] < s.len() && s[k] != s[
                k + 1
            ]),
        is_permutation(s) ==> path_valid(s),
{
    if path_valid(s) {
        assert forall|k: int| 0 <= k < s.len() - 1 implies #[trigger] s[k] < s.len() && s[k + 1]
            < s.len() && s[k] != s[k + 1] by {
            assert(edge_valid(s, k, k + 1));
        }
    }
    if forall|k: int|
        0 <= k < s.len() - 1 ==> #[trigger] s[k] < s.len() && s[k + 1] < s.len() && s[k] != s[k
            + 1] {
        assert forall|k: int| 0 <= k < edge_count(s.len()) implies #[trigger] edge_valid(s, k, k + 1) by {
            assert(s[k] < s.len());
        }
    }
    if is_permutation(s) {
        assert forall|k: int| 0 <= k < edge_count(s.len()) implies #[trigger] edge_valid(s, k, k + 1) by {
            assert(s[k] < s.len());
            assert(s[k + 1] < s.len());
            assert(s[k] != s[k + 1]);
        }
    }
}

/// A move takes two draws of the generator, the first from `0..n` and the
/// second from `0..n - 1` of the state the first left, and swaps the pair
/// `p < q` they name: the draws `(p, q - 1)` and `(q, p)` both give the
/// pair `(p, q)`, so every pair of distinct positions can be drawn, and
/// the generator is left where the second draw left it. A tour of fewer
/// than two positions draws nothing.
pub proof fn lemma_swap_draw_takes_two_draws(rng: StdRng, n: usize, p: int, q: int)
    requires
        0 <= p < q < n,
    ensures
        ({
            let first = draw_below(rng, n);
            let second = draw_below(first.1, (n - 1) as usize);
            &&& swap_draw(rng, n).1 == second.1
            &&& (first.0 == p && second.0 == q - 1) ==> swap_draw(rng, n).0 == Some(
                (p as usize, q as usize),
            )
            &&& (first.0 == q && second.0 == p) ==> swap_draw(rng, n).0 == Some(
                (p as usize, q as usize),
            )
        }),
        forall|m: usize| m < 2 ==> #[trigger] swap_draw(rng, m) == (None::<(usize, usize)>, rng),
{
}

} // verus!
