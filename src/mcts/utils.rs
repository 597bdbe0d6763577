//! The one-shot cell, the randomised arg-max and integer helpers of the search.
use rand::Rng;
use vstd::prelude::*;

verus! {

/// A one-shot cell: empty at first, then holding the first value published
/// into it for the rest of its life.
#[derive(Clone, Copy)]
pub struct AtomicBox<T> {
    slot: Option<T>,
}

/// The cell's content after publishing `v` into a cell holding `c`.
pub open spec fn published<T>(c: Option<T>, v: T) -> Option<T> {
    if c.is_some() {
        c
    } else {
        Some(v)
    }
}

/// The cell's content after publishing each value of `vals` in turn.
pub open spec fn published_all<T>(c: Option<T>, vals: Seq<T>) -> Option<T>
    decreases vals.len(),
{
    if vals.len() == 0 {
        c
    } else {
        published_all(published(c, vals[0]), vals.drop_first())
    }
}

/// Whatever the number of publications into an empty cell, the first value
/// survives them all.
pub proof fn lemma_first_publication_survives<T>(vals: Seq<T>)
    requires
        vals.len() > 0,
    ensures
        published_all(None, vals) == Some(vals[0]),
{
    lemma_full_cell_keeps(Some(vals[0]), vals.drop_first());
}

/// Publishing into a full cell never changes it.
pub proof fn lemma_full_cell_keeps<T>(c: Option<T>, vals: Seq<T>)
    requires
        c.is_some(),
    ensures
        published_all(c, vals) == c,
    decreases vals.len(),
{
    if vals.len() > 0 {
        lemma_full_cell_keeps(c, vals.drop_first());
    }
}

impl<T> AtomicBox<T> {
    /// What the cell holds.
    pub closed spec fn content(&self) -> Option<T> {
        self.slot
    }

    /// Installs `value` if the cell is empty; otherwise `value` is dropped.
    /// Returns whether `value` was installed.
    pub fn try_set(&mut self, value: T) -> (won: bool)
        ensures
            final(self).content() == published(old(self).content(), value),
            won == old(self).content().is_none(),
    {
        if self.slot.is_none() {
            self.slot = Some(value);
            true
        } else {
            false
        }
    }

    /// The content, if any.
    pub fn get(&self) -> (r: Option<&T>)
        ensures
            match r {
                Some(v) => self.content() == Some(*v),
                None => self.content().is_none(),
            },
    {
        self.slot.as_ref()
    }
}

impl<T> Default for AtomicBox<T> {
    fn default() -> (r: Self)
        ensures
            r.content().is_none(),
    {
        AtomicBox { slot: None }
    }
}

/// Relies on rand's `Rng::gen_range` over the thread-local generator: for a
/// non-empty range `0..n` it returns a number of that range.
#[verifier::external_body]
fn random_below(n: usize) -> (r: usize)
    requires
        n > 0,
    ensures
        r < n,
{
    rand::thread_rng().gen_range(0..n)
}

/// How many of the first `i` scores equal `m`.
pub open spec fn count_equal(s: Seq<i64>, m: i64, i: int) -> nat
    decreases i,
{
    if i <= 0 {
        0
    } else {
        count_equal(s, m, i - 1) + if s[i - 1] == m {
            1nat
        } else {
            0nat
        }
    }
}

proof fn lemma_count_none(s: Seq<i64>, m: i64, i: int)
    requires
        0 <= i <= s.len(),
        forall|k: int| 0 <= k < i ==> s[k] < m,
    ensures
        count_equal(s, m, i) == 0,
    decreases i,
{
    if i > 0 {
        lemma_count_none(s, m, i - 1);
    }
}

/// The index of one of the highest scores, or `None` for no scores. Among
/// equal highest scores each is picked with the same chance; each score is
/// read once per pass and nothing is allocated or changed.
pub fn random_best(scores: &[i64]) -> (r: Option<usize>)
    ensures
        r.is_none() <==> scores@.len() == 0,
        r matches Some(i) ==> i < scores@.len() && forall|k: int|
            0 <= k < scores@.len() ==> scores@[k] <= scores@[i as int],
{
    let n = scores.len();
    if n == 0 {
        return None;
    }
    let mut best: i64 = scores[0];
    let mut ties: usize = 1;
    let mut i: usize = 1;
    assert(count_equal(scores@, best, 1) == 1) by {
        reveal_with_fuel(count_equal, 2);
    }
    while i < n
        invariant
            n == scores@.len(),
            1 <= i <= n,
            exists|k: int| 0 <= k < i && scores@[k] == best,
            forall|k: int| 0 <= k < i ==> scores@[k] <= best,
            ties == count_equal(scores@, best, i as int),
            1 <= ties <= i,
        decreases n - i,
    {
        if scores[i] > best {
            proof {
                lemma_count_none(scores@, scores@[i as int], i as int);
            }
            best = scores[i];
            ties = 1;
        } else if scores[i] == best {
            ties += 1;
        }
        i += 1;
    }
    let pick = random_below(ties);
    let mut seen: usize = 0;
    let mut j: usize = 0;
    while j < n
        invariant
            n == scores@.len(),
            j <= n,
            forall|k: int| 0 <= k < n ==> scores@[k] <= best,
            ties == count_equal(scores@, best, n as int),
            seen == count_equal(scores@, best, j as int),
            seen <= pick,
            pick < ties,
        decreases n - j,
    {
        if scores[j] == best {
            if seen == pick {
                return Some(j);
            }
            seen += 1;
        }
        j += 1;
    }
    None
}

/// `floor(log2(n))`, taken as 0 for `n` of 0 or 1.
pub open spec fn log2_floor(n: nat) -> nat
    decreases n,
{
    if n <= 1 {
        0
    } else {
        1 + log2_floor(n / 2)
    }
}

/// `floor(log2(n))`, or 0 where `n` is 0.
pub fn ilog2(n: u32) -> (r: u32)
    ensures
        r == log2_floor(n as nat),
{
    let mut x: u32 = n;
    let mut r: u32 = 0;
    while x > 1
        invariant
            r + log2_floor(x as nat) == log2_floor(n as nat),
            r + x <= n || n <= 1,
        decreases x,
    {
        x = x / 2;
        r = r + 1;
    }
    r
}

/// `r` is the integer square root of `x`.
pub open spec fn is_sqrt_floor(x: int, r: int) -> bool {
    r >= 0 && r * r <= x < (r + 1) * (r + 1)
}

/// The integer square root of `x`.
pub open spec fn sqrt_floor(x: int) -> int {
    choose|r: int| is_sqrt_floor(x, r)
}

proof fn lemma_sqrt_unique(x: int, a: int, b: int)
    requires
        is_sqrt_floor(x, a),
        is_sqrt_floor(x, b),
    ensures
        a == b,
{
    if a < b {
        assert((a + 1) * (a + 1) <= b * b) by (nonlinear_arith)
            requires
                0 <= a,
                a + 1 <= b,
        ;
    } else if b < a {
        assert((b + 1) * (b + 1) <= a * a) by (nonlinear_arith)
            requires
                0 <= b,
                b + 1 <= a,
        ;
    }
}

/// The integer square root of `x`, for `x` below `2^62`.
pub fn isqrt(x: u64) -> (r: u64)
    requires
        x < 0x4000_0000_0000_0000,
    ensures
        r == sqrt_floor(x as int),
        r * r <= x < (r + 1) * (r + 1),
        r < 0x8000_0000,
{
    let mut lo: u64 = 0;
    let mut hi: u64 = 0x8000_0000;
    while hi - lo > 1
        invariant
            lo < hi <= 0x8000_0000,
            lo * lo <= x,
            x < hi * hi,
        decreases hi - lo,
    {
        let mid = lo + (hi - lo) / 2;
        assert(mid * mid <= 0x4000_0000_0000_0000) by (nonlinear_arith)
            requires
                mid <= 0x8000_0000,
        ;
        if mid * mid <= x {
            lo = mid;
        } else {
            hi = mid;
        }
    }
    proof {
        assert(is_sqrt_floor(x as int, lo as int));
        let c = choose|r: int| is_sqrt_floor(x as int, r);
        lemma_sqrt_unique(x as int, c, lo as int);
    }
    lo
}

} // verus!
