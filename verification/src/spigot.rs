//! The digits of pi by a spigot: a mixed-radix fraction held in an array
//! of remainders is multiplied by ten thousand term by term, from the last
//! term to the first; each pass carries out the next four decimal digits
//! and leaves the remainders for the next pass.
use vstd::prelude::*;

verus! {

/// The base of one pass: four decimal digits.
pub const SPIGOT_BASE: u32 = 10000;

/// The number of terms of the fraction at the start.
pub const SPIGOT_TERMS: u32 = 35000;

/// The number of terms one pass uses up.
pub const SPIGOT_STEP: u32 = 14;

/// The value of every remainder at the start.
pub const SPIGOT_INIT: u32 = 2000;

/// A bound on the products of one pass, that keeps them in 32 bits.
pub open spec fn pass_bound() -> int {
    700_000_000
}

/// A bound on the remainder of term `j`: the initial value, or below the
/// term's divisor `2j + 1`.
pub open spec fn rem_bound(j: int) -> int {
    if j < 1000 {
        2000
    } else {
        2 * j
    }
}

/// One pass over terms `b`, `b - 1`, ..., 1 of the remainders `f`, with
/// carry `d` coming in: term `b` takes `d * b + f[b - 1] * 10000`, keeps
/// its remainder by `2b - 1` and hands the quotient on.  The result is the
/// new remainders and the final carry.
pub open spec fn spigot_pass(f: Seq<u32>, b: nat, d: int) -> (Seq<u32>, int)
    decreases b,
{
    if b == 0 {
        (f, d)
    } else {
        let n = d * b + f[b - 1] * SPIGOT_BASE;
        let g = 2 * b - 1;
        spigot_pass(f.update(b - 1, (n % g) as u32), (b - 1) as nat, n / g)
    }
}

/// The remainders `f` of terms 1 to `b` weighted by `w`: term `j` counts
/// `f[j - 1] * w(j)`.
pub open spec fn wsum(f: Seq<u32>, w: spec_fn(int) -> int, b: nat) -> int
    decreases b,
{
    if b == 0 {
        0
    } else {
        wsum(f, w, (b - 1) as nat) + f[b - 1] * w(b as int)
    }
}

/// `(j - 1)!`, for `j >= 1`.
pub open spec fn fact(n: nat) -> nat
    decreases n,
{
    if n == 0 {
        1
    } else {
        n * fact((n - 1) as nat)
    }
}

/// The product of the odd numbers `2i + 1` for `j <= i < c`.
pub open spec fn odd_prod(j: int, c: int) -> int
    decreases c - j,
{
    if j >= c {
        1
    } else {
        (2 * j + 1) * odd_prod(j + 1, c)
    }
}

/// The weight of term `j` among `c` terms: `(j - 1)! / (3 * 5 * ... * (2j - 1))`,
/// scaled by `3 * 5 * ... * (2c - 1)` to an integer.  Unscaled, these are the
/// terms of `pi / 2 = 1 + 1/3 + (1*2)/(3*5) + (1*2*3)/(3*5*7) + ...`, so the
/// remainders `f` stand for the number `sum f[j - 1] * w(j)`: 2000 in every
/// term is a thousand times pi, cut after `c` terms.
#[verifier::opaque]
pub open spec fn pi_weight(c: int) -> spec_fn(int) -> int {
    |j: int| fact((j - 1) as nat) * odd_prod(j, c)
}

/// Weights of the pi series: each weight is the previous one times
/// `j / (2j + 1)`.
pub open spec fn series_weights(w: spec_fn(int) -> int, c: int) -> bool {
    forall|j: int| 1 <= j < c ==> #[trigger] w(j + 1) * (2 * j + 1) == w(j) * j
}

/// The scaled weights of the pi series are weights of the pi series.
pub proof fn lemma_pi_weight(c: int)
    ensures
        series_weights(pi_weight(c), c),
        pi_weight(c)(1) == odd_prod(1, c),
{
    reveal(pi_weight);
    let w = pi_weight(c);
    assert forall|j: int| 1 <= j < c implies #[trigger] w(j + 1) * (2 * j + 1) == w(j) * j by {
        let a = fact((j - 1) as nat) as int;
        let o = odd_prod(j + 1, c);
        assert(fact(j as nat) == j * a);
        assert(odd_prod(j, c) == (2 * j + 1) * o);
        assert(w(j + 1) == (j * a) * o);
        assert(w(j) == a * ((2 * j + 1) * o));
        assert((j * a) * o * (2 * j + 1) == a * ((2 * j + 1) * o) * j) by (nonlinear_arith);
    }
    assert(fact(0) == 1);
    assert(w(1) == fact(0) * odd_prod(1, c));
}

proof fn lemma_wsum_same(f: Seq<u32>, g: Seq<u32>, w: spec_fn(int) -> int, b: nat)
    requires
        b <= f.len(),
        b <= g.len(),
        forall|j: int| 0 <= j < b ==> f[j] == g[j],
    ensures
        wsum(f, w, b) == wsum(g, w, b),
    decreases b,
{
    if b > 0 {
        lemma_wsum_same(f, g, w, (b - 1) as nat);
    }
}

/// A pass over terms `b` down to 1 leaves the terms above `b` alone.
proof fn lemma_pass_frame(f: Seq<u32>, b: nat, d: int)
    requires
        b <= f.len(),
    ensures
        spigot_pass(f, b, d).0.len() == f.len(),
        forall|j: int| b <= j < f.len() ==> #[trigger] spigot_pass(f, b, d).0[j] == f[j],
    decreases b,
{
    if b > 0 {
        let n = d * b + f[b - 1] * SPIGOT_BASE;
        let g = 2 * b - 1;
        lemma_pass_frame(f.update(b - 1, (n % g) as u32), (b - 1) as nat, n / g);
    }
}

/// What a pass over terms `b` down to 1 does, term by term: with carries
/// `ds` (`ds[b]` coming in, `ds[0]` going out), term `k` turns
/// `k * ds[k] + 10000 * f[k - 1]` into `(2k - 1) * ds[k - 1]` plus its new
/// remainder, below `2k - 1`.
#[verifier::rlimit(40)]
#[verifier::spinoff_prover]
proof fn lemma_pass_carries(f: Seq<u32>, b: nat, d: int) -> (ds: Seq<int>)
    requires
        b <= f.len(),
        b <= SPIGOT_TERMS,
        d >= 0,
    ensures
        ds.len() == b + 1,
        ds[b as int] == d,
        ds[0] == spigot_pass(f, b, d).1,
        forall|k: int| 1 <= k <= b ==> {
            let f1 = spigot_pass(f, b, d).0;
            &&& (2 * k - 1) * ds[k - 1] + f1[k - 1] == k * #[trigger] ds[k] + SPIGOT_BASE * f[k - 1]
            &&& f1[k - 1] < 2 * k - 1
            &&& ds[k - 1] >= 0
        },
    decreases b,
{
    if b == 0 {
        seq![d]
    } else {
        let n = d * b + f[b - 1] * SPIGOT_BASE;
        let g = 2 * b - 1;
        let q = n / g;
        let r = n % g;
        assert(n >= 0) by (nonlinear_arith)
            requires
                d >= 0,
                b >= 0,
                n == d * b + f[b - 1] * SPIGOT_BASE,
        ;
        assert(q * g + r == n && 0 <= r < g && q >= 0) by (nonlinear_arith)
            requires
                g > 0,
                n >= 0,
                q == n / g,
                r == n % g,
        ;
        let f2 = f.update(b - 1, r as u32);
        let ds1 = lemma_pass_carries(f2, (b - 1) as nat, q);
        lemma_pass_frame(f2, (b - 1) as nat, q);
        let f1 = spigot_pass(f, b, d).0;
        assert(f1 == spigot_pass(f2, (b - 1) as nat, q).0);
        assert(f1[b - 1] == r);
        let ds = ds1.push(d);
        assert forall|k: int| 1 <= k <= b implies {
            &&& (2 * k - 1) * ds[k - 1] + f1[k - 1] == k * #[trigger] ds[k] + SPIGOT_BASE * f[k - 1]
            &&& f1[k - 1] < 2 * k - 1
            &&& ds[k - 1] >= 0
        } by {
            if k == b {
                assert(ds[k - 1] == q);
                assert(ds[k] == d);
                assert((2 * k - 1) * q + r == k * d + SPIGOT_BASE * f[k - 1]) by (nonlinear_arith)
                    requires
                        k == b,
                        g == 2 * b - 1,
                        q * g + r == n,
                        n == d * b + f[b - 1] * SPIGOT_BASE,
                ;
            } else {
                assert(ds[k] == ds1[k]);
                assert(ds[k - 1] == ds1[k - 1]);
                assert(f2[k - 1] == f[k - 1]);
            }
        }
        ds
    }
}

/// A pass over terms `b` down to 1 keeps the weighted value: the carry
/// going out, weighted by `w(1)`, plus the new remainders equals the carry
/// coming in at term `b` plus ten thousand times the old remainders.
proof fn lemma_pass_value(f: Seq<u32>, b: nat, d: int, w: spec_fn(int) -> int)
    requires
        1 <= b <= f.len(),
        b <= SPIGOT_TERMS,
        d >= 0,
        series_weights(w, b as int),
    ensures
        ({
            let (f1, d1) = spigot_pass(f, b, d);
            d1 * w(1) + wsum(f1, w, b) == d * w(b as int) * b + SPIGOT_BASE * wsum(f, w, b)
        }),
    decreases b,
{
    let n = d * b + f[b - 1] * SPIGOT_BASE;
    let g = 2 * b - 1;
    let r = n % g;
    let q = n / g;
    assert(n >= 0) by (nonlinear_arith)
        requires
            d >= 0,
            b >= 0,
            n == d * b + f[b - 1] * SPIGOT_BASE,
    ;
    assert(q * g + r == n && 0 <= r < g && q >= 0) by (nonlinear_arith)
        requires
            g > 0,
            n >= 0,
            q == n / g,
            r == n % g,
    ;
    let f2 = f.update(b - 1, r as u32);
    let (f1, d1) = spigot_pass(f, b, d);
    assert((f1, d1) == spigot_pass(f2, (b - 1) as nat, q));
    lemma_pass_frame(f2, (b - 1) as nat, q);
    assert(f1[b - 1] == r);
    let bm = (b - 1) as nat;
    assert(wsum(f1, w, b) == wsum(f1, w, bm) + r * w(b as int));
    assert(wsum(f, w, b) == wsum(f, w, bm) + f[b - 1] * w(b as int));
    if b == 1 {
        assert(wsum(f1, w, 0) == 0 && wsum(f, w, 0) == 0);
        assert(g == 1);
        assert(d1 == q);
        assert(q * w(1) + r * w(1) == (q * g + r) * w(1)) by (nonlinear_arith)
            requires
                g == 1,
        ;
        assert(n * w(1) == d * w(1) * b + SPIGOT_BASE * (f[0] * w(1))) by (nonlinear_arith)
            requires
                n == d * b + f[b - 1] * SPIGOT_BASE,
                b == 1,
        ;
    } else {
        lemma_pass_value(f2, bm, q, w);
        lemma_wsum_same(f2, f, w, bm);
        // the carry handed to term b - 1 is worth what term b gave up
        assert(w(bm as int + 1) * (2 * bm + 1) == w(bm as int) * bm);
        let wb = w(b as int);
        let wm = w(bm as int);
        assert(q * wm * bm == q * (wb * g)) by (nonlinear_arith)
            requires
                wb * (2 * bm + 1) == wm * bm,
                g == 2 * bm + 1,
        ;
        assert(q * (wb * g) + r * wb == n * wb) by (nonlinear_arith)
            requires
                q * g + r == n,
        ;
        assert(n * wb == d * wb * b + SPIGOT_BASE * (f[b - 1] * wb)) by (nonlinear_arith)
            requires
                n == d * b + f[b - 1] * SPIGOT_BASE,
        ;
    }
}

/// One pass of the spigot, from a zero carry over terms `c` down to 1,
/// done right: there are carries `ds` (none coming in, `ds[0]` going out)
/// with which every term `k` turns `k * ds[k] + 10000 * f[k - 1]` into
/// `(2k - 1) * ds[k - 1]` plus its new remainder, below `2k - 1`; so the
/// pass multiplies the number the remainders stand for by ten thousand and
/// carries out its whole part: for weights `w` of the pi series the carry
/// times `w(1)` plus the new remainders' value is ten thousand times the
/// old remainders' value.  The terms above `c` are left alone.
pub proof fn law_spigot_pass(f: Seq<u32>, c: nat, w: spec_fn(int) -> int)
    requires
        1 <= c <= f.len(),
        c <= SPIGOT_TERMS,
        series_weights(w, c as int),
    ensures
        ({
            let (f1, d) = spigot_pass(f, c, 0);
            &&& f1.len() == f.len()
            &&& forall|j: int| c <= j < f.len() ==> #[trigger] f1[j] == f[j]
            &&& d * w(1) + wsum(f1, w, c) == SPIGOT_BASE * wsum(f, w, c)
            &&& exists|ds: Seq<int>|
                {
                    &&& ds.len() == c + 1
                    &&& ds[c as int] == 0
                    &&& ds[0] == d
                    &&& forall|k: int|
                        1 <= k <= c ==> {
                            &&& (2 * k - 1) * ds[k - 1] + f1[k - 1] == k * #[trigger] ds[k] + SPIGOT_BASE * f[k - 1]
                            &&& f1[k - 1] < 2 * k - 1
                        }
                }
        }),
{
    lemma_pass_frame(f, c, 0);
    lemma_pass_value(f, c, 0, w);
    let ds = lemma_pass_carries(f, c, 0);
    let (f1, d) = spigot_pass(f, c, 0);
    assert(0 * w(c as int) * c == 0);
    assert forall|k: int| 1 <= k <= c implies {
        &&& (2 * k - 1) * ds[k - 1] + f1[k - 1] == k * #[trigger] ds[k] + SPIGOT_BASE * f[k - 1]
        &&& f1[k - 1] < 2 * k - 1
    } by {}
}

/// The carry of one term stays small enough for the next term.
proof fn lemma_carry_bound(d: int, b: int, f: int)
    requires
        b >= 2,
        d >= 0,
        f >= 0,
        d * b <= pass_bound(),
        f * SPIGOT_BASE <= pass_bound(),
    ensures
        (d * b + f * SPIGOT_BASE) / (2 * b - 1) * (b - 1) <= pass_bound(),
{
    let c = pass_bound();
    let n = d * b + f * SPIGOT_BASE;
    let g = 2 * b - 1;
    let q = n / g;
    assert(q * g <= n) by (nonlinear_arith)
        requires
            g > 0,
            n >= 0,
            q == n / g,
    ;
    assert(q >= 0) by (nonlinear_arith)
        requires
            g > 0,
            n >= 0,
            q == n / g,
    ;
    assert(q * g * (b - 1) <= n * (b - 1)) by (nonlinear_arith)
        requires
            q * g <= n,
            b >= 2,
    ;
    assert(n * (b - 1) <= c * g) by (nonlinear_arith)
        requires
            n == d * b + f * SPIGOT_BASE,
            d * b <= c,
            f * SPIGOT_BASE <= c,
            f >= 0,
            b >= 2,
            g == 2 * b - 1,
    ;
    assert(q * (b - 1) <= c) by (nonlinear_arith)
        requires
            q * g * (b - 1) <= c * g,
            g > 0,
            q >= 0,
            b >= 2,
    ;
}


/// One pass of `next_digits` in terms of the pi series: the group given
/// out, with the carry held back, is ten thousand times the value of the
/// remainders less what they keep.
#[verifier::spinoff_prover]
proof fn lemma_next_value(f0: Seq<u32>, f1: Seq<u32>, c: nat, d: int, e0: int)
    requires
        1 <= c <= f0.len(),
        c <= SPIGOT_TERMS,
        f1 == spigot_pass(f0, c, 0).0,
        d == spigot_pass(f0, c, 0).1,
    ensures
        ({
            let w = pi_weight(c as int);
            let b = SPIGOT_BASE as int;
            &&& ((e0 + d / b) * b + d % b - e0 * b) * w(1) + wsum(f1, w, c) == b * wsum(f0, w, c)
            &&& forall|k: int| 1 <= k <= c ==> #[trigger] f1[k - 1] < 2 * k - 1
        }),
{
    let w = pi_weight(c as int);
    let b = SPIGOT_BASE as int;
    assert(d * w(1) + wsum(f1, w, c) == b * wsum(f0, w, c)) by {
        lemma_pi_weight(c as int);
        lemma_pass_value(f0, c, 0, w);
        assert(0 * w(c as int) * c == 0);
    }
    let x = (e0 + d / b) * b + d % b - e0 * b;
    assert(x == d) by (nonlinear_arith)
        requires
            b == 10000,
            x == (e0 + d / b) * b + d % b - e0 * b,
    ;
    assert(x * w(1) == d * w(1));
    assert(forall|k: int| 1 <= k <= c ==> #[trigger] f1[k - 1] < 2 * k - 1) by {
        lemma_pass_bounds(f0, c, 0);
    }
}

/// After a pass over terms `b` down to 1, the remainder of term `k` is
/// below `2k - 1`.
proof fn lemma_pass_bounds(f: Seq<u32>, b: nat, d: int)
    requires
        b <= f.len(),
        b <= SPIGOT_TERMS,
        d >= 0,
    ensures
        forall|k: int| 1 <= k <= b ==> #[trigger] spigot_pass(f, b, d).0[k - 1] < 2 * k - 1,
    decreases b,
{
    if b > 0 {
        let n = d * b + f[b - 1] * SPIGOT_BASE;
        let g = 2 * b - 1;
        let q = n / g;
        let r = n % g;
        assert(n >= 0) by (nonlinear_arith)
            requires
                d >= 0,
                b >= 0,
                n == d * b + f[b - 1] * SPIGOT_BASE,
        ;
        assert(0 <= r < g && q >= 0) by (nonlinear_arith)
            requires
                g > 0,
                n >= 0,
                q == n / g,
                r == n % g,
        ;
        let f2 = f.update(b - 1, r as u32);
        lemma_pass_bounds(f2, (b - 1) as nat, q);
        lemma_pass_frame(f2, (b - 1) as nat, q);
        let f1 = spigot_pass(f, b, d).0;
        assert(f1 == spigot_pass(f2, (b - 1) as nat, q).0);
        assert forall|k: int| 1 <= k <= b implies #[trigger] f1[k - 1] < 2 * k - 1 by {
            if k == b {
                assert(f1[b - 1] == f2[b - 1]);
            }
        }
    }
}

/// The state of the spigot between passes: the remainders of the terms,
/// the number of terms still in use, the four digits held back from the
/// last pass, and the number of digits given out.
pub struct PiSpigot {
    f: Vec<u32>,
    c: u32,
    e: u32,
    cnt: u64,
}

impl PiSpigot {
    /// The remainders of the terms.
    pub closed spec fn remainders(&self) -> Seq<u32> {
        self.f@
    }

    /// The number of terms the next pass uses.
    pub closed spec fn terms_left(&self) -> nat {
        self.c as nat
    }

    /// The carry held back from the last pass, below ten thousand.
    pub closed spec fn held(&self) -> nat {
        self.e as nat
    }

    /// The number of digits given out so far.
    pub closed spec fn given(&self) -> nat {
        self.cnt as nat
    }

    /// The state is one that the passes reach from the start.
    pub closed spec fn wf(&self) -> bool {
        &&& self.f@.len() == SPIGOT_TERMS
        &&& self.c <= SPIGOT_TERMS
        &&& self.c % SPIGOT_STEP == 0
        &&& self.e < SPIGOT_BASE
        &&& SPIGOT_STEP * self.cnt == 4 * (SPIGOT_TERMS - self.c)
        &&& forall|j: int| 0 <= j < self.f@.len() ==> #[trigger] self.f@[j] <= rem_bound(j)
    }

    /// The spigot at the start: every remainder at 2000, all terms in use,
    /// no carry, no digit given out.
    pub fn new() -> (r: PiSpigot)
        ensures
            r.wf(),
            r.remainders() == Seq::new(SPIGOT_TERMS as nat, |j: int| SPIGOT_INIT),
            r.terms_left() == SPIGOT_TERMS,
            r.held() == 0,
            r.given() == 0,
    {
        let mut f: Vec<u32> = Vec::new();
        while f.len() < SPIGOT_TERMS as usize
            invariant
                f.len() <= SPIGOT_TERMS,
                forall|j: int| 0 <= j < f.len() ==> #[trigger] f@[j] == SPIGOT_INIT,
            decreases SPIGOT_TERMS - f.len(),
        {
            f.push(SPIGOT_INIT);
        }
        let r = PiSpigot { f, c: SPIGOT_TERMS, e: 0, cnt: 0 };
        assert(r.f@ == Seq::new(SPIGOT_TERMS as nat, |j: int| SPIGOT_INIT));
        r
    }

    /// The next four digits of pi: one pass over the terms in use, whose
    /// final carry `d` gives the group `held + d / 10000` (the first group
    /// is 3141); `d % 10000` is held back and the pass uses up fourteen
    /// terms.  Returns the number of digits given out before this group and
    /// the group, or `None` once every term is used up.
    pub fn next_digits(&mut self) -> (r: Option<(u64, u32)>)
        requires
            old(self).wf(),
        ensures
            final(self).wf(),
            old(self).terms_left() == 0 ==> r is None && final(self).remainders() == old(self).remainders()
                && final(self).terms_left() == 0 && final(self).held() == old(self).held() && final(self).given()
                == old(self).given(),
            old(self).terms_left() > 0 ==> {
                let (f1, d) = spigot_pass(old(self).remainders(), old(self).terms_left(), 0);
                &&& r == Some((old(self).given() as u64, (old(self).held() + d / SPIGOT_BASE as int) as u32))
                &&& final(self).remainders() == f1
                &&& final(self).held() == d % SPIGOT_BASE as int
                &&& final(self).terms_left() == old(self).terms_left() - SPIGOT_STEP
                &&& final(self).given() == old(self).given() + 4
            },
            old(self).terms_left() > 0 ==> {
                let c = old(self).terms_left();
                let w = pi_weight(c as int);
                let group = (r->0).1;
                &&& (group * SPIGOT_BASE + final(self).held() - old(self).held() * SPIGOT_BASE) * w(1) + wsum(
                    final(self).remainders(),
                    w,
                    c,
                ) == SPIGOT_BASE * wsum(old(self).remainders(), w, c)
                &&& forall|k: int| 1 <= k <= c ==> #[trigger] final(self).remainders()[k - 1] < 2 * k - 1
            },
    {
        if self.c == 0 {
            return None;
        }
        let ghost f0 = self.f@;
        let ghost e0 = self.e as int;
        let d = run_pass(&mut self.f, self.c);
        proof {
            lemma_next_value(f0, self.f@, self.c as nat, d as int, e0);
        }
        let group = self.e + d / SPIGOT_BASE;
        let at = self.cnt;
        self.e = d % SPIGOT_BASE;
        self.c = self.c - SPIGOT_STEP;
        self.cnt = self.cnt + 4;
        Some((at, group))
    }
}

/// One pass over terms `c`, ..., 1 of the remainders, from a zero carry:
/// the remainders become those of `spigot_pass` and its final carry is
/// returned.
fn run_pass(f: &mut Vec<u32>, c: u32) -> (d: u32)
    requires
        old(f)@.len() == SPIGOT_TERMS,
        c <= SPIGOT_TERMS,
        forall|j: int| 0 <= j < old(f)@.len() ==> #[trigger] old(f)@[j] <= rem_bound(j),
    ensures
        (final(f)@, d as int) == spigot_pass(old(f)@, c as nat, 0),
        final(f)@.len() == SPIGOT_TERMS,
        forall|j: int| 0 <= j < final(f)@.len() ==> #[trigger] final(f)@[j] <= rem_bound(j),
        d <= pass_bound() + 20_000_000,
{
    let ghost f0 = old(f)@;
    let mut d: u32 = 0;
    let mut b: u32 = c;
    while b > 0
        invariant
            f@.len() == SPIGOT_TERMS,
            b <= c <= SPIGOT_TERMS,
            forall|j: int| 0 <= j < f@.len() ==> #[trigger] f@[j] <= rem_bound(j),
            spigot_pass(f0, c as nat, 0) == spigot_pass(f@, b as nat, d as int),
            b >= 1 ==> d * b <= pass_bound(),
            d <= pass_bound() + 20_000_000,
        decreases b,
    {
        let ghost fb = f@;
        let ghost db = d as int;
        let x = f[(b - 1) as usize];
        proof {
            assert(x <= rem_bound(b - 1));
            assert(x * SPIGOT_BASE <= pass_bound());
        }
        let n = d * b + x * SPIGOT_BASE;
        let g = 2 * b - 1;
        let r = n % g;
        let q = n / g;
        proof {
            if b >= 2 {
                lemma_carry_bound(d as int, b as int, x as int);
                assert(q * (b - 1) <= pass_bound());
                assert(q <= pass_bound()) by (nonlinear_arith)
                    requires
                        q * (b - 1) <= pass_bound(),
                        b >= 2,
                ;
            } else {
                assert(g == 1);
                assert(x <= 2000);
            }
            assert(r < g);
            assert(r <= rem_bound(b - 1));
        }
        f.set((b - 1) as usize, r);
        d = q;
        b = b - 1;
        proof {
            assert(f@ == fb.update(b as int, r));
            assert(spigot_pass(fb, (b + 1) as nat, db) == spigot_pass(f@, b as nat, d as int));
        }
    }
    d
}

} // verus!
