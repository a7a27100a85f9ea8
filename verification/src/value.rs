//! The ten-trit ternary machine word.
//!
//! Every Malbolge memory cell and register is an integer in
//! `[0, 59048]` (`3^10 - 1`).  The `Value` type keeps that range as a type
//! invariant, so a cell can never hold more than ten base-3 digits.

use vstd::prelude::*;

verus! {

/// The largest representable ternary word, `3^10 - 1`.
pub const MAX_VALUE: u16 = 59048;

/// `3^n`, the weight of the `n`-th trit.
pub open spec fn pow3(n: nat) -> nat
    decreases n,
{
    if n == 0 {
        1
    } else {
        3 * pow3((n - 1) as nat)
    }
}

/// One trit of the crazy operation: the table of the Malbolge
/// specification, indexed by a trit `a` of the left operand and a
/// trit `b` of the right operand.
pub open spec fn crz_trit(a: int, b: int) -> int {
    if b == 0 {
        if a == 0 {
            1
        } else {
            0
        }
    } else if b == 1 {
        if a == 0 {
            1
        } else if a == 1 {
            0
        } else {
            2
        }
    } else {
        if a == 0 {
            2
        } else if a == 1 {
            2
        } else {
            1
        }
    }
}

/// The crazy operation on the low `n` trits of `a` and `b`,
/// assembled little-endian.
pub open spec fn crz_low(a: int, b: int, n: nat) -> int
    decreases n,
{
    if n == 0 {
        0
    } else {
        crz_trit(a % 3, b % 3) + 3 * crz_low(a / 3, b / 3, (n - 1) as nat)
    }
}

/// The crazy operation over full ten-trit words.
pub open spec fn crz_spec(a: int, b: int) -> int {
    crz_low(a, b, 10)
}

/// Rotating the ten trits of `v` one position to the right: the
/// least-significant trit becomes the most-significant one.
pub open spec fn shr_spec(v: int) -> int {
    19683 * (v % 3) + v / 3
}

/// Rotating the ten trits of `v` one position to the left; the inverse
/// of `shr_spec` on the ten-trit range.
pub open spec fn shl_spec(v: int) -> int {
    (v % 19683) * 3 + v / 19683
}

/// `shr_spec` applied `n` times.
pub open spec fn shr_iter(v: int, n: nat) -> int
    decreases n,
{
    if n == 0 {
        v
    } else {
        shr_spec(shr_iter(v, (n - 1) as nat))
    }
}

/// A ten-trit ternary value in `[0, 59048]`, compared by its numeric
/// value alone.
#[derive(Clone, Copy, PartialEq, Eq, Structural, Debug)]
pub struct Value {
    val: u16,
}

impl View for Value {
    type V = int;

    closed spec fn view(&self) -> int {
        self.val as int
    }
}

impl Value {
    #[verifier::type_invariant]
    spec fn in_range(self) -> bool {
        self.val <= MAX_VALUE
    }

    /// The value 0.
    pub fn zero() -> (r: Self)
        ensures
            r@ == 0,
    {
        Value { val: 0 }
    }

    /// The value `val`; construction is restricted to the ten-trit range.
    pub fn new(val: u16) -> (r: Self)
        requires
            val <= MAX_VALUE,
        ensures
            r@ == val,
    {
        Value { val }
    }

    /// The underlying integer.
    pub fn val(&self) -> (r: u16)
        ensures
            r == self@,
            r <= MAX_VALUE,
    {
        proof {
            use_type_invariant(self);
        }
        self.val
    }

    /// Adds one, wrapping from 59048 back to 0.
    pub fn incr(&mut self)
        ensures
            final(self)@ == (old(self)@ + 1) % 59049,
    {
        proof {
            use_type_invariant(&*self);
        }
        if self.val == MAX_VALUE {
            self.val = 0;
        } else {
            self.val = self.val + 1;
        }
    }

    /// Rotates the ternary value one trit to the right.
    pub fn shr(&self) -> (r: Self)
        ensures
            r@ == shr_spec(self@),
            0 <= r@ <= 59048,
    {
        proof {
            use_type_invariant(self);
        }
        let val = 19683 * (self.val % 3) + self.val / 3;
        Value { val }
    }

    /// Performs the crazy operation with `self` as the left operand and
    /// `other` as the right one; the operation is not commutative.
    pub fn crz(&self, other: Self) -> (r: Self)
        ensures
            r@ == crz_spec(self@, other@),
            0 <= r@ <= 59048,
    {
        proof {
            use_type_invariant(self);
            use_type_invariant(&other);
        }
        let mut a: u16 = self.val;
        let mut b: u16 = other.val;
        let mut pow: u32 = 1;
        let mut acc: u32 = 0;
        let mut t: usize = 0;
        while t < 10
            invariant
                t <= 10,
                pow == pow3(t as nat),
                pow <= 59049,
                acc < pow,
                acc + pow * crz_low(a as int, b as int, (10 - t) as nat) == crz_spec(
                    self@,
                    other@,
                ),
            decreases 10 - t,
        {
            proof {
                lemma_pow3_bounds(t as nat);
                lemma_pow3_bounds((t + 1) as nat);
            }
            let d = crz_trit_ex(a % 3, b % 3);
            proof {
                assert(pow * (crz_trit(a as int % 3, b as int % 3) + 3 * crz_low(
                    a as int / 3,
                    b as int / 3,
                    (10 - t - 1) as nat,
                )) == pow * crz_trit(a as int % 3, b as int % 3) + (3 * pow) * crz_low(
                    a as int / 3,
                    b as int / 3,
                    (10 - t - 1) as nat,
                )) by (nonlinear_arith);
                lemma_crz_low_bound(a as int / 3, b as int / 3, (10 - t - 1) as nat);
                assert(pow * (d as int) <= pow * 2) by (nonlinear_arith)
                    requires
                        d <= 2,
                        pow >= 1,
                ;
            }
            acc = acc + pow * (d as u32);
            a = a / 3;
            b = b / 3;
            pow = pow * 3;
            t = t + 1;
        }
        proof {
            assert(crz_low(a as int, b as int, 0) == 0);
            lemma_pow3_bounds(10);
        }
        Value { val: acc as u16 }
    }
}

/// One trit of the crazy operation, as executable code.
fn crz_trit_ex(a: u16, b: u16) -> (r: u16)
    requires
        a < 3,
        b < 3,
    ensures
        r as int == crz_trit(a as int, b as int),
        r <= 2,
{
    if b == 0 {
        if a == 0 {
            1
        } else {
            0
        }
    } else if b == 1 {
        if a == 0 {
            1
        } else if a == 1 {
            0
        } else {
            2
        }
    } else {
        if a == 0 {
            2
        } else if a == 1 {
            2
        } else {
            1
        }
    }
}

/// `pow3` grows monotonically and stays within `u32` range up to `3^10`.
proof fn lemma_pow3_bounds(n: nat)
    requires
        n <= 10,
    ensures
        pow3(n) >= 1,
        pow3(n) <= 59049,
    decreases n,
{
    if n > 0 {
        lemma_pow3_bounds((n - 1) as nat);
        assert(pow3(10) == 59049) by {
            reveal_with_fuel(pow3, 11);
        }
        assert(pow3(n) == 3 * pow3((n - 1) as nat));
        lemma_pow3_monotone(n, 10);
    }
}

/// `pow3` is monotone in its argument.
proof fn lemma_pow3_monotone(m: nat, n: nat)
    requires
        m <= n,
    ensures
        pow3(m) <= pow3(n),
    decreases n,
{
    if m < n {
        lemma_pow3_monotone(m, (n - 1) as nat);
        lemma_pow3_pos((n - 1) as nat);
    }
}

/// `pow3` is positive.
proof fn lemma_pow3_pos(n: nat)
    ensures
        pow3(n) >= 1,
    decreases n,
{
    if n > 0 {
        lemma_pow3_pos((n - 1) as nat);
    }
}

/// The crazy operation on `n` trits stays below `3^n`.
pub proof fn lemma_crz_low_bound(a: int, b: int, n: nat)
    ensures
        0 <= crz_low(a, b, n) < pow3(n),
    decreases n,
{
    if n > 0 {
        lemma_crz_low_bound(a / 3, b / 3, (n - 1) as nat);
    }
}

/// The crazy operation over ten trits stays in the ten-trit range.
pub proof fn lemma_crz_range(a: int, b: int)
    ensures
        0 <= crz_spec(a, b) <= 59048,
{
    lemma_crz_low_bound(a, b, 10);
    assert(pow3(10) == 59049) by {
        reveal_with_fuel(pow3, 11);
    }
}

/// `pow3` turns addition of exponents into multiplication.
proof fn lemma_pow3_add(a: nat, b: nat)
    ensures
        pow3(a + b) == pow3(a) * pow3(b),
    decreases a,
{
    if a == 0 {
        assert(pow3(b) == 1 * pow3(b));
    } else {
        lemma_pow3_add((a - 1) as nat, b);
        assert(3 * (pow3((a - 1) as nat) * pow3(b)) == (3 * pow3((a - 1) as nat)) * pow3(b))
            by (nonlinear_arith);
        assert(pow3(a + b) == 3 * pow3((a + b - 1) as nat));
    }
}

/// After `k` right rotations the low `k` trits of `v` stand on top of the
/// remaining high trits: `shr_iter(v, k) == (v % 3^k) * 3^(10-k) + v / 3^k`.
proof fn lemma_shr_iter_char(v: int, k: nat)
    requires
        0 <= v <= 59048,
        k <= 10,
    ensures
        shr_iter(v, k) == (v % pow3(k) as int) * pow3((10 - k) as nat) as int + v / pow3(k) as int,
    decreases k,
{
    if k == 0 {
        assert(v % 1 == 0 && v / 1 == v);
    } else {
        let j = (k - 1) as nat;
        lemma_shr_iter_char(v, j);
        let pj = pow3(j) as int;
        let pr = pow3((9 - j) as nat) as int;
        let m = v % pj;
        let q = v / pj;
        lemma_pow3_pos(j);
        lemma_pow3_pos((9 - j) as nat);
        assert(pow3((10 - j) as nat) == 3 * pr);
        // the value after j rotations
        assert(shr_iter(v, j) == m * (3 * pr) + q);
        assert(m * (3 * pr) == 3 * (m * pr)) by (nonlinear_arith);
        // one more rotation: split off the low trit of q
        assert((3 * (m * pr) + q) % 3 == q % 3) by {
            vstd::arithmetic::div_mod::lemma_mod_multiples_vanish(m * pr, q, 3);
        }
        assert((3 * (m * pr) + q) / 3 == m * pr + q / 3) by {
            vstd::arithmetic::div_mod::lemma_hoist_over_denominator(q, m * pr, 3nat);
            assert((m * pr) * 3 == 3 * (m * pr)) by (nonlinear_arith);
        }
        assert(shr_iter(v, k) == 19683 * (q % 3) + m * pr + q / 3);
        // the target decomposition at k
        assert(v % (pj * 3) == pj * (q % 3) + m) by {
            vstd::arithmetic::div_mod::lemma_mod_breakdown(v, pj, 3);
        }
        assert(v / (pj * 3) == q / 3) by {
            vstd::arithmetic::div_mod::lemma_div_denominator(v, pj, 3);
        }
        assert(pow3(k) == pj * 3) by {
            assert(pow3(k) == 3 * pj);
        }
        assert(pj * pr == 19683) by {
            lemma_pow3_add(j, (9 - j) as nat);
            assert(pow3(9) == 19683) by {
                reveal_with_fuel(pow3, 10);
            }
        }
        assert((pj * (q % 3) + m) * pr == (pj * pr) * (q % 3) + m * pr) by (nonlinear_arith);
        assert((v % pow3(k) as int) * pow3((10 - k) as nat) as int + v / pow3(k) as int == 19683
            * (q % 3) + m * pr + q / 3);
    }
}

/// Rotating right ten times returns any ten-trit value to itself, so the
/// orbit of every value under `shr_spec` has a length that divides 10.
pub proof fn lemma_shr_orbit(v: int)
    requires
        0 <= v <= 59048,
    ensures
        shr_iter(v, 10) == v,
{
    lemma_shr_iter_char(v, 10);
    assert(pow3(10) == 59049) by {
        reveal_with_fuel(pow3, 11);
    }
    assert(v % 59049 == v) by {
        vstd::arithmetic::div_mod::lemma_small_mod(v as nat, 59049nat);
    }
    assert(v / 59049 == 0) by {
        vstd::arithmetic::div_mod::lemma_basic_div(v, 59049);
    }
    assert(pow3(0) == 1);
    let x = shr_iter(v, 10nat);
    assert(x == (v % 59049) * 1 + v / 59049);
    assert(x == v) by (nonlinear_arith)
        requires
            x == (v % 59049) * 1 + v / 59049,
            v % 59049 == v,
            v / 59049 == 0,
    ;
}

/// A right rotation stays in the ten-trit range, a left rotation undoes a
/// right one, and a right rotation undoes a left one.
pub proof fn lemma_shr_shl_inverse(v: int)
    requires
        0 <= v <= 59048,
    ensures
        0 <= shr_spec(v) <= 59048,
        0 <= shl_spec(v) <= 59048,
        shl_spec(shr_spec(v)) == v,
        shr_spec(shl_spec(v)) == v,
{
    let w = 19683 * (v % 3) + v / 3;
    assert(w % 19683 == v / 3) by {
        vstd::arithmetic::div_mod::lemma_mod_multiples_vanish(v % 3, v / 3, 19683);
        vstd::arithmetic::div_mod::lemma_small_mod((v / 3) as nat, 19683nat);
    }
    assert(w / 19683 == v % 3) by {
        vstd::arithmetic::div_mod::lemma_hoist_over_denominator(v / 3, v % 3, 19683nat);
        assert((v / 3) / 19683 == 0) by {
            vstd::arithmetic::div_mod::lemma_basic_div(v / 3, 19683);
        }
    }
    assert(shl_spec(w) == (v / 3) * 3 + v % 3);
    assert(v == 3 * (v / 3) + v % 3) by {
        vstd::arithmetic::div_mod::lemma_fundamental_div_mod(v, 3);
    }
    let u = (v % 19683) * 3 + v / 19683;
    assert(u % 3 == v / 19683) by {
        vstd::arithmetic::div_mod::lemma_mod_multiples_vanish(v % 19683, v / 19683, 3);
        vstd::arithmetic::div_mod::lemma_small_mod((v / 19683) as nat, 3nat);
    }
    assert(u / 3 == v % 19683) by {
        vstd::arithmetic::div_mod::lemma_hoist_over_denominator(v / 19683, v % 19683, 3nat);
        assert((v / 19683) / 3 == 0) by {
            vstd::arithmetic::div_mod::lemma_basic_div(v / 19683, 3);
        }
    }
    assert(shr_spec(u) == 19683 * (v / 19683) + v % 19683);
    assert(v == 19683 * (v / 19683) + v % 19683) by {
        vstd::arithmetic::div_mod::lemma_fundamental_div_mod(v, 19683);
    }
}

/// Right rotation is a bijection on the ten-trit range: it is injective,
/// and every value in range is the rotation of some value in range.
pub proof fn lemma_shr_bijection()
    ensures
        forall|a: int, b: int|
            0 <= a <= 59048 && 0 <= b <= 59048 && #[trigger] shr_spec(a) == #[trigger] shr_spec(b)
                ==> a == b,
{
    assert forall|a: int, b: int|
        0 <= a <= 59048 && 0 <= b <= 59048 && #[trigger] shr_spec(a) == #[trigger] shr_spec(
            b,
        ) implies a == b by {
        lemma_shr_shl_inverse(a);
        lemma_shr_shl_inverse(b);
    }
}

/// Right rotation is onto the ten-trit range: every value in range is
/// the rotation of some value in range.
pub proof fn lemma_shr_surjective(w: int)
    requires
        0 <= w <= 59048,
    ensures
        exists|v: int| 0 <= v <= 59048 && #[trigger] shr_spec(v) == w,
{
    lemma_shr_shl_inverse(w);
    assert(0 <= shl_spec(w) <= 59048 && shr_spec(shl_spec(w)) == w);
}

/// The crazy operation is not commutative: swapping the operands of a
/// single concrete pair already changes the result.
pub proof fn lemma_crz_not_commutative()
    ensures
        exists|a: int, b: int| #[trigger] crz_spec(a, b) != crz_spec(b, a),
{
    assert(crz_spec(0, 1) == 29524 && crz_spec(1, 0) == 29523) by {
        reveal_with_fuel(crz_low, 11);
    }
}

} // verus!
