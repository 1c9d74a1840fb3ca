//! Exact decimal amounts.
//!
//! The feed reports prices, quantities and cash amounts as decimal strings.
//! A `Decimal` holds such an amount exactly as `m / 10^e` with at most nine
//! fractional digits and a mantissa below `MAX_MANTISSA`. The representation
//! is canonical: a nonzero scale never carries a mantissa divisible by ten,
//! so two `Decimal`s hold the same amount exactly when their fields agree.
//!
//! The abstract value of a `Decimal` (its view) is the amount in billionths,
//! an integer: `d@ == v` means the amount is `v / 10^9`.

use vstd::prelude::*;
use vstd::arithmetic::div_mod::{lemma_fundamental_div_mod, lemma_fundamental_div_mod_converse};

verus! {

/// Exclusive bound on the mantissa: amounts stay below `10^14` units.
pub const MAX_MANTISSA: i128 = 100_000_000_000_000;

/// Ten to the `e`'th power.
pub open spec fn pow10(e: nat) -> int
    decreases e,
{
    if e == 0 {
        1
    } else {
        10 * pow10((e - 1) as nat)
    }
}

pub proof fn lemma_pow10_pos(e: nat)
    ensures
        pow10(e) >= 1,
    decreases e,
{
    if e > 0 {
        lemma_pow10_pos((e - 1) as nat);
    }
}

pub proof fn lemma_pow10_adds(a: nat, b: nat)
    ensures
        pow10(a + b) == pow10(a) * pow10(b),
    decreases a,
{
    if a == 0 {
    } else {
        lemma_pow10_adds((a - 1) as nat, b);
        assert(pow10(a + b) == 10 * pow10((a + b - 1) as nat));
        assert(10 * (pow10((a - 1) as nat) * pow10(b)) == (10 * pow10((a - 1) as nat)) * pow10(b))
            by (nonlinear_arith);
    }
}

pub proof fn lemma_pow10_increases(a: nat, b: nat)
    requires
        a <= b,
    ensures
        pow10(a) <= pow10(b),
{
    lemma_pow10_adds(a, (b - a) as nat);
    lemma_pow10_pos(a);
    lemma_pow10_pos((b - a) as nat);
    assert(pow10(a) * 1 <= pow10(a) * pow10((b - a) as nat)) by (nonlinear_arith)
        requires pow10(a) >= 1 && pow10((b - a) as nat) >= 1;
}

/// Strip trailing decimal zeros: reduce `m / 10^s` until the scale is spent
/// or the mantissa no longer divides by ten. Returns the reduced pair.
pub open spec fn dec_norm(m: int, s: nat) -> (int, nat)
    decreases s,
{
    if s > 0 && m % 10 == 0 {
        dec_norm(m / 10, (s - 1) as nat)
    } else {
        (m, s)
    }
}

pub proof fn lemma_dec_norm(m: int, s: nat)
    ensures
        dec_norm(m, s).1 <= s,
        m == dec_norm(m, s).0 * pow10((s - dec_norm(m, s).1) as nat),
        dec_norm(m, s).1 > 0 ==> dec_norm(m, s).0 % 10 != 0,
        m >= 0 ==> 0 <= dec_norm(m, s).0 <= m,
        m < 0 ==> m <= dec_norm(m, s).0 < 0,
        m != 0 ==> dec_norm(m, s).0 != 0,
    decreases s,
{
    if s > 0 && m % 10 == 0 {
        lemma_fundamental_div_mod(m, 10);
        lemma_dec_norm(m / 10, (s - 1) as nat);
        let (m2, s2) = dec_norm(m / 10, (s - 1) as nat);
        assert(m / 10 == m2 * pow10((s - 1 - s2) as nat));
        assert(m == 10 * (m2 * pow10((s - 1 - s2) as nat)));
        assert(10 * (m2 * pow10((s - 1 - s2) as nat)) == m2 * (10 * pow10((s - 1 - s2) as nat)))
            by (nonlinear_arith);
        assert(pow10((s - s2) as nat) == 10 * pow10((s - 1 - s2) as nat));
        if m > 0 {
            assert(m / 10 <= m) by (nonlinear_arith)
                requires m > 0 && m == 10 * (m / 10);
        }
        if m < 0 {
            assert(m <= m / 10) by (nonlinear_arith)
                requires m < 0 && m == 10 * (m / 10);
        }
    }
}

/// An exact decimal amount, canonically represented.
#[verifier::ext_equal]
#[derive(Clone, Copy, Debug)]
pub struct Decimal {
    m: i128,
    e: u32,
}

impl Decimal {
    /// Canonical representation: at most nine fractional digits, mantissa in
    /// range, and no trailing zero digit unless the scale is zero.
    #[verifier::type_invariant]
    pub closed spec fn inv(self) -> bool {
        &&& self.e <= 9
        &&& -MAX_MANTISSA < self.m < MAX_MANTISSA
        &&& self.e > 0 ==> self.m as int % 10 != 0
    }
}

impl View for Decimal {
    type V = int;

    /// The amount in billionths.
    closed spec fn view(&self) -> int {
        self.m as int * pow10((9 - self.e as int) as nat)
    }
}

/// Whether the amount `v` (in billionths) fits a canonical `Decimal`.
pub open spec fn representable(v: int) -> bool {
    -MAX_MANTISSA < dec_norm(v, 9).0 < MAX_MANTISSA
}

/// Whether the product of the amounts `x` and `y` (both in billionths) fits
/// a canonical `Decimal`.
pub open spec fn product_fits(x: int, y: int) -> bool {
    &&& dec_norm(x * y, 18).1 <= 9
    &&& -MAX_MANTISSA < dec_norm(x * y, 18).0 < MAX_MANTISSA
}

impl Decimal {
    /// Every amount a `Decimal` can hold is representable and bounded.
    pub proof fn lemma_view_representable(self)
        requires
            self.inv(),
        ensures
            representable(self@),
            -MAX_MANTISSA * pow10(9) < self@ < MAX_MANTISSA * pow10(9),
    {
        let v = self@;
        let p = pow10((9 - self.e as int) as nat);
        lemma_pow10_pos((9 - self.e as int) as nat);
        lemma_pow10_increases((9 - self.e as int) as nat, 9);
        assert(-MAX_MANTISSA * pow10(9) < v < MAX_MANTISSA * pow10(9)) by (nonlinear_arith)
            requires
                v == self.m as int * p,
                -MAX_MANTISSA < self.m as int && (self.m as int) < MAX_MANTISSA,
                1 <= p && p <= pow10(9),
                pow10(9) >= 1,
        ;
        Self::lemma_norm_of_view(self.m as int, self.e);
        assert(dec_norm(v, 9) == (self.m as int, self.e as nat));
    }

    /// A canonical pair is exactly what `dec_norm` leaves of its own value.
    proof fn lemma_norm_of_view(m: int, e: u32)
        requires
            e <= 9,
            e > 0 ==> m % 10 != 0,
        ensures
            dec_norm(m * pow10((9 - e as int) as nat), 9) == (m, e as nat),
    {
        lemma_norm_scale(m, e as nat, (9 - e as int) as nat);
        assert(dec_norm(m, e as nat) == (m, e as nat));
    }
}

/// Numeric values of the powers of ten this module computes with.
pub proof fn lemma_pow10_values()
    ensures
        pow10(9) == 1000000000,
        pow10(14) == 100000000000000,
        pow10(18) == 1000000000000000000,
        pow10(23) == 100000000000000000000000,
        pow10(31) == 10000000000000000000000000000000,
        pow10(32) == 100000000000000000000000000000000,
        pow10(39) == 1000000000000000000000000000000000000000,
        pow10(40) == 10000000000000000000000000000000000000000,
{
    assert(pow10(0) == 1);
    assert(pow10(1) == 10);
    assert(pow10(2) == 100);
    assert(pow10(3) == 1000);
    assert(pow10(4) == 10000);
    assert(pow10(5) == 100000);
    assert(pow10(6) == 1000000);
    assert(pow10(7) == 10000000);
    assert(pow10(8) == 100000000);
    assert(pow10(9) == 1000000000);
    assert(pow10(10) == 10000000000);
    assert(pow10(11) == 100000000000);
    assert(pow10(12) == 1000000000000);
    assert(pow10(13) == 10000000000000);
    assert(pow10(14) == 100000000000000);
    assert(pow10(15) == 1000000000000000);
    assert(pow10(16) == 10000000000000000);
    assert(pow10(17) == 100000000000000000);
    assert(pow10(18) == 1000000000000000000);
    assert(pow10(19) == 10000000000000000000);
    assert(pow10(20) == 100000000000000000000);
    assert(pow10(21) == 1000000000000000000000);
    assert(pow10(22) == 10000000000000000000000);
    assert(pow10(23) == 100000000000000000000000);
    assert(pow10(24) == 1000000000000000000000000);
    assert(pow10(25) == 10000000000000000000000000);
    assert(pow10(26) == 100000000000000000000000000);
    assert(pow10(27) == 1000000000000000000000000000);
    assert(pow10(28) == 10000000000000000000000000000);
    assert(pow10(29) == 100000000000000000000000000000);
    assert(pow10(30) == 1000000000000000000000000000000);
    assert(pow10(31) == 10000000000000000000000000000000);
    assert(pow10(32) == 100000000000000000000000000000000);
    assert(pow10(33) == 1000000000000000000000000000000000);
    assert(pow10(34) == 10000000000000000000000000000000000);
    assert(pow10(35) == 100000000000000000000000000000000000);
    assert(pow10(36) == 1000000000000000000000000000000000000);
    assert(pow10(37) == 10000000000000000000000000000000000000);
    assert(pow10(38) == 100000000000000000000000000000000000000);
    assert(pow10(39) == 1000000000000000000000000000000000000000);
    assert(pow10(40) == 10000000000000000000000000000000000000000);
}

/// Scaling by a common power of ten preserves and reflects equality.
proof fn lemma_pow_shift_eq(x: int, y: int, a: nat, b: nat)
    requires
        a >= b,
    ensures
        (x * pow10(a) == y * pow10(b)) <==> (x * pow10((a - b) as nat) == y),
{
    lemma_pow10_adds((a - b) as nat, b);
    lemma_pow10_pos(b);
    assert(x * pow10(a) == (x * pow10((a - b) as nat)) * pow10(b)) by (nonlinear_arith)
        requires pow10(a) == pow10((a - b) as nat) * pow10(b);
    if x * pow10(a) == y * pow10(b) {
        lemma_mul_cancel(x * pow10((a - b) as nat), y, pow10(b));
    }
}

/// Negation preserves divisibility and the exact quotient, for a positive
/// divisor.
proof fn lemma_neg_divides(a: int, d: int)
    requires
        d > 0,
    ensures
        (a % d == 0) <==> ((-a) % d == 0),
        a % d == 0 ==> (-a) / d == -(a / d),
{
    if a % d == 0 {
        lemma_fundamental_div_mod(a, d);
        assert(-a == d * (-(a / d)) + 0) by (nonlinear_arith)
            requires a == d * (a / d);
        lemma_fundamental_div_mod_converse(-a, d, -(a / d), 0);
    }
    if (-a) % d == 0 {
        lemma_fundamental_div_mod(-a, d);
        assert(a == d * (-((-a) / d)) + 0) by (nonlinear_arith)
            requires -a == d * ((-a) / d);
        lemma_fundamental_div_mod_converse(a, d, -((-a) / d), 0);
    }
}

/// Zero reduces to zero at any scale.
pub proof fn lemma_dec_norm_zero(s: nat)
    ensures
        dec_norm(0, s) == (0int, 0nat),
    decreases s,
{
    if s > 0 {
        lemma_dec_norm_zero((s - 1) as nat);
    }
}

/// Multiplication by a positive factor cancels.
pub proof fn lemma_mul_cancel(x: int, y: int, p: int)
    requires
        p > 0,
        x * p == y * p,
    ensures
        x == y,
{
    assert(x == y) by (nonlinear_arith)
        requires p > 0 && x * p == y * p;
}

/// Negation preserves divisibility by ten and the exact quotient.
proof fn lemma_neg_mod10(a: int)
    ensures
        (a % 10 == 0) <==> ((-a) % 10 == 0),
        a % 10 == 0 ==> (-a) / 10 == -(a / 10),
{
    if a % 10 == 0 {
        lemma_fundamental_div_mod(a, 10);
        lemma_fundamental_div_mod_converse(-a, 10, -(a / 10), 0);
    }
    if (-a) % 10 == 0 {
        lemma_fundamental_div_mod(-a, 10);
        lemma_fundamental_div_mod_converse(a, 10, -((-a) / 10), 0);
    }
}

/// Trailing zero scale strips away: `m * 10^k` at scale `s + k` reduces as
/// `m` does at scale `s`.
pub proof fn lemma_norm_scale(m: int, s: nat, k: nat)
    ensures
        dec_norm(m * pow10(k), (s + k) as nat) == dec_norm(m, s),
    decreases k,
{
    if k == 0 {
        assert(m * 1 == m) by (nonlinear_arith);
    } else {
        let v = m * pow10(k);
        let v1 = m * pow10((k - 1) as nat);
        assert(pow10(k) == 10 * pow10((k - 1) as nat));
        assert(v == v1 * 10) by (nonlinear_arith)
            requires
                v == m * (10 * pow10((k - 1) as nat)),
                v1 == m * pow10((k - 1) as nat),
        ;
        lemma_fundamental_div_mod_converse(v, 10, v1, 0);
        assert(v % 10 == 0 && v / 10 == v1);
        lemma_norm_scale(m, s, (k - 1) as nat);
    }
}

/// Ten to the `e`'th power, executable.
fn pow10_i128(e: u32) -> (r: i128)
    requires
        e <= 32,
    ensures
        r as int == pow10(e as nat),
        r >= 1,
    decreases e,
{
    proof {
        lemma_pow10_pos(e as nat);
        lemma_pow10_increases(e as nat, 32);
        lemma_pow10_values();
    }
    if e == 0 {
        1
    } else {
        let p = pow10_i128(e - 1);
        proof {
            lemma_pow10_increases((e - 1) as nat, 31);
            lemma_pow10_values();
        }
        10 * p
    }
}

/// The sign-adjusted integer `a` stands for.
spec fn signed_of(neg: bool, a: u128) -> int {
    if neg {
        -(a as int)
    } else {
        a as int
    }
}

/// Strip trailing decimal zeros of `m0 / 10^s0`, executably.
fn norm_exec(m0: i128, s0: u32) -> (r: (i128, u32))
    requires
        m0 != i128::MIN,
    ensures
        r.0 as int == dec_norm(m0 as int, s0 as nat).0,
        r.1 as nat == dec_norm(m0 as int, s0 as nat).1,
{
    let neg = m0 < 0;
    let mut a: u128 = if neg {
        (-m0) as u128
    } else {
        m0 as u128
    };
    let mut s: u32 = s0;
    proof {
        assert(signed_of(neg, a) == m0 as int);
    }
    while s > 0 && a % 10 == 0
        invariant
            a <= i128::MAX as u128,
            neg ==> a > 0,
            dec_norm(signed_of(neg, a), s as nat) == dec_norm(m0 as int, s0 as nat),
        decreases s,
    {
        proof {
            let cur = signed_of(neg, a);
            lemma_neg_mod10(a as int);
            assert(cur % 10 == 0);
            assert(dec_norm(cur, s as nat) == dec_norm(cur / 10, (s - 1) as nat));
            if neg {
                assert(cur / 10 == -((a as int) / 10));
            }
            assert(a as int / 10 == (a / 10) as int);
            if neg {
                // a divisible by 10 and positive keeps a / 10 positive.
                lemma_fundamental_div_mod(a as int, 10);
                assert(a as int == 10 * (a as int / 10));
            }
        }
        a = a / 10;
        s = s - 1;
    }
    proof {
        let cur = signed_of(neg, a);
        lemma_neg_mod10(a as int);
        if s > 0 {
            assert(cur % 10 != 0);
        }
        assert(dec_norm(cur, s as nat) == (cur, s as nat));
    }
    let out: i128 = if neg {
        -(a as i128)
    } else {
        a as i128
    };
    (out, s)
}

/// The canonical `Decimal` holding the amount `v` in billionths. For an
/// unrepresentable `v` the value is arbitrary.
pub closed spec fn dec_of(v: int) -> Decimal {
    choose|d: Decimal| d.inv() && d@ == v
}

/// For a representable amount, `dec_of` yields the canonical `Decimal`.
pub proof fn lemma_dec_of(v: int)
    requires
        representable(v),
    ensures
        dec_of(v).inv(),
        dec_of(v)@ == v,
{
    lemma_dec_norm(v, 9);
    let (m, s) = dec_norm(v, 9);
    let w = Decimal { m: m as i128, e: s as u32 };
    assert(w.inv());
    assert(w@ == v);
    assert(exists|d: Decimal| d.inv() && d@ == v) by {
        assert(w.inv() && w@ == v);
    }
}

/// A canonical `Decimal` is recovered from its own amount.
pub proof fn lemma_dec_of_self(d: Decimal)
    requires
        d.inv(),
    ensures
        dec_of(d@) == d,
{
    d.lemma_view_representable();
    lemma_dec_of(d@);
    Decimal::lemma_value_unique(dec_of(d@), d);
}

impl Decimal {
    /// The amount `mantissa / 10^scale`, if it fits a canonical `Decimal`;
    /// `None` exactly when more than nine fractional digits remain after
    /// stripping trailing zeros, or the stripped mantissa is out of range.
    pub fn new(mantissa: i128, scale: u32) -> (r: Option<Decimal>)
        ensures
            r is Some <==> (dec_norm(mantissa as int, scale as nat).1 <= 9
                && -MAX_MANTISSA < dec_norm(mantissa as int, scale as nat).0
                && dec_norm(mantissa as int, scale as nat).0 < MAX_MANTISSA),
            r matches Some(d) ==> d@ * pow10(scale as nat) == mantissa as int * pow10(9),
            scale <= 9 ==> (r matches Some(d) ==> d@ == mantissa as int * pow10(
                (9 - scale) as nat,
            )),
    {
        if mantissa == i128::MIN {
            proof {
                lemma_fundamental_div_mod_converse(
                    -170141183460469231731687303715884105728,
                    10,
                    -17014118346046923173168730371588410573,
                    2,
                );
                assert(dec_norm(mantissa as int, scale as nat).0 == mantissa as int);
            }
            return None;
        }
        let (m, s) = norm_exec(mantissa, scale);
        if 9 < s || m <= -MAX_MANTISSA || MAX_MANTISSA <= m {
            return None;
        }
        proof {
            lemma_dec_norm(mantissa as int, scale as nat);
        }
        let d = Decimal { m, e: s };
        proof {
            let k = (scale as nat - s as nat) as nat;
            let j = (9 - s as int) as nat;
            // d@ * 10^scale == (m * 10^j) * 10^scale == m * 10^(j + scale)
            // mantissa * 10^9 == (m * 10^k) * 10^9 == m * 10^(k + 9)
            // and j + scale == k + 9.
            lemma_pow10_adds(j, scale as nat);
            lemma_pow10_adds(k, 9);
            assert((m as int * pow10(j)) * pow10(scale as nat) == m as int * pow10(
                j + scale as nat,
            )) by (nonlinear_arith)
                requires pow10(j) * pow10(scale as nat) == pow10(j + scale as nat);
            assert((m as int * pow10(k)) * pow10(9) == m as int * pow10(k + 9))
                by (nonlinear_arith)
                requires pow10(k) * pow10(9) == pow10(k + 9);
            assert(j + scale as nat == k + 9);
            if scale <= 9 {
                lemma_pow10_adds((9 - scale) as nat, scale as nat);
                assert((mantissa as int * pow10((9 - scale) as nat)) * pow10(scale as nat)
                    == mantissa as int * pow10(9)) by (nonlinear_arith)
                    requires pow10((9 - scale) as nat) * pow10(scale as nat) == pow10(9),
                ;
                lemma_pow10_pos(scale as nat);
                lemma_mul_cancel(
                    d@,
                    mantissa as int * pow10((9 - scale) as nat),
                    pow10(scale as nat),
                );
            }
        }
        Some(d)
    }

    /// The amount of `v` billionths, if representable.
    pub fn from_val9(v: i128) -> (r: Option<Decimal>)
        ensures
            r is Some <==> representable(v as int),
            r matches Some(d) ==> d@ == v as int,
    {
        proof {
            lemma_dec_norm(v as int, 9);
        }
        let r = Self::new(v, 9);
        proof {
            if r is Some {
                let d = r->Some_0;
                lemma_pow10_pos(9);
                lemma_mul_cancel(d@, v as int, pow10(9));
            }
        }
        r
    }

    /// The whole amount `n`.
    pub fn from_int(n: i64) -> (r: Option<Decimal>)
        ensures
            r is Some <==> -MAX_MANTISSA < n as int && (n as int) < MAX_MANTISSA,
            r matches Some(d) ==> d@ == n as int * pow10(9),
    {
        let r = Self::new(n as i128, 0);
        proof {
            assert(dec_norm(n as int, 0) == (n as int, 0nat));
        }
        r
    }

    /// The amount in billionths, executably.
    pub fn val9(&self) -> (r: i128)
        ensures
            r as int == self@,
    {
        proof {
            use_type_invariant(self);
            self.lemma_view_representable();
        }
        let p = pow10_i128(9 - self.e);
        proof {
            lemma_pow10_increases((9 - self.e as int) as nat, 9);
            lemma_pow10_values();
            assert(-MAX_MANTISSA * 1000000000 <= self.m as int * (p as int)
                && self.m as int * (p as int) <= MAX_MANTISSA * 1000000000) by (nonlinear_arith)
                requires
                    -MAX_MANTISSA < self.m as int && (self.m as int) < MAX_MANTISSA,
                    1 <= p as int && p as int <= 1000000000,
            ;
        }
        self.m * p
    }

    /// Two `Decimal`s hold the same amount exactly when they are equal.
    pub proof fn lemma_value_unique(a: Decimal, b: Decimal)
        requires
            a.inv(),
            b.inv(),
            a@ == b@,
        ensures
            a == b,
    {
        Self::lemma_scale_agrees(a, b);
        Self::lemma_scale_agrees(b, a);
        lemma_pow10_pos((9 - a.e as int) as nat);
        lemma_mul_cancel(a.m as int, b.m as int, pow10((9 - a.e as int) as nat));
        assert(a =~= b);
    }

    /// A canonical scale is no smaller than any other canonical scale for
    /// the same amount.
    proof fn lemma_scale_agrees(a: Decimal, b: Decimal)
        requires
            a.inv(),
            b.inv(),
            a@ == b@,
        ensures
            a.e >= b.e,
    {
        if a.e < b.e {
            let pb = (9 - b.e as int) as nat;
            let d = (b.e - a.e) as nat;
            lemma_pow10_adds(d, pb);
            lemma_pow10_pos(pb);
            // a.m * 10^pa == b.m * 10^pb and pa == d + pb.
            assert((a.m as int * pow10(d)) * pow10(pb) == a.m as int * (pow10(d) * pow10(pb)))
                by (nonlinear_arith);
            lemma_mul_cancel(a.m as int * pow10(d), b.m as int, pow10(pb));
            // b.e > 0 so b.m is not divisible by ten, yet equals a.m * 10^d.
            if a.m == 0 {
                assert(b.m as int == 0 * pow10(d));
                assert(b.m as int % 10 == 0);
            } else {
                let q = a.m as int * pow10((d - 1) as nat);
                assert(pow10(d) == 10 * pow10((d - 1) as nat));
                assert(a.m as int * pow10(d) == 10 * q + 0) by (nonlinear_arith)
                    requires
                        pow10(d) == 10 * pow10((d - 1) as nat),
                        q == a.m as int * pow10((d - 1) as nat),
                ;
                lemma_fundamental_div_mod_converse(b.m as int, 10, q, 0);
            }
        }
    }

    /// Whether this amount equals `other`'s.
    pub fn eq_value(&self, other: &Decimal) -> (r: bool)
        ensures
            r == (self@ == other@),
    {
        proof {
            use_type_invariant(self);
            use_type_invariant(other);
            if self@ == other@ {
                Self::lemma_value_unique(*self, *other);
            }
        }
        self.m == other.m && self.e == other.e
    }

    /// Whether the amount is zero.
    pub fn is_zero(&self) -> (r: bool)
        ensures
            r == (self@ == 0),
    {
        proof {
            use_type_invariant(self);
            lemma_pow10_pos((9 - self.e as int) as nat);
            assert((self.m as int) * pow10((9 - self.e as int) as nat) == 0 <==> self.m as int
                == 0) by (nonlinear_arith)
                requires pow10((9 - self.e as int) as nat) >= 1;
        }
        self.m == 0
    }

    /// The negated amount; always representable.
    pub fn neg(&self) -> (r: Decimal)
        ensures
            r@ == -self@,
    {
        proof {
            use_type_invariant(self);
            lemma_neg_mod10(self.m as int);
            assert((-(self.m as int)) * pow10((9 - self.e as int) as nat) == -(self.m as int
                * pow10((9 - self.e as int) as nat))) by (nonlinear_arith);
        }
        Decimal { m: -self.m, e: self.e }
    }

    /// The sum, if representable.
    pub fn add(&self, other: &Decimal) -> (r: Option<Decimal>)
        ensures
            r is Some <==> representable(self@ + other@),
            r matches Some(d) ==> d@ == self@ + other@,
    {
        proof {
            use_type_invariant(self);
            use_type_invariant(other);
            self.lemma_view_representable();
            other.lemma_view_representable();
            lemma_pow10_values();
            assert(MAX_MANTISSA * pow10(9) == 100000000000000000000000);
        }
        let v = self.val9() + other.val9();
        Self::from_val9(v)
    }

    /// The difference, if representable.
    pub fn sub(&self, other: &Decimal) -> (r: Option<Decimal>)
        ensures
            r is Some <==> representable(self@ - other@),
            r matches Some(d) ==> d@ == self@ - other@,
    {
        proof {
            use_type_invariant(self);
            use_type_invariant(other);
            self.lemma_view_representable();
            other.lemma_view_representable();
            lemma_pow10_values();
            assert(MAX_MANTISSA * pow10(9) == 100000000000000000000000);
        }
        let v = self.val9() - other.val9();
        Self::from_val9(v)
    }

    /// Whether this amount is at most `other`'s.
    pub fn le(&self, other: &Decimal) -> (r: bool)
        ensures
            r == (self@ <= other@),
    {
        self.val9() <= other.val9()
    }

    /// The product `self * other` in billionths of billionths, together with
    /// the mantissa form the product computations below share.
    proof fn lemma_product_parts(self, other: Decimal)
        requires
            self.inv(),
            other.inv(),
        ensures
            self@ * other@ == (self.m as int * other.m as int) * pow10(
                (18 - self.e as int - other.e as int) as nat,
            ),
            -100000000000000000000000000000 < self.m as int * other.m as int
                && (self.m as int * other.m as int) < 100000000000000000000000000000,
    {
        let pa = (9 - self.e as int) as nat;
        let pb = (9 - other.e as int) as nat;
        lemma_pow10_adds(pa, pb);
        assert((self.m as int * pow10(pa)) * (other.m as int * pow10(pb)) == (self.m as int
            * other.m as int) * (pow10(pa) * pow10(pb))) by (nonlinear_arith);
        assert(-100000000000000000000000000000 < self.m as int * other.m as int
            && (self.m as int * other.m as int) < 100000000000000000000000000000)
            by (nonlinear_arith)
            requires
                -MAX_MANTISSA < self.m as int && (self.m as int) < MAX_MANTISSA,
                -MAX_MANTISSA < other.m as int && (other.m as int) < MAX_MANTISSA,
                MAX_MANTISSA == 100000000000000,
        ;
    }

    /// The product, if representable: `None` exactly when `self * other`
    /// does not fit a canonical `Decimal`.
    pub fn mul(&self, other: &Decimal) -> (r: Option<Decimal>)
        ensures
            r is Some <==> product_fits(self@, other@),
            r matches Some(d) ==> d@ * pow10(9) == self@ * other@,
    {
        proof {
            use_type_invariant(self);
            use_type_invariant(other);
            self.lemma_product_parts(*other);
        }
        let m = self.m * other.m;
        let e = self.e + other.e;
        let r = Decimal::new(m, e);
        proof {
            let x = self@ * other@;
            let k = (18 - e as int) as nat;
            lemma_norm_scale(m as int, e as nat, k);
            assert(dec_norm(x, 18) == dec_norm(m as int, e as nat));
            if r is Some {
                let d = r->Some_0;
                // d@ * 10^e == m * 10^9; scale both sides by 10^(18 - e),
                // regroup, and cancel one factor of 10^9.
                lemma_pow10_adds(e as nat, k);
                lemma_pow10_adds(9, 9);
                lemma_pow10_pos(9);
                assert((d@ * pow10(e as nat)) * pow10(k) == d@ * pow10(18)) by (nonlinear_arith)
                    requires pow10(e as nat) * pow10(k) == pow10(18),
                ;
                assert((m as int * pow10(9)) * pow10(k) == (m as int * pow10(k)) * pow10(9))
                    by (nonlinear_arith);
                assert((d@ * pow10(e as nat)) * pow10(k) == (m as int * pow10(9)) * pow10(k));
                assert((d@ * pow10(9)) * pow10(9) == d@ * pow10(18)) by (nonlinear_arith)
                    requires pow10(9) * pow10(9) == pow10(18),
                ;
                lemma_mul_cancel(d@ * pow10(9), x, pow10(9));
            }
        }
        r
    }

    /// Whether `self * other` equals `third` exactly. The comparison is
    /// between amounts: `self@` and `other@` are in billionths, so the
    /// product is measured against `third@` scaled by `10^9`.
    pub fn mul_eq(&self, other: &Decimal, third: &Decimal) -> (r: bool)
        ensures
            r == (self@ * other@ == third@ * pow10(9)),
    {
        proof {
            use_type_invariant(self);
            use_type_invariant(other);
            use_type_invariant(third);
            self.lemma_product_parts(*other);
            lemma_pow10_values();
        }
        let mm = self.m * other.m;
        let ee = self.e + other.e;
        let alpha = 18 - ee;
        let beta = 18 - third.e;
        proof {
            // third@ * 10^9 == third.m * 10^beta.
            lemma_pow10_adds((9 - third.e as int) as nat, 9);
            assert((third.m as int * pow10((9 - third.e as int) as nat)) * pow10(9)
                == third.m as int * pow10((18 - third.e as int) as nat)) by (nonlinear_arith)
                requires
                    pow10((9 - third.e as int) as nat) * pow10(9) == pow10(
                        (18 - third.e as int) as nat,
                    ),
            ;
        }
        if alpha >= beta {
            let f = pow10_i128(alpha - beta);
            proof {
                lemma_pow_shift_eq(mm as int, third.m as int, alpha as nat, beta as nat);
                lemma_pow10_increases((alpha - beta) as nat, 9);
                assert(-100000000000000000000000000000 * 1000000000 <= mm as int * (f as int)
                    && mm as int * (f as int) <= 100000000000000000000000000000 * 1000000000)
                    by (nonlinear_arith)
                    requires
                        -100000000000000000000000000000 < mm as int
                            && (mm as int) < 100000000000000000000000000000,
                        1 <= f as int && (f as int) <= 1000000000,
                ;
            }
            mm * f == third.m
        } else {
            let f = pow10_i128(beta - alpha);
            proof {
                lemma_pow_shift_eq(third.m as int, mm as int, beta as nat, alpha as nat);
                lemma_pow10_increases((beta - alpha) as nat, 18);
                assert(pow10(18) == 1000000000000000000);
                assert(-MAX_MANTISSA * 1000000000000000000 <= third.m as int * (f as int)
                    && third.m as int * (f as int) <= MAX_MANTISSA * 1000000000000000000)
                    by (nonlinear_arith)
                    requires
                        -MAX_MANTISSA < third.m as int && (third.m as int) < MAX_MANTISSA,
                        1 <= f as int && (f as int) <= 1000000000000000000,
                ;
            }
            mm == third.m * f
        }
    }

    /// The quotient `self / other`, if exactly representable: `None` when
    /// `other` is zero or no canonical `Decimal` holds the exact ratio.
    pub fn div(&self, other: &Decimal) -> (r: Option<Decimal>)
        ensures
            r matches Some(d) ==> d@ * other@ == self@ * pow10(9),
            r is Some <==> other@ != 0 && (exists|v: int|
                representable(v) && #[trigger] (v * other@) == self@ * pow10(9)),
    {
        proof {
            use_type_invariant(self);
            use_type_invariant(other);
            self.lemma_view_representable();
            other.lemma_view_representable();
            lemma_pow10_values();
        }
        if other.is_zero() {
            return None;
        }
        let sv = self.val9();
        let ov = other.val9();
        proof {
            assert(-100000000000000000000000 * 1000000000 <= sv as int * 1000000000
                && sv as int * 1000000000 <= 100000000000000000000000 * 1000000000)
                by (nonlinear_arith)
                requires
                    -100000000000000000000000 < sv as int
                        && (sv as int) < 100000000000000000000000,
            ;
        }
        let n: i128 = sv * 1_000_000_000;
        // Flip signs so the divisor is positive; the solutions of
        // v * ov == n are unchanged.
        let (n2, d2) = if ov < 0 {
            (-n, -ov)
        } else {
            (n, ov)
        };
        let neg = n2 < 0;
        let nn: u128 = if neg {
            (-n2) as u128
        } else {
            n2 as u128
        };
        let dd: u128 = d2 as u128;
        let q: u128 = nn / dd;
        let rem: u128 = nn % dd;
        if rem != 0 {
            proof {
                // No integer multiple of the divisor hits the numerator.
                assert forall|v: int| #[trigger] (v * other@) != self@ * pow10(9) by {
                    if v * other@ == self@ * pow10(9) {
                        assert(v * (d2 as int) == n2 as int) by (nonlinear_arith)
                            requires
                                v * (ov as int) == n as int,
                                (d2 as int == ov as int && n2 as int == n as int) || (d2 as int
                                    == -(ov as int) && n2 as int == -(n as int)),
                        ;
                        lemma_fundamental_div_mod_converse(n2 as int, d2 as int, v, 0);
                        assert(n2 as int % (d2 as int) == 0);
                        if neg {
                            lemma_neg_divides(nn as int, dd as int);
                            assert((-(nn as int)) % (dd as int) == 0);
                        }
                        assert(nn as int % (dd as int) == 0);
                    }
                }
            }
            return None;
        }
        let v0: i128 = if neg {
            -(q as i128)
        } else {
            q as i128
        };
        proof {
            // v0 * d2 == n2, hence v0 * ov == n, and v0 is the only solution.
            lemma_fundamental_div_mod(nn as int, dd as int);
            assert(v0 as int * (d2 as int) == n2 as int) by (nonlinear_arith)
                requires
                    nn as int == (dd as int) * (q as int),
                    dd as int == d2 as int,
                    (!neg && v0 as int == q as int && n2 as int == nn as int) || (neg && v0 as int
                        == -(q as int) && n2 as int == -(nn as int)),
            ;
            assert(v0 as int * (ov as int) == n as int) by (nonlinear_arith)
                requires
                    v0 as int * (d2 as int) == n2 as int,
                    (d2 as int == ov as int && n2 as int == n as int) || (d2 as int == -(
                    ov as int) && n2 as int == -(n as int)),
            ;
        }
        let r = Self::from_val9(v0);
        proof {
            if r is Some {
                assert((v0 as int) * other@ == self@ * pow10(9));
            } else {
                assert forall|v: int|
                    !(representable(v) && #[trigger] (v * other@) == self@ * pow10(9)) by {
                    if representable(v) && v * other@ == self@ * pow10(9) {
                        assert(v * (d2 as int) == n2 as int) by (nonlinear_arith)
                            requires
                                v * (ov as int) == n as int,
                                (d2 as int == ov as int && n2 as int == n as int) || (d2 as int
                                    == -(ov as int) && n2 as int == -(n as int)),
                        ;
                        lemma_mul_cancel(v, v0 as int, d2 as int);
                    }
                }
            }
        }
        r
    }
}

/// Strip every factor of ten from a positive number, returning the reduced
/// mantissa and the count stripped.
fn strip10(x0: u128) -> (r: (u128, u32))
    requires
        x0 >= 1,
    ensures
        x0 as int == r.0 as int * pow10(r.1 as nat),
        r.0 as int % 10 != 0,
        r.0 >= 1,
{
    let mut x = x0;
    let mut z: u32 = 0;
    proof {
        lemma_pow10_values();
    }
    while x % 10 == 0
        invariant
            x >= 1,
            x0 as int == x as int * pow10(z as nat),
            pow10(z as nat) <= x0 as int,
        decreases x,
    {
        proof {
            lemma_pow10_values();
            lemma_fundamental_div_mod(x as int, 10);
            if z >= 39 {
                lemma_pow10_increases(39, z as nat);
                assert(false);
            }
            lemma_pow10_pos((z + 1) as nat);
            assert(x0 as int == (x as int / 10) * (10 * pow10(z as nat))) by (nonlinear_arith)
                requires
                    x0 as int == x as int * pow10(z as nat),
                    x as int == 10 * (x as int / 10),
            ;
            assert(pow10((z + 1) as nat) == 10 * pow10(z as nat));
            assert(x as int / 10 >= 1) by (nonlinear_arith)
                requires x as int >= 1 && x as int == 10 * (x as int / 10);
            assert(pow10((z + 1) as nat) <= x0 as int) by (nonlinear_arith)
                requires
                    x0 as int == (x as int / 10) * pow10((z + 1) as nat),
                    x as int / 10 >= 1,
                    pow10((z + 1) as nat) >= 1,
            ;
        }
        x = x / 10;
        z = z + 1;
    }
    (x, z)
}

/// Two reduced mantissas scaled by powers of ten are equal exactly when
/// both parts agree.
pub proof fn lemma_stripped_unique(x: int, y: int, p: nat, q: nat)
    requires
        x >= 1,
        y >= 1,
        x % 10 != 0,
        y % 10 != 0,
        x * pow10(p) == y * pow10(q),
    ensures
        x == y,
        p == q,
    decreases p,
{
    if p == q {
        lemma_pow10_pos(p);
        lemma_mul_cancel(x, y, pow10(p));
    } else if p < q {
        let d = (q - p) as nat;
        lemma_pow10_adds(d, p);
        lemma_pow10_pos(p);
        assert((y * pow10(d)) * pow10(p) == y * (pow10(d) * pow10(p))) by (nonlinear_arith);
        lemma_mul_cancel(x, y * pow10(d), pow10(p));
        // x equals y * 10^d with d >= 1, so x would divide by ten.
        let w = y * pow10((d - 1) as nat);
        assert(pow10(d) == 10 * pow10((d - 1) as nat));
        assert(y * pow10(d) == 10 * w + 0) by (nonlinear_arith)
            requires
                pow10(d) == 10 * pow10((d - 1) as nat),
                w == y * pow10((d - 1) as nat),
        ;
        lemma_fundamental_div_mod_converse(x, 10, w, 0);
    } else {
        lemma_stripped_unique(y, x, q, p);
    }
}

impl Decimal {
    /// Whether `self * other` equals the amount `m / 10^f` exactly. The
    /// contract scales both sides to billionths of billionths: the product
    /// of two amounts in billionths against `m` brought to scale eighteen.
    pub fn mul_eq_scaled(&self, other: &Decimal, m: i128, f: usize) -> (r: bool)
        requires
            0 <= m,
        ensures
            r == (self@ * other@ * pow10(f as nat) == m as int * pow10(18)),
    {
        proof {
            use_type_invariant(self);
            use_type_invariant(other);
            self.lemma_product_parts(*other);
            lemma_pow10_values();
        }
        let a: i128 = self.m * other.m;
        let ee: u32 = self.e + other.e;
        let ghost kk = (18 - ee as int) as nat;
        let u: u128 = (18 - ee) as u128 + f as u128;
        proof {
            // self@ * other@ * 10^f == a * 10^u.
            lemma_pow10_adds(kk, f as nat);
            assert((a as int * pow10(kk)) * pow10(f as nat) == a as int * pow10(u as nat))
                by (nonlinear_arith)
                requires
                    pow10(kk) * pow10(f as nat) == pow10(u as nat),
                    u as int == kk + f as int,
            ;
        }
        if a == 0 || m == 0 {
            proof {
                lemma_pow10_pos(u as nat);
                lemma_pow10_pos(18);
                assert((a as int * pow10(u as nat) == 0) <==> a as int == 0) by (nonlinear_arith)
                    requires pow10(u as nat) >= 1;
                assert((m as int * pow10(18) == 0) <==> m as int == 0) by (nonlinear_arith)
                    requires pow10(18) >= 1;
            }
            return a == 0 && m == 0;
        }
        if (a < 0) != (m < 0) {
            proof {
                lemma_pow10_pos(u as nat);
                lemma_pow10_pos(18);
                assert(a as int * pow10(u as nat) != m as int * pow10(18)) by (nonlinear_arith)
                    requires
                        pow10(u as nat) >= 1,
                        pow10(18) >= 1,
                        a as int != 0,
                        m as int != 0,
                        ((a as int) < 0) != ((m as int) < 0),
                ;
            }
            return false;
        }
        let aa: u128 = if a < 0 {
            (-a) as u128
        } else {
            a as u128
        };
        let mm: u128 = if m < 0 {
            (-m) as u128
        } else {
            m as u128
        };
        let (a0, za) = strip10(aa);
        let (m0, zm) = strip10(mm);
        let same = a0 == m0 && u + za as u128 == 18 + zm as u128;
        proof {
            let ai = a as int;
            let mi = m as int;
            let pa = (u + za) as nat;
            let pm = (18 + zm) as nat;
            lemma_pow10_adds(za as nat, u as nat);
            lemma_pow10_adds(zm as nat, 18);
            // |a| * 10^u == a0 * 10^(za + u), and likewise for m.
            assert((aa as int) * pow10(u as nat) == a0 as int * pow10(pa)) by (nonlinear_arith)
                requires
                    aa as int == a0 as int * pow10(za as nat),
                    pow10(za as nat) * pow10(u as nat) == pow10(pa),
            ;
            assert((mm as int) * pow10(18) == m0 as int * pow10(pm)) by (nonlinear_arith)
                requires
                    mm as int == m0 as int * pow10(zm as nat),
                    pow10(zm as nat) * pow10(18) == pow10(pm),
            ;
            if same {
                assert(aa as int * pow10(u as nat) == mm as int * pow10(18));
                assert(ai * pow10(u as nat) == mi * pow10(18)) by (nonlinear_arith)
                    requires
                        aa as int * pow10(u as nat) == mm as int * pow10(18),
                        (ai == aa as int && mi == mm as int) || (ai == -(aa as int) && mi == -(
                        mm as int)),
                ;
            } else {
                if ai * pow10(u as nat) == mi * pow10(18) {
                    assert(aa as int * pow10(u as nat) == mm as int * pow10(18))
                        by (nonlinear_arith)
                        requires
                            ai * pow10(u as nat) == mi * pow10(18),
                            (ai == aa as int && mi == mm as int) || (ai == -(aa as int) && mi
                                == -(mm as int)),
                    ;
                    lemma_stripped_unique(a0 as int, m0 as int, pa, pm);
                    assert(false);
                }
            }
        }
        same
    }
}

impl Decimal {
    /// The product `self * other` as a reduced mantissa and a power of ten:
    /// the product in billionths of billionths is `r.0 * 10^(r.1)`, with
    /// `r.0` zero or not divisible by ten, and below `10^29` in magnitude.
    pub fn product_mantissa(&self, other: &Decimal) -> (r: (i128, u64))
        ensures
            self@ * other@ == r.0 as int * pow10(r.1 as nat),
            r.0 as int % 10 != 0 || r.0 == 0,
            r.0 == 0 ==> self@ * other@ == 0,
            -100000000000000000000000000000 < r.0 && r.0 < 100000000000000000000000000000,
    {
        proof {
            use_type_invariant(self);
            use_type_invariant(other);
            self.lemma_product_parts(*other);
            lemma_pow10_pos((18 - self.e as int - other.e as int) as nat);
        }
        let a: i128 = self.m * other.m;
        let ee: u32 = self.e + other.e;
        let ghost kk = (18 - ee as int) as nat;
        if a == 0 {
            proof {
                assert(0int * pow10(kk) == 0) by (nonlinear_arith);
                assert(pow10(0) == 1);
            }
            return (0, 0);
        }
        let neg = a < 0;
        let aa: u128 = if neg {
            (-a) as u128
        } else {
            a as u128
        };
        let (a0, za) = strip10(aa);
        proof {
            lemma_pow10_pos(za as nat);
            assert(a0 as int <= aa as int) by (nonlinear_arith)
                requires
                    aa as int == a0 as int * pow10(za as nat),
                    pow10(za as nat) >= 1,
                    a0 >= 1,
            ;
        }
        let out: i128 = if neg {
            -(a0 as i128)
        } else {
            a0 as i128
        };
        let exp: u64 = (18 - ee) as u64 + za as u64;
        proof {
            lemma_pow10_adds(za as nat, kk);
            lemma_neg_mod10(a0 as int);
            assert(a as int * pow10(kk) == out as int * pow10(exp as nat)) by (nonlinear_arith)
                requires
                    aa as int == a0 as int * pow10(za as nat),
                    pow10(za as nat) * pow10(kk) == pow10(exp as nat),
                    exp as int == za as int + kk,
                    (a as int == aa as int && out as int == a0 as int) || (a as int == -(
                    aa as int) && out as int == -(a0 as int)),
            ;
        }
        (out, exp)
    }
}

} // verus!
