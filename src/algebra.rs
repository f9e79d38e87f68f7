use vstd::arithmetic::div_mod::{
    lemma_add_mod_noop,
    lemma_div_denominator,
    lemma_fundamental_div_mod,
    lemma_fundamental_div_mod_converse,
    lemma_fundamental_div_mod_converse_div,
    lemma_fundamental_div_mod_converse_mod,
    lemma_mod_bound,
    lemma_mod_mod,
    lemma_mod_multiples_basic,
    lemma_mod_multiples_vanish,
    lemma_mod_twice,
    lemma_mul_mod_noop,
    lemma_mul_mod_noop_left,
    lemma_mul_mod_noop_right,
    lemma_small_mod,
    lemma_sub_mod_noop,
    lemma_sub_mod_noop_right,
};
use vstd::arithmetic::power::{lemma_pow0, lemma_pow1, lemma_pow_adds, pow};
use vstd::arithmetic::power2::{
    lemma2_to64,
    lemma2_to64_rest,
    lemma_pow2_adds,
    lemma_pow2_pos,
    lemma_pow2_strictly_increases,
    lemma_pow2_unfold,
    pow2,
};
use vstd::prelude::*;

verus! {

/// Absolute value of a mathematical integer.
pub open spec fn abs(i: int) -> int {
    if i < 0 { -i } else { i }
}

/// `d` divides `n`: some integer multiple of `d` equals `n`.
pub open spec fn divides(d: int, n: int) -> bool {
    exists|k: int| #[trigger] (k * d) == n
}

/// Sign of `i`, with zero counted as positive.
pub open spec fn sign(i: int) -> int {
    if i < 0 { -1 } else { 1 }
}

/// One step of the extended Euclidean recurrence keeps a coefficient pair
/// of alternating sign and makes the new coefficient's magnitude the sum
/// `|c0| + |q| * |c1|`.
proof fn lemma_coefficient_step(u: int, v: int, q: int, r: int, c0: int, c1: int)
    requires
        v != 0,
        abs(u) == abs(q) * abs(v) + abs(r),
        u == q * v + r,
        r == 0 || sign(r) == sign(u),
        q == 0 || sign(q) == sign(u) * sign(v),
        (c0 * sign(u)) * (c1 * sign(v)) <= 0,
    ensures
        abs(c0 - q * c1) == abs(c0) + abs(q) * abs(c1),
        abs(q * c1) <= abs(c0 - q * c1),
        r != 0 ==> (c1 * sign(v)) * ((c0 - q * c1) * sign(r)) <= 0,
{
    assert(abs(q * c1) == abs(q) * abs(c1)) by (nonlinear_arith);
    if q == 0 {
        assert(q * c1 == 0);
        if r != 0 {
            assert((c1 * sign(v)) * (c0 * sign(r)) == (c0 * sign(u)) * (c1 * sign(v))) by (nonlinear_arith)
                requires sign(r) == sign(u);
        }
    } else {
        let s = sign(u) * sign(v);
        assert(sign(v) * sign(v) == 1) by {
            if v < 0 {
                assert(sign(v) == -1);
            } else {
                assert(sign(v) == 1);
            }
        }
        assert(q == s * abs(q)) by {
            if q < 0 {
                assert(sign(q) == -1 && abs(q) == -q);
            } else {
                assert(sign(q) == 1 && abs(q) == q);
            }
        }
        assert(q * c1 == s * (abs(q) * c1)) by (nonlinear_arith)
            requires q == s * abs(q);
        assert(abs(q) * c1 * sign(v) * sign(u) == q * c1 * sign(u) * sign(u)) by (nonlinear_arith)
            requires q * c1 == s * (abs(q) * c1), s == sign(u) * sign(v), sign(v) * sign(v) == 1;
        assert((c0 * sign(u)) * (c1 * sign(v)) <= 0);
        assert(abs(q) >= 0);
        assert(abs(c0 - q * c1) == abs(c0) + abs(q) * abs(c1)) by (nonlinear_arith)
            requires
                q * c1 == s * (abs(q) * c1),
                s == sign(u) * sign(v),
                sign(u) == 1 || sign(u) == -1,
                sign(v) == 1 || sign(v) == -1,
                (c0 * sign(u)) * (c1 * sign(v)) <= 0,
                abs(q) > 0;
        if r != 0 {
            assert((c1 * sign(v)) * ((c0 - q * c1) * sign(r)) <= 0) by (nonlinear_arith)
                requires
                    q * c1 == s * (abs(q) * c1),
                    s == sign(u) * sign(v),
                    sign(r) == sign(u),
                    sign(u) == 1 || sign(u) == -1,
                    sign(v) == 1 || sign(v) == -1,
                    (c0 * sign(u)) * (c1 * sign(v)) <= 0,
                    abs(q) > 0;
        }
    }
}

/// Facts on a quotient and remainder rounded toward zero, as machine
/// division and remainder compute them.
proof fn lemma_trunc_div_rem(u: int, v: int, q: int, r: int)
    requires
        v != 0,
        u == q * v + r,
        abs(r) < abs(v),
        r == 0 || sign(r) == sign(u),
    ensures
        abs(u) == abs(q) * abs(v) + abs(r),
        q == 0 || sign(q) == sign(u) * sign(v),
{
    assert(abs(q * v) == abs(q) * abs(v)) by (nonlinear_arith);
    if q != 0 {
        assert(abs(q) * abs(v) >= abs(v)) by (nonlinear_arith) requires abs(q) >= 1, abs(v) >= 0;
    }
    if q > 0 && v > 0 {
        assert(q * v > 0) by (nonlinear_arith) requires q > 0, v > 0;
    } else if q > 0 && v < 0 {
        assert(q * v < 0) by (nonlinear_arith) requires q > 0, v < 0;
    } else if q < 0 && v > 0 {
        assert(q * v < 0) by (nonlinear_arith) requires q < 0, v > 0;
    } else if q < 0 && v < 0 {
        assert(q * v > 0) by (nonlinear_arith) requires q < 0, v < 0;
    } else {
        assert(q * v == 0) by (nonlinear_arith) requires q == 0 || v == 0;
    }
}

/// Extended Euclidean algorithm: returns `(g, a, b)` with `a * x + b * y == g`,
/// where `g` divides both `x` and `y`, so that `|g|` is their greatest common
/// divisor. When both inputs are nonnegative, so is `g`.
pub fn xgcd(x: i128, y: i128) -> (r: (i128, i128, i128))
    requires
        x > i128::MIN,
        y > i128::MIN,
    ensures
        r.1 * x + r.2 * y == r.0,
        divides(r.0 as int, x as int),
        divides(r.0 as int, y as int),
        forall|d: int| divides(d, x as int) && divides(d, y as int) ==> divides(d, r.0 as int),
        x >= 0 && y >= 0 ==> r.0 >= 0,
        y == 0 ==> r == (x, 1i128, 0i128),
{
    let mut u: i128 = x;
    let mut v: i128 = y;
    let (mut a0, mut a1, mut b0, mut b1): (i128, i128, i128, i128) = (1, 0, 0, 1);
    let ghost mut c0: int = 1;
    let ghost mut c1: int = 0;
    let ghost mut d0: int = 0;
    let ghost mut d1: int = 1;
    assert(abs(0) == 0 && abs(1) == 1);
    assert((1 * sign(x as int)) * (0 * sign(y as int)) == 0);
    assert((0 * sign(x as int)) * (1 * sign(y as int)) == 0);
    while v != 0
        invariant
            a0 * x + b0 * y == u,
            a1 * x + b1 * y == v,
            c0 * u + c1 * v == x,
            d0 * u + d1 * v == y,
            x > i128::MIN,
            y > i128::MIN,
            u > i128::MIN,
            v > i128::MIN,
            abs(a1 as int) * abs(u as int) + abs(a0 as int) * abs(v as int) == abs(y as int),
            abs(b1 as int) * abs(u as int) + abs(b0 as int) * abs(v as int) == abs(x as int),
            v != 0 ==> (a0 * sign(u as int)) * (a1 * sign(v as int)) <= 0,
            v != 0 ==> (b0 * sign(u as int)) * (b1 * sign(v as int)) <= 0,
            x >= 0 && y >= 0 ==> u >= 0 && v >= 0,
            y == 0 ==> u == x && a0 == 1 && b0 == 0,
        decreases abs(v as int),
    {
        // Quotient and remainder rounded toward zero, taken through a positive
        // divisor: `u / v == -(u / -v)` and `u % v == u % -v`.
        let w: i128 = if v > 0 { v } else { -v };
        let qw = u / w;
        let r = u % w;
        let q: i128 = if v > 0 { qw } else { -qw };
        proof {
            if u >= 0 {
                lemma_fundamental_div_mod(u as int, w as int);
                assert(u == qw * w + r) by (nonlinear_arith) requires u == w * qw + r;
            } else {
                assert(qw == -((-u) / (w as int)) && r == -((-u) % (w as int)));
                lemma_fundamental_div_mod(-u, w as int);
                assert(u == qw * w + r) by (nonlinear_arith)
                    requires -u == w * (-qw) + (-r);
            }
            assert(u == q * v + r) by (nonlinear_arith)
                requires u == qw * w + r, (v > 0 && w == v && q == qw) || (v < 0 && w == -v && q == -qw);
            lemma_trunc_div_rem(u as int, v as int, q as int, r as int);
            assert((a0 - q * a1) * x + (b0 - q * b1) * y == r) by (nonlinear_arith)
                requires a0 * x + b0 * y == u, a1 * x + b1 * y == v, u == q * v + r;
            assert((c0 * q + c1) * v + c0 * r == x) by (nonlinear_arith)
                requires c0 * u + c1 * v == x, u == q * v + r;
            assert((d0 * q + d1) * v + d0 * r == y) by (nonlinear_arith)
                requires d0 * u + d1 * v == y, u == q * v + r;
            lemma_coefficient_step(u as int, v as int, q as int, r as int, a0 as int, a1 as int);
            lemma_coefficient_step(u as int, v as int, q as int, r as int, b0 as int, b1 as int);
            let na = a0 - q * a1;
            let nb = b0 - q * b1;
            assert(abs(na) * abs(v as int) + abs(a1 as int) * abs(r as int) == abs(y as int))
                by (nonlinear_arith)
                requires
                    abs(na) == abs(a0 as int) + abs(q as int) * abs(a1 as int),
                    abs(u as int) == abs(q as int) * abs(v as int) + abs(r as int),
                    abs(a1 as int) * abs(u as int) + abs(a0 as int) * abs(v as int) == abs(y as int);
            assert(abs(nb) * abs(v as int) + abs(b1 as int) * abs(r as int) == abs(x as int))
                by (nonlinear_arith)
                requires
                    abs(nb) == abs(b0 as int) + abs(q as int) * abs(b1 as int),
                    abs(u as int) == abs(q as int) * abs(v as int) + abs(r as int),
                    abs(b1 as int) * abs(u as int) + abs(b0 as int) * abs(v as int) == abs(x as int);
            assert(abs(na) <= abs(y as int)) by (nonlinear_arith)
                requires
                    abs(na) * abs(v as int) + abs(a1 as int) * abs(r as int) == abs(y as int),
                    abs(v as int) >= 1, abs(na) >= 0, abs(a1 as int) * abs(r as int) >= 0;
            assert(abs(nb) <= abs(x as int)) by (nonlinear_arith)
                requires
                    abs(nb) * abs(v as int) + abs(b1 as int) * abs(r as int) == abs(x as int),
                    abs(v as int) >= 1, abs(nb) >= 0, abs(b1 as int) * abs(r as int) >= 0;
            assert(abs(y as int) <= i128::MAX && abs(x as int) <= i128::MAX);
            assert(abs(q * a1) <= abs(na) && abs(q * b1) <= abs(nb));
            assert(-i128::MAX <= q * a1 <= i128::MAX && -i128::MAX <= na <= i128::MAX);
            assert(-i128::MAX <= q * b1 <= i128::MAX && -i128::MAX <= nb <= i128::MAX);
        }
        let c = a0 - q * a1;
        let d = b0 - q * b1;
        proof {
            let nc = c0 * q + c1;
            let nd = d0 * q + d1;
            c1 = c0;
            c0 = nc;
            d1 = d0;
            d0 = nd;
        }
        u = v;
        v = r;
        a0 = a1;
        a1 = c;
        b0 = b1;
        b1 = d;
    }
    proof {
        assert(c0 * u == x && d0 * u == y);
        assert(divides(u as int, x as int));
        assert(divides(u as int, y as int));
        assert forall|d: int| divides(d, x as int) && divides(d, y as int) implies divides(
            d,
            u as int,
        ) by {
            let kx = choose|k: int| #[trigger] (k * d) == x;
            let ky = choose|k: int| #[trigger] (k * d) == y;
            assert((a0 * kx + b0 * ky) * d == u) by (nonlinear_arith)
                requires kx * d == x, ky * d == y, a0 * x + b0 * y == u;
        }
    }
    (u, a0, b0)
}

/// `p` is a prime number.
pub open spec fn is_prime(p: int) -> bool {
    p > 1 && forall|d: int| 1 < d < p ==> #[trigger] (p % d) != 0
}

/// The big-endian value of a byte string.
pub open spec fn big_endian(bytes: Seq<u8>) -> int
    decreases bytes.len(),
{
    if bytes.len() == 0 {
        0
    } else {
        big_endian(bytes.drop_last()) * 256 + bytes.last() as int
    }
}

/// The number of values a 128-bit word holds.
pub open spec fn word_range() -> int {
    u128::MAX as int + 1
}

/// The prime `1 + 407 * 2^119`, the one field whose multiplicative group
/// structure is known.
pub const STARK_MODULUS: u128 = 270497897142230380135924736767050121217;

/// A generator of the multiplicative group of the field of `STARK_MODULUS`.
pub const STARK_GENERATOR: u128 = 85408008396924667383611388730472331217;

/// The largest power of two dividing the order of that multiplicative group.
pub const TWO_ADIC_ORDER: i128 = 0x80_0000_0000_0000_0000_0000_0000_0000;

/// `n` is a power of two no larger than `TWO_ADIC_ORDER`.
pub open spec fn is_root_order(n: int) -> bool {
    exists|k: nat| k <= 119 && n == #[trigger] pow2(k)
}

/// The value of `2^119`.
proof fn lemma_two_adic_order()
    ensures
        pow2(119) == TWO_ADIC_ORDER,
{
    lemma2_to64();
    lemma2_to64_rest();
    lemma_pow2_adds(64, 55);
}

/// Errors reported by field operations.
#[derive(Clone, Copy, Debug, PartialEq, Eq, Structural)]
pub enum FieldError {
    /// Division or inversion by the field's zero element.
    InvalidOperand,
    /// A generator or root of unity was requested of a field whose group
    /// structure is not known.
    UnsupportedField,
    /// A root of unity of an order that is not a power of two no larger than
    /// the group's largest two-power order.
    RootOrderOutOfRange,
}

/// A prime field, identified by its modulus.
#[derive(Clone, Copy, Debug, PartialEq, Eq, Structural)]
pub struct Field {
    p: u128,
}

/// An element of a prime field: a residue in `[0, p)` together with its field.
#[derive(Clone, Copy, Debug)]
pub struct FieldElement {
    value: u128,
    field: Field,
}

/// `(a + b) mod p`, computed without leaving 128 bits.
fn add_mod(a: u128, b: u128, p: u128) -> (r: u128)
    requires
        a < p,
        b < p,
    ensures
        r < p,
        r == (a + b) % (p as int),
{
    if a >= p - b {
        proof {
            lemma_fundamental_div_mod_converse(a + b, p as int, 1, a + b - p);
        }
        a - (p - b)
    } else {
        proof {
            lemma_small_mod((a + b) as nat, p as nat);
        }
        a + b
    }
}

/// `(a - b) mod p`, never negative.
fn sub_mod(a: u128, b: u128, p: u128) -> (r: u128)
    requires
        a < p,
        b < p,
    ensures
        r < p,
        r == (a - b) % (p as int),
{
    if a >= b {
        proof {
            lemma_small_mod((a - b) as nat, p as nat);
        }
        a - b
    } else {
        proof {
            lemma_fundamental_div_mod_converse(a - b, p as int, -1, p + a - b);
        }
        p - (b - a)
    }
}

/// `(a * b) mod p` by double-and-add over the binary digits of `b`, most
/// significant first, so that no intermediate leaves 128 bits.
fn mul_mod(a: u128, b: u128, p: u128) -> (r: u128)
    requires
        a < p,
    ensures
        r < p,
        r == (a * b) % (p as int),
{
    let mut d: u128 = 0x8000_0000_0000_0000_0000_0000_0000_0000;
    let ghost mut k: nat = 127;
    proof {
        lemma2_to64();
        lemma2_to64_rest();
        lemma_pow2_adds(64, 63);
        assert(pow2(127) == 0x8000_0000_0000_0000_0000_0000_0000_0000);
        lemma_small_mod(0, p as nat);
        lemma_small_mod(a as nat, p as nat);
    }
    let mut acc: u128 = if b >= d {
        proof {
            lemma_fundamental_div_mod_converse_div(b as int, d as int, 1, b - d);
            assert(a * 1 == a);
        }
        a
    } else {
        proof {
            lemma_fundamental_div_mod_converse_div(b as int, d as int, 0, b as int);
            assert(a * 0 == 0);
        }
        0
    };
    while d > 1
        invariant
            d == pow2(k),
            d >= 1,
            a < p,
            acc < p,
            acc == (a * (b / d)) % (p as int),
        decreases d,
    {
        proof {
            if k == 0 {
                lemma2_to64();
            }
            lemma_pow2_unfold(k);
            lemma_div_denominator(b as int, pow2((k - 1) as nat) as int, 2);
        }
        let ghost h = b / d;
        d = d / 2;
        proof {
            k = (k - 1) as nat;
        }
        let ghost t = b / d;
        let ghost m = p as int;
        proof {
            assert(h == t / 2);
            lemma_fundamental_div_mod(t as int, 2);
            lemma_add_mod_noop(a * h, a * h, m);
        }
        acc = add_mod(acc, acc, p);
        proof {
            assert(a * h + a * h == a * (2 * h)) by (nonlinear_arith);
        }
        if (b / d) % 2 == 1 {
            proof {
                lemma_add_mod_noop(a * (2 * h), a as int, m);
                lemma_small_mod(a as nat, p as nat);
                assert(a * (2 * h) + a == a * t) by (nonlinear_arith)
                    requires t == 2 * h + 1;
            }
            acc = add_mod(acc, a, p);
        } else {
            proof {
                assert(a * (2 * h) == a * t) by (nonlinear_arith)
                    requires t == 2 * h;
            }
        }
    }
    proof {
        assert(b / 1 == b);
    }
    acc
}

/// Squaring the residue of `a^h` gives the residue of `a^(2h)`.
proof fn lemma_square_step(a: int, h: nat, m: int)
    requires
        m > 0,
    ensures
        ((pow(a, h) % m) * (pow(a, h) % m)) % m == pow(a, 2 * h) % m,
{
    lemma_mul_mod_noop(pow(a, h), pow(a, h), m);
    lemma_pow_adds(a, h, h);
    assert(h + h == 2 * h);
}

/// Multiplying the residue of `a^t` by the residue `a` gives the residue of `a^(t + 1)`.
proof fn lemma_multiply_step(a: int, t: nat, m: int)
    requires
        0 <= a < m,
    ensures
        ((pow(a, t) % m) * a) % m == pow(a, t + 1) % m,
{
    lemma_mul_mod_noop_left(pow(a, t), a, m);
    lemma_pow_adds(a, t, 1);
    lemma_pow1(a);
}

/// Shifting a byte into the low end of a 128-bit accumulator keeps the low
/// 120 bits of the accumulator, moved up by one byte.
proof fn lemma_shift_in_byte(acc: u128, b: u8)
    ensures
        (acc << 8u128) ^ (b as u128) == (acc % 0x100_0000_0000_0000_0000_0000_0000_0000u128) * 256 + b,
{
    let bb: u128 = b as u128;
    let lo: u128 = acc & 0xff_ffff_ffff_ffff_ffff_ffff_ffff_ffffu128;
    assert((acc << 8u128) ^ bb == (lo << 8u128) | bb) by (bit_vector)
        requires
            lo == acc & 0xff_ffff_ffff_ffff_ffff_ffff_ffff_ffffu128,
            bb < 256u128;
    assert(lo <= 0xff_ffff_ffff_ffff_ffff_ffff_ffff_ffffu128) by (bit_vector)
        requires lo == acc & 0xff_ffff_ffff_ffff_ffff_ffff_ffff_ffffu128;
    assert((lo << 8u128) | bb == (lo << 8u128) + bb) by (bit_vector)
        requires
            lo <= 0xff_ffff_ffff_ffff_ffff_ffff_ffff_ffffu128,
            bb < 256u128;
    assert(lo << 8u128 == lo * 256u128) by (bit_vector)
        requires lo <= 0xff_ffff_ffff_ffff_ffff_ffff_ffff_ffffu128;
    assert(lo == acc % 0x100_0000_0000_0000_0000_0000_0000_0000u128) by (bit_vector)
        requires lo == acc & 0xff_ffff_ffff_ffff_ffff_ffff_ffff_ffffu128;
}

/// One step of the extended Euclidean recurrence on residues: from
/// `t0 * x = r0` and `t1 * x = r1` modulo `m`, the coefficient
/// `t0 - t1 * (q mod m)` of `x` gives `r0 - q * r1`.
proof fn lemma_euclid_residue_step(t0: int, t1: int, q: int, x: int, r0: int, r1: int, m: int)
    requires
        m > 0,
        (t0 * x) % m == (r0 as int) % m,
        (t1 * x) % m == (r1 as int) % m,
    ensures
        (((t0 - (t1 * (q % m)) % m) % m) * x) % m == (r0 - q * r1) % m,
{
    let qt = (t1 * (q % m)) % m;
    lemma_mul_mod_noop_right(t1, q, m);
    assert(qt == (t1 * q) % m);
    lemma_sub_mod_noop_right(t0, t1 * q, m);
    assert((t0 - qt) % m == (t0 - t1 * q) % m);
    lemma_mul_mod_noop_left(t0 - t1 * q, x, m);
    assert((t0 - t1 * q) * x == t0 * x - q * (t1 * x)) by (nonlinear_arith);
    lemma_sub_mod_noop(t0 * x, q * (t1 * x), m);
    lemma_mul_mod_noop_right(q, t1 * x, m);
    lemma_mul_mod_noop_right(q, r1, m);
    lemma_sub_mod_noop(r0, q * r1, m);
}

/// A nonzero residue below a prime shares no factor but one with it.
proof fn lemma_gcd_with_prime(x: int, p: int, g: int)
    requires
        is_prime(p),
        0 < x < p,
        g >= 0,
        divides(g, x),
        divides(g, p),
    ensures
        g == 1,
{
    let kx = choose|k: int| #[trigger] (k * g) == x;
    let kp = choose|k: int| #[trigger] (k * g) == p;
    assert(g != 0) by {
        if g == 0 {
            assert(kp * g == 0) by (nonlinear_arith) requires g == 0;
        }
    }
    assert(kx >= 1) by (nonlinear_arith) requires kx * g == x, x > 0, g > 0;
    assert(g <= x) by (nonlinear_arith) requires kx * g == x, kx >= 1, g > 0;
    if g > 1 {
        lemma_mod_multiples_basic(kp, g);
        assert(p % g == 0);
    }
}

impl Field {
    /// The modulus of the field.
    pub closed spec fn modulus(self) -> int {
        self.p as int
    }

    /// The modulus is prime.
    pub open spec fn wf(self) -> bool {
        is_prime(self.modulus())
    }

    /// The field of residues modulo the prime `p`.
    pub fn new(p: u128) -> (f: Field)
        requires
            is_prime(p as int),
        ensures
            f.modulus() == p,
            f.wf(),
    {
        Field { p: p }
    }

    /// The additive identity.
    pub fn zero(self) -> (r: FieldElement)
        requires
            self.wf(),
        ensures
            r.wf(),
            r.field() == self,
            r.value() == 0,
    {
        FieldElement { value: 0, field: self }
    }

    /// The multiplicative identity.
    pub fn one(self) -> (r: FieldElement)
        requires
            self.wf(),
        ensures
            r.wf(),
            r.field() == self,
            r.value() == 1,
    {
        FieldElement { value: 1, field: self }
    }

    /// `(left + right) mod p`.
    pub fn add(self, left: FieldElement, right: FieldElement) -> (r: FieldElement)
        requires
            self.wf(),
            left.wf(),
            right.wf(),
            left.field() == self,
            right.field() == self,
        ensures
            r.wf(),
            r.field() == self,
            r.value() == (left.value() + right.value()) % self.modulus(),
    {
        FieldElement { value: add_mod(left.value, right.value, self.p), field: self }
    }

    /// `(left - right) mod p`, canonicalised so that the residue is never
    /// negative whatever the order of the operands.
    pub fn subtract(self, left: FieldElement, right: FieldElement) -> (r: FieldElement)
        requires
            self.wf(),
            left.wf(),
            right.wf(),
            left.field() == self,
            right.field() == self,
        ensures
            r.wf(),
            r.field() == self,
            r.value() == (left.value() - right.value()) % self.modulus(),
    {
        FieldElement { value: sub_mod(left.value, right.value, self.p), field: self }
    }

    /// `(left * right) mod p`.
    pub fn multiply(self, left: FieldElement, right: FieldElement) -> (r: FieldElement)
        requires
            self.wf(),
            left.wf(),
            right.wf(),
            left.field() == self,
            right.field() == self,
        ensures
            r.wf(),
            r.field() == self,
            r.value() == (left.value() * right.value()) % self.modulus(),
    {
        FieldElement { value: mul_mod(left.value, right.value, self.p), field: self }
    }

    /// The multiplicative inverse of `operand`, by the extended Euclidean
    /// recurrence on `(p, operand)` with the coefficients of `operand` kept as
    /// residues modulo `p`; the zero element has none.
    pub fn inverse(self, operand: FieldElement) -> (r: Result<FieldElement, FieldError>)
        requires
            self.wf(),
            operand.wf(),
            operand.field() == self,
        ensures
            operand.value() == 0 ==> r == Err::<FieldElement, FieldError>(FieldError::InvalidOperand),
            operand.value() != 0 ==> (r matches Ok(e) && e.wf() && e.field() == self && (
            operand.value() * e.value()) % self.modulus() == 1),
    {
        if operand.value == 0 {
            return Err(FieldError::InvalidOperand);
        }
        let p = self.p;
        let x = operand.value;
        let ghost m = p as int;
        let (mut r0, mut r1): (u128, u128) = (p, x);
        let (mut t0, mut t1): (u128, u128) = (0, 1);
        let ghost mut c0: int = 1;
        let ghost mut c1: int = 0;
        let ghost mut d0: int = 0;
        let ghost mut d1: int = 1;
        proof {
            lemma_small_mod(0, p as nat);
            lemma_small_mod(x as nat, p as nat);
            lemma_mod_multiples_basic(1, m);
        }
        while r1 != 0
            invariant
                m == p,
                1 < m,
                0 < x < p,
                t0 < p,
                t1 < p,
                (t0 * x) % m == (r0 as int) % m,
                (t1 * x) % m == (r1 as int) % m,
                c0 * r0 + c1 * r1 == p,
                d0 * r0 + d1 * r1 == x,
            decreases r1,
        {
            let q = r0 / r1;
            let r = r0 % r1;
            let qt = mul_mod(t1, q % p, p);
            let t = sub_mod(t0, qt, p);
            proof {
                lemma_fundamental_div_mod(r0 as int, r1 as int);
                lemma_euclid_residue_step(t0 as int, t1 as int, q as int, x as int, r0 as int, r1 as int, m);
                assert(r0 == q * r1 + r) by (nonlinear_arith) requires r0 == r1 * q + r;
                assert((c0 * q + c1) * r1 + c0 * r == p) by (nonlinear_arith)
                    requires c0 * r0 + c1 * r1 == p, r0 == q * r1 + r;
                assert((d0 * q + d1) * r1 + d0 * r == x) by (nonlinear_arith)
                    requires d0 * r0 + d1 * r1 == x, r0 == q * r1 + r;
                let nc = c0 * q + c1;
                let nd = d0 * q + d1;
                c1 = c0;
                c0 = nc;
                d1 = d0;
                d0 = nd;
            }
            r0 = r1;
            r1 = r;
            t0 = t1;
            t1 = t;
        }
        proof {
            assert(c0 * r0 == m && d0 * r0 == x);
            assert(divides(r0 as int, m));
            assert(divides(r0 as int, x as int));
            lemma_gcd_with_prime(x as int, m, r0 as int);
            lemma_small_mod(1, p as nat);
            assert((x * t0) == (t0 * x)) by (nonlinear_arith);
        }
        Ok(FieldElement { value: t0, field: self })
    }

    /// `left / right`, that is `left` times the inverse of `right`; division by
    /// the zero element is refused.
    pub fn divide(self, left: FieldElement, right: FieldElement) -> (r: Result<FieldElement, FieldError>)
        requires
            self.wf(),
            left.wf(),
            right.wf(),
            left.field() == self,
            right.field() == self,
        ensures
            right.value() == 0 ==> r == Err::<FieldElement, FieldError>(FieldError::InvalidOperand),
            right.value() != 0 ==> (r matches Ok(e) && e.wf() && e.field() == self && (e.value()
                * right.value()) % self.modulus() == left.value()),
    {
        match self.inverse(right) {
            Err(err) => Err(err),
            Ok(inv) => {
                let e = self.multiply(left, inv);
                proof {
                    let m = self.modulus();
                    let (l, i, b) = (left.value(), inv.value(), right.value());
                    lemma_mul_mod_noop_left(l * i, b, m);
                    assert((l * i) * b == l * (b * i)) by (nonlinear_arith);
                    lemma_mul_mod_noop_right(l, b * i, m);
                    lemma_small_mod(l as nat, m as nat);
                }
                Ok(e)
            },
        }
    }

    /// A generator of the multiplicative group. It is known only for the
    /// field of `STARK_MODULUS`; every other field is refused.
    pub fn generator(self) -> (r: Result<FieldElement, FieldError>)
        requires
            self.wf(),
        ensures
            self.modulus() != STARK_MODULUS ==> r == Err::<FieldElement, FieldError>(
                FieldError::UnsupportedField,
            ),
            self.modulus() == STARK_MODULUS ==> (r matches Ok(e) && e.wf() && e.field() == self
                && e.value() == STARK_GENERATOR),
    {
        if self.p != STARK_MODULUS {
            return Err(FieldError::UnsupportedField);
        }
        Ok(FieldElement { value: STARK_GENERATOR, field: self })
    }

    /// A primitive `n`-th root of unity, for `n = 2^k` with `k <= 119`: the
    /// generator raised to `2^(119 - k)`, found by squaring the group's root of
    /// order `2^119` while halving the order until it reaches `n`. A field
    /// other than that of `STARK_MODULUS` is refused first; then an order that
    /// is not such a power of two.
    pub fn primitive_nth_root(self, n: i128) -> (r: Result<FieldElement, FieldError>)
        requires
            self.wf(),
        ensures
            self.modulus() != STARK_MODULUS ==> r == Err::<FieldElement, FieldError>(
                FieldError::UnsupportedField,
            ),
            self.modulus() == STARK_MODULUS && !is_root_order(n as int) ==> r == Err::<
                FieldElement,
                FieldError,
            >(FieldError::RootOrderOutOfRange),
            forall|k: nat|
                k <= 119 && n == #[trigger] pow2(k) && self.modulus() == STARK_MODULUS ==> (r matches Ok(
                    e,
                ) && e.wf() && e.field() == self && e.value() == pow(
                    STARK_GENERATOR as int,
                    pow2((119 - k) as nat),
                ) % self.modulus()),
    {
        if self.p != STARK_MODULUS {
            return Err(FieldError::UnsupportedField);
        }
        proof {
            lemma_two_adic_order();
        }
        if n < 1 || n > TWO_ADIC_ORDER {
            proof {
                assert forall|k: nat| k <= 119 implies n != #[trigger] pow2(k) by {
                    lemma_pow2_pos(k);
                    if k < 119 {
                        lemma_pow2_strictly_increases(k, 119);
                    }
                }
            }
            return Err(FieldError::RootOrderOutOfRange);
        }
        let ghost g = STARK_GENERATOR as int;
        let ghost m = self.modulus();
        let mut root = FieldElement { value: STARK_GENERATOR, field: self };
        let mut order: i128 = TWO_ADIC_ORDER;
        let ghost mut j: nat = 119;
        proof {
            assert(pow2(0) == 1) by {
                lemma2_to64();
            }
            lemma_pow1(g);
            lemma_small_mod(g as nat, m as nat);
        }
        while order > n
            invariant
                self.wf(),
                m == self.modulus(),
                m == STARK_MODULUS,
                g == STARK_GENERATOR,
                1 <= n <= TWO_ADIC_ORDER,
                j <= 119,
                order == pow2(j),
                j < 119 ==> pow2(j + 1) > n,
                root.wf(),
                root.field() == self,
                root.value() == pow(g, pow2((119 - j) as nat)) % m,
            decreases order,
        {
            proof {
                lemma2_to64();
                if j == 0 {
                    assert(false);
                }
                lemma_pow2_unfold(j);
                lemma_pow2_unfold((120 - j) as nat);
                lemma_square_step(g, pow2((119 - j) as nat), m);
            }
            root = root.mul(root);
            order = order / 2;
            proof {
                j = (j - 1) as nat;
            }
        }
        if order != n {
            proof {
                assert forall|k: nat| k <= 119 implies n != #[trigger] pow2(k) by {
                    if k <= j {
                        if k < j {
                            lemma_pow2_strictly_increases(k, j);
                        }
                    } else {
                        if k > j + 1 {
                            lemma_pow2_strictly_increases(j + 1, k);
                        }
                    }
                }
            }
            return Err(FieldError::RootOrderOutOfRange);
        }
        proof {
            assert forall|k: nat| k <= 119 && n == #[trigger] pow2(k) implies k == j by {
                if k < j {
                    lemma_pow2_strictly_increases(k, j);
                } else if k > j {
                    lemma_pow2_strictly_increases(j, k);
                }
            }
        }
        Ok(root)
    }

    /// A deterministic, non-uniform embedding of a byte string in the field:
    /// the bytes are accumulated big-endian into a 128-bit word
    /// (`acc = (acc << 8) ^ byte`, which keeps the last sixteen bytes), and the
    /// word is reduced modulo `p`. This is not a cryptographic hash.
    pub fn sample(self, byte_array: Vec<u8>) -> (r: FieldElement)
        requires
            self.wf(),
        ensures
            r.wf(),
            r.field() == self,
            r.value() == (big_endian(byte_array@) % word_range()) % self.modulus(),
    {
        let mut acc: u128 = 0;
        let mut i: usize = 0;
        proof {
            assert(byte_array@.take(0).len() == 0);
            lemma_small_mod(0, word_range() as nat);
        }
        while i < byte_array.len()
            invariant
                0 <= i <= byte_array.len(),
                acc == big_endian(byte_array@.take(i as int)) % word_range(),
            decreases byte_array.len() - i,
        {
            let b = byte_array[i];
            proof {
                let prefix = byte_array@.take(i as int);
                let next = byte_array@.take(i as int + 1);
                assert(next.drop_last() =~= prefix);
                let x = big_endian(prefix);
                let low: int = 0x100_0000_0000_0000_0000_0000_0000_0000;
                lemma_shift_in_byte(acc, b);
                lemma_mod_mod(x, low, 256);
                assert(low * 256 == word_range());
                lemma_fundamental_div_mod(x, low);
                lemma_mod_bound(x, low);
                assert(x * 256 + b == (x / low) * word_range() + ((x % low) * 256 + b))
                    by (nonlinear_arith)
                    requires x == low * (x / low) + x % low, low * 256 == word_range();
                lemma_fundamental_div_mod_converse_mod(
                    x * 256 + b,
                    word_range(),
                    x / low,
                    (x % low) * 256 + b,
                );
            }
            acc = (acc << 8) ^ (b as u128);
            i = i + 1;
        }
        proof {
            assert(byte_array@.take(byte_array.len() as int) =~= byte_array@);
        }
        FieldElement { value: acc % self.p, field: self }
    }

    /// `(p - operand) mod p`.
    pub fn negate(self, operand: FieldElement) -> (r: FieldElement)
        requires
            self.wf(),
            operand.wf(),
            operand.field() == self,
        ensures
            r.wf(),
            r.field() == self,
            r.value() == (-operand.value()) % self.modulus(),
    {
        proof {
            lemma_small_mod(0, self.p as nat);
        }
        FieldElement { value: sub_mod(0, operand.value, self.p), field: self }
    }
}

impl FieldElement {
    /// The residue held by the element.
    pub closed spec fn value(self) -> int {
        self.value as int
    }

    /// The field the element belongs to.
    pub closed spec fn spec_field(self) -> Field {
        self.field
    }

    /// The field the element belongs to.
    #[verifier::when_used_as_spec(spec_field)]
    pub fn field(self) -> (f: Field)
        ensures
            f == self.spec_field(),
    {
        self.field
    }

    /// The residue lies in `[0, p)` of a well-formed field.
    pub open spec fn wf(self) -> bool {
        self.field().wf() && 0 <= self.value() < self.field().modulus()
    }

    /// The element of `field` congruent to `value`.
    pub fn new(value: u128, field: Field) -> (r: FieldElement)
        requires
            field.wf(),
        ensures
            r.wf(),
            r.field() == field,
            r.value() == (value as int) % field.modulus(),
    {
        FieldElement { value: value % field.p, field: field }
    }

    /// The multiplicative inverse; the zero element has none.
    pub fn inverse(self) -> (r: Result<FieldElement, FieldError>)
        requires
            self.wf(),
        ensures
            self.value() == 0 ==> r == Err::<FieldElement, FieldError>(FieldError::InvalidOperand),
            self.value() != 0 ==> (r matches Ok(e) && e.wf() && e.field() == self.field() && (
            self.value() * e.value()) % self.field().modulus() == 1),
    {
        self.field.inverse(self)
    }

    /// Field sum, as `Field::add`.
    pub fn add(self, other: FieldElement) -> (r: FieldElement)
        requires
            self.wf(),
            other.wf(),
            other.field() == self.field(),
        ensures
            r.wf(),
            r.field() == self.field(),
            r.value() == (self.value() + other.value()) % self.field().modulus(),
    {
        self.field.add(self, other)
    }

    /// Field difference, as `Field::subtract`.
    pub fn sub(self, other: FieldElement) -> (r: FieldElement)
        requires
            self.wf(),
            other.wf(),
            other.field() == self.field(),
        ensures
            r.wf(),
            r.field() == self.field(),
            r.value() == (self.value() - other.value()) % self.field().modulus(),
    {
        self.field.subtract(self, other)
    }

    /// Field product, as `Field::multiply`.
    pub fn mul(self, other: FieldElement) -> (r: FieldElement)
        requires
            self.wf(),
            other.wf(),
            other.field() == self.field(),
        ensures
            r.wf(),
            r.field() == self.field(),
            r.value() == (self.value() * other.value()) % self.field().modulus(),
    {
        self.field.multiply(self, other)
    }

    /// Field quotient, as `Field::divide`.
    pub fn div(self, other: FieldElement) -> (r: Result<FieldElement, FieldError>)
        requires
            self.wf(),
            other.wf(),
            other.field() == self.field(),
        ensures
            other.value() == 0 ==> r == Err::<FieldElement, FieldError>(FieldError::InvalidOperand),
            other.value() != 0 ==> (r matches Ok(e) && e.wf() && e.field() == self.field() && (
            e.value() * other.value()) % self.field().modulus() == self.value()),
    {
        self.field.divide(self, other)
    }

    /// Additive inverse, as `Field::negate`.
    pub fn neg(self) -> (r: FieldElement)
        requires
            self.wf(),
        ensures
            r.wf(),
            r.field() == self.field(),
            r.value() == (-self.value()) % self.field().modulus(),
    {
        self.field.negate(self)
    }

    /// `self` raised to `exponent`, by square-and-multiply over the binary
    /// digits of the exponent from the most significant one down.
    pub fn pow(self, exponent: i128) -> (r: FieldElement)
        requires
            self.wf(),
            exponent >= 0,
        ensures
            r.wf(),
            r.field() == self.field(),
            r.value() == pow(self.value(), exponent as nat) % self.field().modulus(),
    {
        let e = exponent as u128;
        let ghost a = self.value();
        let ghost m = self.field().modulus();
        let mut d: u128 = 1;
        let ghost mut k: nat = 0;
        proof {
            lemma2_to64();
        }
        while d <= e
            invariant
                d == pow2(k),
                d >= 1,
                d <= 2 * e + 1,
                e <= i128::MAX,
            decreases 2 * (e as int) + 2 - (d as int),
        {
            proof {
                lemma_pow2_unfold(k + 1);
            }
            d = d * 2;
            proof {
                k = k + 1;
            }
        }
        let mut acc = self.field.one();
        proof {
            lemma_fundamental_div_mod_converse_div(e as int, d as int, 0, e as int);
            lemma_pow0(a);
            lemma_small_mod(1, m as nat);
        }
        while d > 1
            invariant
                self.wf(),
                d == pow2(k),
                d >= 1,
                e == exponent,
                acc.wf(),
                acc.field() == self.field(),
                a == self.value(),
                m == self.field().modulus(),
                acc.value() == pow(a, (e / d) as nat) % m,
            decreases d,
        {
            proof {
                if k == 0 {
                    lemma2_to64();
                }
                lemma_pow2_unfold(k);
                lemma_div_denominator(e as int, pow2((k - 1) as nat) as int, 2);
            }
            let ghost h = e / d;
            d = d / 2;
            proof {
                k = (k - 1) as nat;
            }
            let ghost t = e / d;
            proof {
                assert(h == t / 2);
                lemma_fundamental_div_mod(t as int, 2);
                lemma_square_step(a, h as nat, m);
            }
            acc = acc.mul(acc);
            if (e / d) % 2 == 1 {
                proof {
                    lemma_multiply_step(a, (2 * h) as nat, m);
                }
                acc = acc.mul(self);
            }
        }
        assert(d == 1);
        assert(e / 1 == e);
        acc
    }

    /// The element is the additive identity.
    pub fn is_zero(self) -> (r: bool)
        ensures
            r == (self.value() == 0),
    {
        self.value == 0
    }
}

/// Bezout's identity, proved by the recursive Euclidean algorithm: some
/// combination of `x` and `y` is a nonnegative common divisor of both.
proof fn lemma_bezout(x: int, y: int) -> (r: (int, int, int))
    requires
        x >= 0,
        y >= 0,
    ensures
        r.1 * x + r.2 * y == r.0,
        r.0 >= 0,
        divides(r.0, x),
        divides(r.0, y),
    decreases y,
{
    if y == 0 {
        assert(0 * x == 0);
        assert(1 * x == x);
        (x, 1, 0)
    } else {
        let q = x / y;
        let rem = x % y;
        lemma_fundamental_div_mod(x, y);
        lemma_mod_bound(x, y);
        let (g, a, b) = lemma_bezout(y, rem);
        let ky = choose|k: int| #[trigger] (k * g) == y;
        let kr = choose|k: int| #[trigger] (k * g) == rem;
        assert((q * ky + kr) * g == x) by (nonlinear_arith)
            requires ky * g == y, kr * g == rem, x == y * q + rem;
        assert(b * x + (a - b * q) * y == g) by (nonlinear_arith)
            requires a * y + b * rem == g, x == y * q + rem;
        (g, b, a - b * q)
    }
}

/// In a prime field a nonzero factor cancels: if `q * b` and `a * b` leave
/// the same residue, then `q` and `a` are the same residue.
proof fn lemma_cancel_factor(p: int, a: int, b: int, q: int)
    requires
        is_prime(p),
        0 <= a < p,
        0 < b < p,
        0 <= q < p,
        (q * b) % p == (a * b) % p,
    ensures
        q == a,
{
    let (g, s, t) = lemma_bezout(b, p);
    lemma_gcd_with_prime(b, p, g);
    assert(b * s == p * (-t) + 1) by (nonlinear_arith)
        requires s * b + t * p == 1;
    lemma_mod_multiples_vanish(-t, 1, p);
    lemma_small_mod(1, p as nat);
    assert((b * s) % p == 1);
    assert forall|x: int| 0 <= x < p implies (#[trigger] ((x * b) * s)) % p == x by {
        lemma_mul_mod_noop_right(x, b * s, p);
        assert((x * b) * s == x * (b * s)) by (nonlinear_arith);
        lemma_small_mod(x as nat, p as nat);
    }
    lemma_mul_mod_noop_left(q * b, s, p);
    lemma_mul_mod_noop_left(a * b, s, p);
}

/// Adding `b` and then subtracting it gives `a` back.
pub proof fn lemma_add_sub_cancel(a: FieldElement, b: FieldElement)
    requires
        a.wf(),
        b.wf(),
        a.field() == b.field(),
    ensures
        ((a.value() + b.value()) % a.field().modulus() - b.value()) % a.field().modulus()
            == a.value(),
{
    let p = a.field().modulus();
    lemma_sub_mod_noop(a.value() + b.value(), b.value(), p);
    lemma_small_mod(b.value() as nat, p as nat);
    lemma_small_mod(a.value() as nat, p as nat);
    lemma_mod_twice(a.value() + b.value(), p);
    assert(((a.value() + b.value()) % p - b.value() % p) % p == (a.value() + b.value() - b.value()) % p);
}

/// Multiplying by a nonzero `b` and then dividing by it gives `a` back: the
/// quotient `q` that division returns for `(a * b) mod p` and `b` is `a`.
pub proof fn lemma_mul_div_cancel(a: FieldElement, b: FieldElement, q: FieldElement)
    requires
        a.wf(),
        b.wf(),
        q.wf(),
        a.field() == b.field(),
        q.field() == a.field(),
        b.value() != 0,
        (q.value() * b.value()) % a.field().modulus() == (a.value() * b.value()) % a.field().modulus(),
    ensures
        q.value() == a.value(),
{
    lemma_cancel_factor(a.field().modulus(), a.value(), b.value(), q.value());
}

/// Negating twice gives the element back.
pub proof fn lemma_double_negation(a: FieldElement)
    requires
        a.wf(),
    ensures
        (-((-a.value()) % a.field().modulus())) % a.field().modulus() == a.value(),
{
    let p = a.field().modulus();
    lemma_sub_mod_noop(0, -a.value(), p);
    lemma_small_mod(0, p as nat);
    lemma_small_mod(a.value() as nat, p as nat);
    assert((0 - (-a.value()) % p) % p == (0 - (-a.value())) % p);
}

/// Laws of exponentiation in the field: `a^0` is one, `a^1` is `a`, and
/// `a^(m + n)` is the product of `a^m` and `a^n`.
pub proof fn lemma_pow_laws(a: FieldElement, m: nat, n: nat)
    requires
        a.wf(),
    ensures
        pow(a.value(), 0) % a.field().modulus() == 1,
        pow(a.value(), 1) % a.field().modulus() == a.value(),
        pow(a.value(), m + n) % a.field().modulus() == ((pow(a.value(), m) % a.field().modulus())
            * (pow(a.value(), n) % a.field().modulus())) % a.field().modulus(),
{
    let p = a.field().modulus();
    lemma_pow0(a.value());
    lemma_pow1(a.value());
    lemma_small_mod(1, p as nat);
    lemma_small_mod(a.value() as nat, p as nat);
    lemma_pow_adds(a.value(), m, n);
    lemma_mul_mod_noop(pow(a.value(), m), pow(a.value(), n), p);
}

impl PartialEq for FieldElement {
    /// Elements are equal when their residues are; both are taken to lie in
    /// the same field.
    fn eq(&self, other: &FieldElement) -> (r: bool)
        ensures
            r == (self.value() == other.value()),
    {
        self.value == other.value
    }
}

impl vstd::std_specs::cmp::PartialEqSpecImpl for FieldElement {
    open spec fn obeys_eq_spec() -> bool {
        true
    }

    open spec fn eq_spec(&self, other: &FieldElement) -> bool {
        self.value() == other.value()
    }
}

} // verus!
