use crate::algebra::{Field, FieldElement};
use vstd::arithmetic::div_mod::{
    lemma_add_mod_noop,
    lemma_fundamental_div_mod_converse,
    lemma_add_mod_noop_right,
    lemma_mul_mod_noop_right,
    lemma_small_mod,
};
use vstd::prelude::*;

verus! {

/// A dense univariate polynomial over a prime field: index `i` holds the
/// coefficient of `x^i`. Trailing zero coefficients may be stored, so the
/// degree is computed from the coefficients on each query.
#[derive(Clone, Debug)]
pub struct Polynomial {
    coefficients: Vec<FieldElement>,
}

/// The sum of the first `n` terms `a_i * b_(k - i)` of the coefficient of
/// `x^k` in the product of `a` and `b`.
pub open spec fn convolution(a: Polynomial, b: Polynomial, k: int, n: int) -> int
    decreases n,
{
    if n <= 0 {
        0
    } else {
        convolution(a, b, k, n - 1) + a.coeff(n - 1) * b.coeff(k - (n - 1))
    }
}

/// `r` is the sum of `a` and `b` over `f`.
pub open spec fn is_sum(r: Polynomial, a: Polynomial, b: Polynomial, f: Field) -> bool {
    &&& r.over(f)
    &&& forall|i: int| #[trigger] r.coeff(i) == (a.coeff(i) + b.coeff(i)) % f.modulus()
}

/// `r` is `a` minus `b` over `f`.
pub open spec fn is_difference(r: Polynomial, a: Polynomial, b: Polynomial, f: Field) -> bool {
    &&& r.over(f)
    &&& forall|i: int| #[trigger] r.coeff(i) == (a.coeff(i) - b.coeff(i)) % f.modulus()
}

/// `r` is the negation of `a` over `f`.
pub open spec fn is_negation(r: Polynomial, a: Polynomial, f: Field) -> bool {
    &&& r.over(f)
    &&& forall|i: int| #[trigger] r.coeff(i) == (-a.coeff(i)) % f.modulus()
}

/// `r` is the product of `a` and `b` over `f`.
pub open spec fn is_product(r: Polynomial, a: Polynomial, b: Polynomial, f: Field) -> bool {
    &&& r.over(f)
    &&& forall|k: int| #[trigger] r.coeff(k) == convolution(a, b, k, a.len()) % f.modulus()
}

impl Polynomial {
    /// The stored coefficients, lowest power first.
    pub closed spec fn coeffs(self) -> Seq<FieldElement> {
        self.coefficients@
    }

    /// The number of stored coefficients.
    pub open spec fn len(self) -> int {
        self.coeffs().len() as int
    }

    /// The coefficient of `x^i` as a residue; zero outside the stored range.
    pub open spec fn coeff(self, i: int) -> int {
        if 0 <= i < self.len() {
            self.coeffs()[i].value()
        } else {
            0
        }
    }

    /// Every coefficient is an element of the well-formed field `f`.
    pub open spec fn over(self, f: Field) -> bool {
        &&& f.wf()
        &&& forall|i: int|
            0 <= i < self.len() ==> (#[trigger] self.coeffs()[i]).wf() && self.coeffs()[i].field()
                == f
    }

    /// All coefficients are elements of one well-formed field.
    pub open spec fn wf(self) -> bool {
        self.len() == 0 || self.over(self.coeffs()[0].field())
    }

    /// Both polynomials are well formed, over one field.
    pub open spec fn compatible(self, other: Polynomial) -> bool {
        &&& self.wf()
        &&& other.wf()
        &&& (self.len() > 0 && other.len() > 0 ==> self.coeffs()[0].field()
            == other.coeffs()[0].field())
    }

    /// Every coefficient is zero.
    pub open spec fn is_zero_poly(self) -> bool {
        forall|i: int| #[trigger] self.coeff(i) == 0
    }

    /// Equal as polynomials: the same coefficient for every power, whatever
    /// trailing zeros either one stores.
    pub open spec fn equals(self, other: Polynomial) -> bool {
        forall|i: int| #[trigger] self.coeff(i) == other.coeff(i)
    }

    /// The highest index below `n` holding a nonzero coefficient, or -1.
    pub open spec fn top_nonzero(self, n: int) -> int
        decreases n,
    {
        if n <= 0 {
            -1
        } else if self.coeff(n - 1) != 0 {
            n - 1
        } else {
            self.top_nonzero(n - 1)
        }
    }

    /// The degree: the highest power with a nonzero coefficient, or -1 for the
    /// zero polynomial.
    pub open spec fn spec_degree(self) -> int {
        self.top_nonzero(self.len())
    }

    /// The polynomial with the given coefficients, lowest power first.
    pub fn new(coefficients: Vec<FieldElement>) -> (r: Polynomial)
        ensures
            r.coeffs() == coefficients@,
    {
        Polynomial { coefficients }
    }

    /// The degree, recomputed from the coefficients: -1 when every
    /// coefficient is zero, otherwise the highest index of a nonzero one.
    pub fn degree(&self) -> (r: i128)
        ensures
            r == self.spec_degree(),
            r == -1 <==> self.is_zero_poly(),
            r >= 0 ==> self.coeff(r as int) != 0 && forall|j: int|
                j > r ==> #[trigger] self.coeff(j) == 0,
    {
        let mut maxindex: i128 = -1;
        let mut i: usize = 0;
        while i < self.coefficients.len()
            invariant
                i <= self.len(),
                maxindex == self.top_nonzero(i as int),
            decreases self.len() - i,
        {
            if !self.coefficients[i].is_zero() {
                maxindex = i as i128;
            }
            i = i + 1;
        }
        proof {
            lemma_degree(*self, self.len());
        }
        maxindex
    }

    /// The polynomial is zero: its degree is -1.
    pub fn is_zero(&self) -> (r: bool)
        ensures
            r == self.is_zero_poly(),
    {
        self.degree() == -1
    }

    /// The coefficient at the degree; the zero polynomial has none.
    pub fn leading_coefficient(&self) -> (r: Option<FieldElement>)
        ensures
            self.is_zero_poly() ==> r.is_none(),
            !self.is_zero_poly() ==> r == Some(self.coeffs()[self.spec_degree()]),
    {
        let d = self.degree();
        if d == -1 {
            None
        } else {
            proof {
                lemma_degree(*self, self.len());
                assert(0 <= d < self.coefficients.len());
            }
            Some(self.coefficients[d as usize])
        }
    }

    /// The polynomial whose coefficients are the field negations of these.
    pub fn neg(self) -> (r: Polynomial)
        requires
            self.wf(),
        ensures
            r.len() == self.len(),
            r.wf(),
            r.is_zero_poly() == self.is_zero_poly(),
            forall|f: Field| #[trigger] self.over(f) ==> is_negation(r, self, f),
    {
        let mut out: Vec<FieldElement> = Vec::new();
        let mut i: usize = 0;
        while i < self.coefficients.len()
            invariant
                self.wf(),
                i <= self.len(),
                out@.len() == i,
                forall|j: int|
                    0 <= j < i ==> (#[trigger] out@[j]).wf() && out@[j].field()
                        == self.coeffs()[j].field() && out@[j].value() == (-self.coeff(j))
                        % self.coeffs()[j].field().modulus() && (out@[j].value() == 0) == (
                    self.coeff(j) == 0),
            decreases self.len() - i,
        {
            proof {
                let c = self.coeff(i as int);
                let m = self.coeffs()[i as int].field().modulus();
                assert(self.coeffs()[i as int].wf());
                if c == 0 {
                    lemma_small_mod(0, m as nat);
                } else {
                    lemma_fundamental_div_mod_converse(-c, m, -1, m - c);
                }
            }
            out.push(self.coefficients[i].neg());
            i = i + 1;
        }
        let r = Polynomial { coefficients: out };
        proof {
            assert forall|j: int| #[trigger] r.coeff(j) == 0 <==> self.coeff(j) == 0 by {}
            if r.is_zero_poly() {
                assert forall|j: int| #[trigger] self.coeff(j) == 0 by {
                    assert(r.coeff(j) == 0);
                }
            }
            if self.is_zero_poly() {
                assert forall|j: int| #[trigger] r.coeff(j) == 0 by {
                    assert(self.coeff(j) == 0);
                }
            }
            assert forall|f: Field| #[trigger] self.over(f) implies is_negation(r, self, f) by {
                assert forall|j: int| #[trigger] r.coeff(j) == (-self.coeff(j)) % f.modulus() by {
                    if !(0 <= j < r.len()) {
                        lemma_small_mod(0, f.modulus() as nat);
                    }
                }
            }
        }
        r
    }

    /// The sum: a zero operand gives the other one back; otherwise the result
    /// is as long as the longer operand, with the field sum where both have a
    /// coefficient and the one coefficient present elsewhere.
    pub fn add(self, other: Polynomial) -> (r: Polynomial)
        requires
            self.compatible(other),
        ensures
            r.wf(),
            self.len() > 0 ==> r.compatible(self),
            other.len() > 0 ==> r.compatible(other),
            self.is_zero_poly() ==> r.coeffs() == other.coeffs(),
            !self.is_zero_poly() && other.is_zero_poly() ==> r.coeffs() == self.coeffs(),
            !self.is_zero_poly() && !other.is_zero_poly() ==> r.len() == (if self.len()
                >= other.len() {
                self.len()
            } else {
                other.len()
            }),
            forall|f: Field| #[trigger] self.over(f) && other.over(f) ==> is_sum(r, self, other, f),
    {
        if self.degree() == -1 {
            proof {
                assert forall|f: Field| #[trigger] self.over(f) && other.over(f) implies is_sum(
                    other,
                    self,
                    other,
                    f,
                ) by {
                    lemma_coeff_bound(other, f);
                    assert forall|j: int| #[trigger] other.coeff(j) == (self.coeff(j) + other.coeff(
                        j,
                    )) % f.modulus() by {
                        assert(self.coeff(j) == 0);
                        lemma_small_mod(other.coeff(j) as nat, f.modulus() as nat);
                    }
                }
            }
            return other;
        }
        if other.degree() == -1 {
            proof {
                assert forall|f: Field| #[trigger] self.over(f) && other.over(f) implies is_sum(
                    self,
                    self,
                    other,
                    f,
                ) by {
                    lemma_coeff_bound(self, f);
                    assert forall|j: int| #[trigger] self.coeff(j) == (self.coeff(j) + other.coeff(
                        j,
                    )) % f.modulus() by {
                        assert(other.coeff(j) == 0);
                        lemma_small_mod(self.coeff(j) as nat, f.modulus() as nat);
                    }
                }
            }
            return self;
        }
        let n1 = self.coefficients.len();
        let n2 = other.coefficients.len();
        let maxlen = if n1 >= n2 { n1 } else { n2 };
        let ghost f = self.coeffs()[0].field();
        let mut out: Vec<FieldElement> = Vec::new();
        let mut i: usize = 0;
        while i < maxlen
            invariant
                self.over(f),
                other.over(f),
                n1 == self.len(),
                n2 == other.len(),
                maxlen == if n1 >= n2 { n1 } else { n2 },
                i <= maxlen,
                out@.len() == i,
                forall|j: int|
                    0 <= j < i ==> (#[trigger] out@[j]).wf() && out@[j].field() == f
                        && out@[j].value() == (self.coeff(j) + other.coeff(j)) % f.modulus(),
            decreases maxlen - i,
        {
            proof {
                lemma_coeff_bound(self, f);
                lemma_coeff_bound(other, f);
            }
            if i < n1 && i < n2 {
                out.push(self.coefficients[i].add(other.coefficients[i]));
            } else if i < n1 {
                proof {
                    lemma_small_mod(self.coeff(i as int) as nat, f.modulus() as nat);
                }
                out.push(self.coefficients[i]);
            } else {
                proof {
                    lemma_small_mod(other.coeff(i as int) as nat, f.modulus() as nat);
                }
                out.push(other.coefficients[i]);
            }
            i = i + 1;
        }
        let r = Polynomial { coefficients: out };
        proof {
            assert(r.over(f));
            assert forall|g: Field| #[trigger] self.over(g) && other.over(g) implies is_sum(
                r,
                self,
                other,
                g,
            ) by {
                assert(g == f);
                assert forall|j: int| #[trigger] r.coeff(j) == (self.coeff(j) + other.coeff(j))
                    % g.modulus() by {
                    if !(0 <= j < r.len()) {
                        lemma_small_mod(0, f.modulus() as nat);
                    }
                }
            }
        }
        r
    }

    /// The difference `self + (-other)`.
    pub fn sub(self, other: Polynomial) -> (r: Polynomial)
        requires
            self.compatible(other),
        ensures
            r.wf(),
            self.len() > 0 ==> r.compatible(self),
            other.len() > 0 ==> r.compatible(other),
            self.is_zero_poly() ==> r.len() == other.len(),
            !self.is_zero_poly() && other.is_zero_poly() ==> r.coeffs() == self.coeffs(),
            !self.is_zero_poly() && !other.is_zero_poly() ==> r.len() == (if self.len()
                >= other.len() {
                self.len()
            } else {
                other.len()
            }),
            forall|f: Field| #[trigger] self.over(f) && other.over(f) ==> is_difference(
                r,
                self,
                other,
                f,
            ),
    {
        let ghost o = other;
        let negated = other.neg();
        let r = self.add(negated);
        proof {
            assert forall|f: Field| #[trigger] self.over(f) && o.over(f) implies is_difference(
                r,
                self,
                o,
                f,
            ) by {
                assert(is_negation(negated, o, f));
                assert(negated.over(f));
                assert(is_sum(r, self, negated, f));
                assert forall|j: int| #[trigger] r.coeff(j) == (self.coeff(j) - o.coeff(j))
                    % f.modulus() by {
                    assert(negated.coeff(j) == (-o.coeff(j)) % f.modulus());
                    lemma_add_mod_noop_right(self.coeff(j), -o.coeff(j), f.modulus());
                }
            }
        }
        r
    }

    /// The product, by the schoolbook convolution `r[i + j] += a[i] * b[j]`;
    /// an operand with no coefficients gives the empty polynomial.
    pub fn mul(self, other: Polynomial) -> (r: Polynomial)
        requires
            self.compatible(other),
            self.len() + other.len() <= usize::MAX,
        ensures
            r.wf(),
            self.len() > 0 && other.len() > 0 ==> r.compatible(self) && r.compatible(other),
            self.len() == 0 || other.len() == 0 ==> r.len() == 0,
            self.len() > 0 && other.len() > 0 ==> r.len() == self.len() + other.len() - 1,
            forall|f: Field| #[trigger] self.over(f) && other.over(f) ==> is_product(
                r,
                self,
                other,
                f,
            ),
    {
        let n1 = self.coefficients.len();
        let n2 = other.coefficients.len();
        if n1 == 0 || n2 == 0 {
            let r = Polynomial { coefficients: Vec::new() };
            proof {
                assert forall|f: Field| #[trigger] self.over(f) && other.over(f) implies is_product(
                    r,
                    self,
                    other,
                    f,
                ) by {
                    assert forall|k: int| #[trigger] r.coeff(k) == convolution(self, other, k, n1 as int) % f.modulus() by {
                        lemma_convolution_vanishes(self, other, k, n1 as int);
                        lemma_small_mod(0, f.modulus() as nat);
                    }
                }
            }
            return r;
        }
        let field = self.coefficients[0].field();
        let ghost f = field;
        let ghost m = f.modulus();
        let zero = field.zero();
        let total = n1 + n2 - 1;
        let mut buf: Vec<FieldElement> = Vec::new();
        let mut t: usize = 0;
        proof {
            lemma_coeff_bound(self, f);
            lemma_coeff_bound(other, f);
            lemma_small_mod(0, m as nat);
        }
        while t < total
            invariant
                f.wf(),
                zero.wf(),
                zero.field() == f,
                zero.value() == 0,
                t <= total,
                buf@.len() == t,
                forall|k: int| 0 <= k < t ==> (#[trigger] buf@[k]) == zero,
            decreases total - t,
        {
            buf.push(zero);
            t = t + 1;
        }
        let mut i: usize = 0;
        while i < n1
            invariant
                self.over(f),
                other.over(f),
                m == f.modulus(),
                1 < m,
                n1 == self.len(),
                n2 == other.len(),
                total == n1 + n2 - 1,
                i <= n1,
                buf@.len() == total,
                forall|k: int|
                    0 <= k < total ==> (#[trigger] buf@[k]).wf() && buf@[k].field() == f
                        && buf@[k].value() == convolution(self, other, k, i as int) % m,
            decreases n1 - i,
        {
            let a = self.coefficients[i];
            if !a.is_zero() {
                let mut j: usize = 0;
                while j < n2
                    invariant
                        self.over(f),
                        other.over(f),
                        m == f.modulus(),
                        1 < m,
                        n1 == self.len(),
                        n2 == other.len(),
                        total == n1 + n2 - 1,
                        i < n1,
                        j <= n2,
                        a == self.coeffs()[i as int],
                        buf@.len() == total,
                        forall|k: int|
                            0 <= k < total ==> (#[trigger] buf@[k]).wf() && buf@[k].field() == f
                                && buf@[k].value() == (convolution(self, other, k, i as int) + (
                            if i <= k < i + j {
                                a.value() * other.coeff(k - i)
                            } else {
                                0
                            })) % m,
                    decreases n2 - j,
                {
                    let b = other.coefficients[j];
                    proof {
                        assert(self.coeffs()[i as int].wf());
                        assert(other.coeffs()[j as int].wf());
                    }
                    let term = a.mul(b);
                    let k = i + j;
                    let old = buf[k];
                    proof {
                        let c = convolution(self, other, k as int, i as int);
                        assert(c + 0 == c);
                        lemma_add_mod_noop(c, a.value() * b.value(), m);
                    }
                    buf.set(k, old.add(term));
                    j = j + 1;
                }
                proof {
                    assert forall|k: int| 0 <= k < total implies (#[trigger] buf@[k]).value()
                        == convolution(self, other, k, i + 1) % m by {
                        if !(i <= k < i + n2) {
                            assert(other.coeff(k - i) == 0);
                            assert(a.value() * other.coeff(k - i) == 0);
                        }
                    }
                }
            } else {
                proof {
                    assert forall|k: int| 0 <= k < total implies (#[trigger] buf@[k]).value()
                        == convolution(self, other, k, i + 1) % m by {
                        assert(self.coeff(i as int) == 0);
                        assert(self.coeff(i as int) * other.coeff(k - i) == 0);
                    }
                }
            }
            i = i + 1;
        }
        let r = Polynomial { coefficients: buf };
        proof {
            assert(r.over(f));
            assert forall|g: Field| #[trigger] self.over(g) && other.over(g) implies is_product(
                r,
                self,
                other,
                g,
            ) by {
                assert(g == f);
                assert forall|k: int| #[trigger] r.coeff(k) == convolution(self, other, k, n1 as int) % m by {
                    if !(0 <= k < total) {
                        lemma_convolution_vanishes(self, other, k, n1 as int);
                    }
                }
            }
        }
        r
    }
}

impl PartialEq for Polynomial {
    /// Equal degrees and, below that, equal coefficients; every representation
    /// of the zero polynomial is equal to every other.
    fn eq(&self, other: &Polynomial) -> (r: bool)
        ensures
            r == self.equals(*other),
    {
        let d = self.degree();
        if d != other.degree() {
            proof {
                lemma_equal_degrees(*self, *other);
            }
            return false;
        }
        if d == -1 {
            return true;
        }
        proof {
            lemma_degree(*self, self.len());
            lemma_degree(*other, other.len());
            assert(0 <= d < self.coefficients.len());
        }
        let top = d as usize;
        let mut i: usize = 0;
        while i <= top
            invariant
                top == d,
                top < self.coefficients.len(),
                d == self.spec_degree(),
                d == other.spec_degree(),
                0 <= d < self.len(),
                d < other.len(),
                i <= d + 1,
                forall|j: int| 0 <= j < i ==> #[trigger] self.coeff(j) == other.coeff(j),
            decreases d + 1 - i,
        {
            if self.coefficients[i] != other.coefficients[i] {
                proof {
                    assert(self.coeff(i as int) != other.coeff(i as int));
                }
                return false;
            }
            i = i + 1;
        }
        proof {
            lemma_degree(*self, self.len());
            lemma_degree(*other, other.len());
            assert forall|j: int| #[trigger] self.coeff(j) == other.coeff(j) by {
                if j > d {
                } else if j < 0 {
                } else {
                    assert(0 <= j < i);
                }
            }
        }
        true
    }
}

impl vstd::std_specs::cmp::PartialEqSpecImpl for Polynomial {
    open spec fn obeys_eq_spec() -> bool {
        true
    }

    open spec fn eq_spec(&self, other: &Polynomial) -> bool {
        self.equals(*other)
    }
}

/// Polynomials equal coefficient by coefficient have equal degrees.
proof fn lemma_equal_degrees(a: Polynomial, b: Polynomial)
    ensures
        a.equals(b) ==> a.spec_degree() == b.spec_degree(),
{
    lemma_degree(a, a.len());
    lemma_degree(b, b.len());
    if a.equals(b) {
        let (da, db) = (a.spec_degree(), b.spec_degree());
        if da < db {
            assert(b.coeff(db) != 0);
            assert(a.coeff(db) == 0);
        } else if db < da {
            assert(a.coeff(da) != 0);
            assert(b.coeff(da) == 0);
        }
    }
}

/// The convolution with a sum, taken modulo `m`, is the sum of the two
/// convolutions.
proof fn lemma_convolution_distributes(
    a: Polynomial,
    b: Polynomial,
    c: Polynomial,
    s: Polynomial,
    m: int,
    k: int,
    n: int,
)
    requires
        m > 0,
        n >= 0,
        forall|i: int| #[trigger] s.coeff(i) == (b.coeff(i) + c.coeff(i)) % m,
    ensures
        convolution(a, s, k, n) % m == (convolution(a, b, k, n) + convolution(a, c, k, n)) % m,
    decreases n,
{
    if n > 0 {
        lemma_convolution_distributes(a, b, c, s, m, k, n - 1);
        let x = convolution(a, s, k, n - 1);
        let y = convolution(a, b, k, n - 1);
        let z = convolution(a, c, k, n - 1);
        let ai = a.coeff(n - 1);
        let j = k - (n - 1);
        let (bj, cj) = (b.coeff(j), c.coeff(j));
        assert(s.coeff(j) == (bj + cj) % m);
        lemma_add_mod_noop(x, ai * s.coeff(j), m);
        lemma_mul_mod_noop_right(ai, bj + cj, m);
        lemma_add_mod_noop(y + z, ai * (bj + cj), m);
        assert(ai * (bj + cj) == ai * bj + ai * cj) by (nonlinear_arith);
        assert(y + z + ai * (bj + cj) == (y + ai * bj) + (z + ai * cj));
    }
}

/// Distributivity of the polynomial product over the sum: for polynomials
/// `a`, `b`, `c` over `f`, `a * (b + c)` equals `a * b + a * c`. Here `s` is
/// the sum `b + c`, `l` the product `a * s`, `ab` and `ac` the products
/// `a * b` and `a * c`, and `r` their sum.
pub proof fn lemma_distributive(
    f: Field,
    a: Polynomial,
    b: Polynomial,
    c: Polynomial,
    s: Polynomial,
    l: Polynomial,
    ab: Polynomial,
    ac: Polynomial,
    r: Polynomial,
)
    requires
        a.over(f),
        b.over(f),
        c.over(f),
        is_sum(s, b, c, f),
        is_product(l, a, s, f),
        is_product(ab, a, b, f),
        is_product(ac, a, c, f),
        is_sum(r, ab, ac, f),
    ensures
        l.equals(r),
{
    let m = f.modulus();
    assert forall|k: int| #[trigger] l.coeff(k) == r.coeff(k) by {
        lemma_convolution_distributes(a, b, c, s, m, k, a.len());
        let y = convolution(a, b, k, a.len());
        let z = convolution(a, c, k, a.len());
        assert(ab.coeff(k) == y % m);
        assert(ac.coeff(k) == z % m);
        lemma_add_mod_noop(y, z, m);
    }
}

/// Equality of polynomials is reflexive, symmetric and transitive.
pub proof fn lemma_equality_is_equivalence(a: Polynomial, b: Polynomial, c: Polynomial)
    ensures
        a.equals(a),
        a.equals(b) ==> b.equals(a),
        a.equals(b) && b.equals(c) ==> a.equals(c),
{
    if a.equals(b) && b.equals(c) {
        assert forall|i: int| #[trigger] a.coeff(i) == c.coeff(i) by {
            assert(a.coeff(i) == b.coeff(i));
        }
    }
}

/// Every representation of the zero polynomial, the empty one and an all-zero
/// one of any length, equals every other.
pub proof fn lemma_zero_representations_equal(a: Polynomial, b: Polynomial)
    requires
        forall|i: int| 0 <= i < a.len() ==> #[trigger] a.coeffs()[i].value() == 0,
        forall|i: int| 0 <= i < b.len() ==> #[trigger] b.coeffs()[i].value() == 0,
    ensures
        a.is_zero_poly(),
        b.is_zero_poly(),
        a.equals(b),
        a.spec_degree() == -1,
        b.spec_degree() == -1,
{
    assert forall|i: int| #[trigger] a.coeff(i) == 0 by {
        if 0 <= i < a.len() {
            assert(a.coeffs()[i].value() == 0);
        }
    }
    assert forall|i: int| #[trigger] b.coeff(i) == 0 by {
        if 0 <= i < b.len() {
            assert(b.coeffs()[i].value() == 0);
        }
    }
    assert forall|i: int| #[trigger] a.coeff(i) == b.coeff(i) by {
        assert(a.coeff(i) == 0);
        assert(b.coeff(i) == 0);
    }
    lemma_degree(a, a.len());
    lemma_degree(b, b.len());
    if a.spec_degree() >= 0 {
        assert(a.coeff(a.spec_degree()) == 0);
    }
    if b.spec_degree() >= 0 {
        assert(b.coeff(b.spec_degree()) == 0);
    }
}

/// The convolution sum is zero when every term meets a missing coefficient
/// of `b`, as beyond the product's length or with `b` empty.
proof fn lemma_convolution_vanishes(a: Polynomial, b: Polynomial, k: int, n: int)
    requires
        0 <= n <= a.len(),
        k < 0 || k >= a.len() + b.len() - 1 || b.len() == 0 || a.len() == 0,
    ensures
        convolution(a, b, k, n) == 0,
    decreases n,
{
    if n > 0 {
        lemma_convolution_vanishes(a, b, k, n - 1);
        assert(b.coeff(k - (n - 1)) == 0);
        assert(a.coeff(n - 1) * b.coeff(k - (n - 1)) == 0);
    }
}

/// Every coefficient of a polynomial over `f` is a residue of `f`.
proof fn lemma_coeff_bound(p: Polynomial, f: Field)
    requires
        p.over(f),
    ensures
        forall|i: int| 0 <= #[trigger] p.coeff(i) < f.modulus(),
        1 < f.modulus(),
{
    assert forall|i: int| 0 <= #[trigger] p.coeff(i) < f.modulus() by {
        if 0 <= i < p.len() {
            assert(p.coeffs()[i].wf());
        }
    }
}

/// What `top_nonzero` finds among the first `n` coefficients.
proof fn lemma_degree(p: Polynomial, n: int)
    requires
        0 <= n <= p.len(),
    ensures
        -1 <= p.top_nonzero(n) < n,
        p.top_nonzero(n) == -1 ==> forall|j: int| 0 <= j < n ==> #[trigger] p.coeff(j) == 0,
        p.top_nonzero(n) >= 0 ==> p.coeff(p.top_nonzero(n)) != 0,
        forall|j: int| p.top_nonzero(n) < j < n ==> #[trigger] p.coeff(j) == 0,
    decreases n,
{
    if n > 0 {
        lemma_degree(p, n - 1);
    }
}

} // verus!
