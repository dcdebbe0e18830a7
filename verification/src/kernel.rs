//! The numerical kernel of the simulation engine.
//!
//! Every scalar is an exact rational number, so the solvers can state and
//! check exact equalities about the linear systems they build.  A ghost
//! fraction mirrors each scalar, and all contracts are phrased over those
//! fractions.

use vstd::prelude::*;

verus! {

/// One scalar of the engine: the rational `num / den` with `den >= 1`.
#[derive(Clone, Copy, Debug)]
pub struct Rat {
    pub num: i64,
    pub den: i64,
}

/// A fraction of unbounded integers: the mathematical value of a `Rat`.
pub ghost struct Frac {
    pub n: int,
    pub d: int,
}

/// The fraction that a scalar stands for.
pub open spec fn f_of(r: Rat) -> Frac {
    Frac { n: r.num as int, d: r.den as int }
}

/// A fraction is well formed when its denominator is positive.
pub open spec fn f_wf(a: Frac) -> bool {
    a.d >= 1
}

pub open spec fn f_zero() -> Frac {
    Frac { n: 0, d: 1 }
}

pub open spec fn f_one() -> Frac {
    Frac { n: 1, d: 1 }
}

/// Equality of fractions by cross multiplication.
pub open spec fn f_eq(a: Frac, b: Frac) -> bool {
    a.n * b.d == b.n * a.d
}

pub open spec fn f_add(a: Frac, b: Frac) -> Frac {
    Frac { n: a.n * b.d + b.n * a.d, d: a.d * b.d }
}

pub open spec fn f_sub(a: Frac, b: Frac) -> Frac {
    Frac { n: a.n * b.d - b.n * a.d, d: a.d * b.d }
}

pub open spec fn f_mul(a: Frac, b: Frac) -> Frac {
    Frac { n: a.n * b.n, d: a.d * b.d }
}

/// Pure ring identities over abstract factors, proved once and
/// instantiated with composite terms below.
proof fn lemma_mul4(p: int, q: int, r: int, s: int)
    by (nonlinear_arith)
    ensures
        (p * q) * (r * s) == (p * r) * (q * s),
        (p * q) * (r * s) == (p * s) * (q * r),
        (p * q) * (r * s) == (p * s) * (r * q),
{
}

pub proof fn lemma_mul3_pub(x: int, y: int, z: int)
    by (nonlinear_arith)
    ensures
        (x * y) * z == (x * z) * y,
        x * (y * z) == (x * y) * z,
{
}

pub proof fn lemma_distr_pub(x: int, y: int, z: int)
    by (nonlinear_arith)
    ensures
        (x + y) * z == x * z + y * z,
        (x - y) * z == x * z - y * z,
{
}

proof fn lemma_cancel(x: int, y: int, s: int)
    by (nonlinear_arith)
    requires
        x * s == y * s,
        s >= 1,
    ensures
        x == y,
{
}

pub proof fn lemma_f_eq_trans(a: Frac, b: Frac, c: Frac)
    requires
        f_wf(a),
        f_wf(b),
        f_wf(c),
        f_eq(a, b),
        f_eq(b, c),
    ensures
        f_eq(a, c),
{
    lemma_mul3_pub(a.n, c.d, b.d);
    lemma_mul3_pub(a.n, b.d, c.d);
    lemma_mul3_pub(b.n, a.d, c.d);
    lemma_mul3_pub(b.n, c.d, a.d);
    lemma_mul3_pub(c.n, b.d, a.d);
    lemma_mul3_pub(c.n, a.d, b.d);
    assert((a.n * c.d) * b.d == (a.n * b.d) * c.d);
    assert((a.n * b.d) * c.d == (b.n * a.d) * c.d);
    assert((b.n * a.d) * c.d == (b.n * c.d) * a.d);
    assert((b.n * c.d) * a.d == (c.n * b.d) * a.d);
    assert((c.n * b.d) * a.d == (c.n * a.d) * b.d);
    lemma_cancel(a.n * c.d, c.n * a.d, b.d);
}

pub proof fn lemma_f_add_cong(a: Frac, a2: Frac, b: Frac, b2: Frac)
    requires
        f_wf(a),
        f_wf(a2),
        f_wf(b),
        f_wf(b2),
        f_eq(a, a2),
        f_eq(b, b2),
    ensures
        f_eq(f_add(a, b), f_add(a2, b2)),
        f_wf(f_add(a, b)),
{
    lemma_f_add_wf(a, b);
    lemma_distr_pub(a.n * b.d, b.n * a.d, a2.d * b2.d);
    lemma_distr_pub(a2.n * b2.d, b2.n * a2.d, a.d * b.d);
    lemma_mul4(a.n, b.d, a2.d, b2.d);
    assert((a.n * b.d) * (a2.d * b2.d) == (a.n * a2.d) * (b.d * b2.d));
    assert((a.n * a2.d) * (b.d * b2.d) == (a2.n * a.d) * (b.d * b2.d));
    lemma_mul4(a2.n, a.d, b.d, b2.d);
    assert((a2.n * a.d) * (b.d * b2.d) == (a2.n * b2.d) * (a.d * b.d));
    lemma_mul4(b.n, a.d, a2.d, b2.d);
    assert((b.n * a.d) * (a2.d * b2.d) == (b.n * b2.d) * (a.d * a2.d));
    assert((b.n * b2.d) * (a.d * a2.d) == (b2.n * b.d) * (a.d * a2.d));
    lemma_mul4(b2.n, b.d, a.d, a2.d);
    assert((b2.n * b.d) * (a.d * a2.d) == (b2.n * a2.d) * (a.d * b.d));
}

pub proof fn lemma_f_mul_cong(a: Frac, a2: Frac, b: Frac, b2: Frac)
    requires
        f_wf(a),
        f_wf(a2),
        f_wf(b),
        f_wf(b2),
        f_eq(a, a2),
        f_eq(b, b2),
    ensures
        f_eq(f_mul(a, b), f_mul(a2, b2)),
        f_wf(f_mul(a, b)),
{
    lemma_f_add_wf(a, b);
    lemma_mul4(a.n, b.n, a2.d, b2.d);
    assert((a.n * b.n) * (a2.d * b2.d) == (a.n * a2.d) * (b.n * b2.d));
    assert((a.n * a2.d) * (b.n * b2.d) == (a2.n * a.d) * (b2.n * b.d));
    lemma_mul4(a2.n, a.d, b2.n, b.d);
    assert((a2.n * a.d) * (b2.n * b.d) == (a2.n * b2.n) * (a.d * b.d));
}

pub proof fn lemma_f_add_zero(a: Frac, z: Frac)
    by (nonlinear_arith)
    requires
        f_wf(a),
        f_wf(z),
        f_eq(z, f_zero()),
    ensures
        f_eq(f_add(a, z), a),
        f_eq(f_add(z, a), a),
{
}

pub proof fn lemma_f_mul_one(a: Frac, o: Frac)
    by (nonlinear_arith)
    requires
        f_wf(a),
        f_wf(o),
        f_eq(o, f_one()),
    ensures
        f_eq(f_mul(o, a), a),
        f_eq(f_mul(a, o), a),
{
}

pub proof fn lemma_f_mul_zero(a: Frac, z: Frac)
    by (nonlinear_arith)
    requires
        f_wf(a),
        f_wf(z),
        f_eq(z, f_zero()),
    ensures
        f_eq(f_mul(z, a), f_zero()),
        f_eq(f_mul(a, z), f_zero()),
{
}

/// Bound on a product of two 64-bit factors, for the 128-bit intermediates.
proof fn lemma_mul_i64_bound(x: int, y: int)
    by (nonlinear_arith)
    requires
        -0x8000000000000000 <= x <= 0x7fffffffffffffff,
        -0x8000000000000000 <= y <= 0x7fffffffffffffff,
    ensures
        -0x40000000000000000000000000000000 <= x * y
            <= 0x40000000000000000000000000000000,
        x >= 1 && y >= 1 ==> x * y >= 1,
{
}

/// Tighter bound when the second factor is a denominator (at least one).
proof fn lemma_mul_num_den_bound(x: int, y: int)
    by (nonlinear_arith)
    requires
        -0x8000000000000000 <= x <= 0x7fffffffffffffff,
        1 <= y <= 0x7fffffffffffffff,
    ensures
        -0x3fffffffffffffff8000000000000000 <= x * y <= 0x3fffffffffffffff0000000000000001,
        x >= 1 ==> x * y >= 1,
{
}

pub proof fn lemma_f_add_wf(a: Frac, b: Frac)
    by (nonlinear_arith)
    requires
        f_wf(a),
        f_wf(b),
    ensures
        f_wf(f_add(a, b)),
        f_wf(f_sub(a, b)),
        f_wf(f_mul(a, b)),
{
}

impl Rat {
    /// A scalar is well formed when its denominator is positive.
    pub open spec fn wf(self) -> bool {
        self.den >= 1
    }

    pub fn zero() -> (r: Rat)
        ensures
            r.wf(),
            f_of(r) == f_zero(),
    {
        Rat { num: 0, den: 1 }
    }

    pub fn one() -> (r: Rat)
        ensures
            r.wf(),
            f_of(r) == f_one(),
    {
        Rat { num: 1, den: 1 }
    }

    /// The scalar for a whole number.
    pub fn whole(n: i64) -> (r: Rat)
        ensures
            r.wf(),
            f_of(r) == (Frac { n: n as int, d: 1 }),
    {
        Rat { num: n, den: 1 }
    }

    /// True exactly when the two scalars stand for the same fraction.
    pub fn eq(self, other: Rat) -> (r: bool)
        requires
            self.wf(),
            other.wf(),
        ensures
            r == f_eq(f_of(self), f_of(other)),
    {
        proof {
            lemma_mul_i64_bound(self.num as int, other.den as int);
            lemma_mul_i64_bound(other.num as int, self.den as int);
        }
        (self.num as i128) * (other.den as i128) == (other.num as i128) * (self.den as i128)
    }

    pub fn is_zero(self) -> (r: bool)
        requires
            self.wf(),
        ensures
            r == f_eq(f_of(self), f_zero()),
    {
        self.num == 0
    }
}

/// The greatest common divisor, for keeping fractions reduced.
fn gcd128(a: u128, b: u128) -> (g: u128)
    requires
        b >= 1,
    ensures
        1 <= g <= b,
        a as nat % g as nat == 0,
        b as nat % g as nat == 0,
    decreases b,
{
    let r = a % b;
    proof {
        vstd::arithmetic::div_mod::lemma_fundamental_div_mod(a as int, b as int);
    }
    if r == 0 {
        proof {
            assert(a as nat % b as nat == 0);
            assert(b as nat % b as nat == 0) by (nonlinear_arith)
                requires
                    b >= 1;
        }
        b
    } else {
        let g = gcd128(b, r);
        proof {
            let q = a as int / b as int;
            vstd::arithmetic::div_mod::lemma_fundamental_div_mod(b as int, g as int);
            vstd::arithmetic::div_mod::lemma_fundamental_div_mod(r as int, g as int);
            let k1 = b as int / g as int;
            let k2 = r as int / g as int;
            assert(a as int == g as int * (k1 * q + k2)) by (nonlinear_arith)
                requires
                    a as int == b as int * q + r as int,
                    b as int == g as int * k1,
                    r as int == g as int * k2;
            vstd::arithmetic::div_mod::lemma_mod_multiples_basic(k1 * q + k2, g as int);
        }
        g
    }
}

/// Packs an exact 128-bit fraction back into a scalar, reducing it by the
/// greatest common divisor, or reports that it does not fit.
#[verifier::rlimit(60)]
fn pack(n: i128, d: i128) -> (r: Option<Rat>)
    requires
        1 <= d,
        -0x7fffffffffffffffffffffffffffffffi128 <= n,
    ensures
        r matches Some(v) ==> v.wf() && f_eq(f_of(v), Frac { n: n as int, d: d as int }),
        r is None ==> !fits(n as int, d as int),
{
    if n == 0 {
        let v = Rat { num: 0, den: 1 };
        proof {
            assert((v.num as int) * (d as int) == (n as int) * (v.den as int))
                by (nonlinear_arith)
                requires
                    v.num == 0,
                    v.den == 1,
                    n as int == 0;
        }
        return Some(v);
    }
    let neg = n < 0;
    let an: u128 = if neg {
        (-n) as u128
    } else {
        n as u128
    };
    let g = gcd128(an, d as u128);
    let an2 = an / g;
    let d2 = (d as u128) / g;
    proof {
        vstd::arithmetic::div_mod::lemma_fundamental_div_mod(an as int, g as int);
        vstd::arithmetic::div_mod::lemma_fundamental_div_mod(d as int, g as int);
        assert(an as int == g as int * an2 as int);
        assert(d as int == g as int * d2 as int);
        assert(d2 >= 1 && an2 >= 1 && an2 <= an && d2 <= d) by (nonlinear_arith)
            requires
                an as int == g as int * an2 as int,
                d as int == g as int * d2 as int,
                g >= 1,
                d >= 1,
                an >= 1;
    }
    let fits_num = if neg {
        an2 <= 0x8000000000000000u128
    } else {
        an2 <= 0x7fffffffffffffffu128
    };
    if fits_num && d2 <= 0x7fffffffffffffffu128 {
        let num: i64 = if neg {
            if an2 == 0x8000000000000000u128 {
                -0x7fffffffffffffffi64 - 1
            } else {
                -(an2 as i64)
            }
        } else {
            an2 as i64
        };
        let v = Rat { num, den: d2 as i64 };
        proof {
            assert((v.num as int) * (d as int) == (n as int) * (v.den as int))
                by (nonlinear_arith)
                requires
                    an as int == g as int * an2 as int,
                    d as int == g as int * d2 as int,
                    (neg && n as int == -(an as int) && v.num as int == -(an2 as int)) || (
                    !neg && n as int == an as int && v.num as int == an2 as int),
                    v.den as int == d2 as int,
                    g >= 1;
        }
        Some(v)
    } else {
        proof {
            assert(!fits(n as int, d as int)) by (nonlinear_arith)
                requires
                    an as int == g as int * an2 as int,
                    d as int == g as int * d2 as int,
                    g >= 1,
                    an2 >= 1,
                    d2 >= 1,
                    (neg && an2 > 0x8000000000000000) || (!neg && an2 > 0x7fffffffffffffff)
                        || d2 > 0x7fffffffffffffff,
                    (neg && n as int == -(an as int)) || (!neg && n as int == an as int),
                    n as int != 0;
        }
        None
    }
}

/// An exact fraction fits into a scalar when its parts are in 64-bit range,
/// or its numerator is zero.
pub open spec fn fits(n: int, d: int) -> bool {
    n == 0 || (-0x8000000000000000 <= n <= 0x7fffffffffffffff && d <= 0x7fffffffffffffff)
}

/// Exact sum; `None` exactly when the exact result does not fit.
pub fn rat_add(a: Rat, b: Rat) -> (r: Option<Rat>)
    requires
        a.wf(),
        b.wf(),
    ensures
        r matches Some(v) ==> v.wf() && f_eq(f_of(v), f_add(f_of(a), f_of(b))),
        r is None ==> !fits(f_add(f_of(a), f_of(b)).n, f_add(f_of(a), f_of(b)).d),
{
    proof {
        lemma_mul_num_den_bound(a.num as int, b.den as int);
        lemma_mul_num_den_bound(b.num as int, a.den as int);
        lemma_mul_num_den_bound(a.den as int, b.den as int);
    }
    let n: i128 = (a.num as i128) * (b.den as i128) + (b.num as i128) * (a.den as i128);
    let d: i128 = (a.den as i128) * (b.den as i128);
    pack(n, d)
}

/// Exact difference; `None` exactly when the exact result does not fit.
pub fn rat_sub(a: Rat, b: Rat) -> (r: Option<Rat>)
    requires
        a.wf(),
        b.wf(),
    ensures
        r matches Some(v) ==> v.wf() && f_eq(f_of(v), f_sub(f_of(a), f_of(b))),
        r is None ==> !fits(f_sub(f_of(a), f_of(b)).n, f_sub(f_of(a), f_of(b)).d),
{
    proof {
        lemma_mul_num_den_bound(a.num as int, b.den as int);
        lemma_mul_num_den_bound(b.num as int, a.den as int);
        lemma_mul_num_den_bound(a.den as int, b.den as int);
    }
    let n: i128 = (a.num as i128) * (b.den as i128) - (b.num as i128) * (a.den as i128);
    let d: i128 = (a.den as i128) * (b.den as i128);
    pack(n, d)
}

/// Exact product; `None` exactly when the exact result does not fit.
pub fn rat_mul(a: Rat, b: Rat) -> (r: Option<Rat>)
    requires
        a.wf(),
        b.wf(),
    ensures
        r matches Some(v) ==> v.wf() && f_eq(f_of(v), f_mul(f_of(a), f_of(b))),
        r is None ==> !fits(f_mul(f_of(a), f_of(b)).n, f_mul(f_of(a), f_of(b)).d),
{
    proof {
        lemma_mul_i64_bound(a.num as int, b.num as int);
        lemma_mul_i64_bound(a.den as int, b.den as int);
    }
    let n: i128 = (a.num as i128) * (b.num as i128);
    let d: i128 = (a.den as i128) * (b.den as i128);
    pack(n, d)
}

/// The exact quotient as a fraction with a positive denominator.
pub open spec fn div_frac(a: Rat, b: Rat) -> Frac {
    if a.den * b.num < 0 {
        Frac { n: -(a.num * b.den), d: -(a.den * b.num) }
    } else {
        Frac { n: a.num * b.den, d: a.den * b.num }
    }
}

/// Exact quotient: a result `v` with `v * b == a`.  `None` exactly when
/// `b` is zero or the exact result does not fit.
pub fn rat_div(a: Rat, b: Rat) -> (r: Option<Rat>)
    requires
        a.wf(),
        b.wf(),
    ensures
        r matches Some(v) ==> v.wf() && f_eq(f_mul(f_of(v), f_of(b)), f_of(a)),
        b.num == 0 ==> r is None,
        r is None ==> b.num == 0 || !fits(div_frac(a, b).n, div_frac(a, b).d),
{
    if b.num == 0 {
        return None;
    }
    proof {
        lemma_mul_num_den_bound(a.num as int, b.den as int);
        lemma_mul_i64_bound(a.den as int, b.num as int);
    }
    let n0: i128 = (a.num as i128) * (b.den as i128);
    let d0: i128 = (a.den as i128) * (b.num as i128);
    proof {
        assert(d0 != 0) by (nonlinear_arith)
            requires
                d0 == (a.den as int) * (b.num as int),
                a.den >= 1,
                b.num != 0;
    }
    let (n, d) = if d0 < 0 {
        (-n0, -d0)
    } else {
        (n0, d0)
    };
    let r = pack(n, d);
    proof {
        if r is Some {
            let v = r->0;
            assert(f_eq(f_mul(f_of(v), f_of(b)), f_of(a))) by (nonlinear_arith)
                requires
                    (v.num as int) * (d as int) == (n as int) * (v.den as int),
                    (d0 < 0 && n == -n0 && d == -d0) || (d0 >= 0 && n == n0 && d == d0),
                    n0 == (a.num as int) * (b.den as int),
                    d0 == (a.den as int) * (b.num as int),
                    a.den >= 1,
                    b.den >= 1,
                    b.num != 0,
                    v.den >= 1;
        }
    }
    r
}

// --- Vectors and matrices ---

pub type Vector = Vec<Rat>;

pub type Matrix = Vec<Vec<Rat>>;

/// Every entry of the sequence is a well-formed scalar.
pub open spec fn vec_wf(v: Seq<Rat>) -> bool {
    forall|i: int| 0 <= i < v.len() ==> (#[trigger] v[i]).wf()
}

/// A rectangular, well-formed matrix.
pub open spec fn mat_wf(m: Seq<Vec<Rat>>, rows: int, cols: int) -> bool {
    &&& m.len() == rows
    &&& forall|i: int| 0 <= i < rows ==> (#[trigger] m[i])@.len() == cols && vec_wf(m[i]@)
}

/// Partial inner product over the first `k` columns, as a fraction.
pub open spec fn dot_partial(row: Seq<Rat>, u: Seq<Rat>, k: int) -> Frac
    decreases k,
{
    if k <= 0 {
        f_zero()
    } else {
        f_add(dot_partial(row, u, k - 1), f_mul(f_of(row[k - 1]), f_of(u[k - 1])))
    }
}

/// Inner product of a row with a vector, as a fraction.
pub open spec fn dot(row: Seq<Rat>, u: Seq<Rat>) -> Frac {
    dot_partial(row, u, row.len() as int)
}

pub proof fn lemma_dot_partial_wf(row: Seq<Rat>, u: Seq<Rat>, k: int)
    requires
        vec_wf(row),
        vec_wf(u),
        k <= row.len(),
        k <= u.len(),
    ensures
        f_wf(dot_partial(row, u, k)),
    decreases k,
{
    if k > 0 {
        lemma_dot_partial_wf(row, u, k - 1);
        assert(f_wf(dot_partial(row, u, k))) by (nonlinear_arith)
            requires
                f_wf(dot_partial(row, u, k - 1)),
                dot_partial(row, u, k) == f_add(
                    dot_partial(row, u, k - 1),
                    f_mul(f_of(row[k - 1]), f_of(u[k - 1])),
                ),
                row[k - 1].wf(),
                u[k - 1].wf();
    }
}

/// The vector `u` solves the system `m * u = b`.
pub open spec fn system_holds(m: Seq<Vec<Rat>>, u: Seq<Rat>, b: Seq<Rat>) -> bool {
    &&& m.len() == b.len()
    &&& forall|i: int| 0 <= i < m.len() ==> f_eq(#[trigger] dot(m[i]@, u), f_of(b[i]))
}

/// Sum of two vectors, entry by entry.  `None` exactly when the lengths
/// differ or some exact entry does not fit into a scalar.
pub fn add_vectors(a: &Vector, b: &Vector) -> (r: Option<Vector>)
    requires
        vec_wf(a@),
        vec_wf(b@),
    ensures
        r matches Some(v) ==> {
            &&& a@.len() == b@.len()
            &&& v@.len() == a@.len()
            &&& vec_wf(v@)
            &&& forall|i: int|
                0 <= i < v@.len() ==> f_eq(
                    f_of(#[trigger] v@[i]),
                    f_add(f_of(a@[i]), f_of(b@[i])),
                )
        },
        r is None ==> a@.len() != b@.len() || exists|i: int|
            0 <= i < a@.len() && !fits(
                f_add(f_of(#[trigger] a@[i]), f_of(b@[i])).n,
                f_add(f_of(a@[i]), f_of(b@[i])).d,
            ),
        a@.len() != b@.len() ==> r is None,
        (a@.len() == b@.len() && forall|i: int|
            0 <= i < a@.len() ==> fits(
                f_add(f_of(#[trigger] a@[i]), f_of(b@[i])).n,
                f_add(f_of(a@[i]), f_of(b@[i])).d,
            )) ==> r is Some,
{
    if a.len() != b.len() {
        return None;
    }
    let mut out: Vector = Vec::new();
    let n = a.len();
    for i in 0..n
        invariant
            n == a@.len() == b@.len(),
            out@.len() == i,
            vec_wf(a@),
            vec_wf(b@),
            vec_wf(out@),
            forall|j: int|
                0 <= j < i ==> f_eq(
                    f_of(#[trigger] out@[j]),
                    f_add(f_of(a@[j]), f_of(b@[j])),
                ),
    {
        match rat_add(a[i], b[i]) {
            Some(v) => out.push(v),
            None => {
                return None;
            },
        }
    }
    Some(out)
}

/// Inner product of one matrix row with `u`, by exact arithmetic.
/// `None` when an exact intermediate does not fit into a scalar.
fn dot_exec(row: &Vec<Rat>, u: &Vector) -> (r: Option<Rat>)
    requires
        vec_wf(row@),
        vec_wf(u@),
        row@.len() == u@.len(),
    ensures
        r matches Some(v) ==> v.wf() && f_eq(f_of(v), dot(row@, u@)),
{
    let mut acc = Rat::zero();
    let n = row.len();
    for k in 0..n
        invariant
            n == row@.len() == u@.len(),
            vec_wf(row@),
            vec_wf(u@),
            acc.wf(),
            f_eq(f_of(acc), dot_partial(row@, u@, k as int)),
    {
        let p = match rat_mul(row[k], u[k]) {
            Some(p) => p,
            None => {
                return None;
            },
        };
        let next = match rat_add(acc, p) {
            Some(s) => s,
            None => {
                return None;
            },
        };
        proof {
            lemma_dot_partial_wf(row@, u@, k as int);
            lemma_dot_partial_wf(row@, u@, k as int + 1);
            lemma_f_add_wf(f_of(row@[k as int]), f_of(u@[k as int]));
            lemma_f_add_cong(
                f_of(acc),
                dot_partial(row@, u@, k as int),
                f_of(p),
                f_mul(f_of(row@[k as int]), f_of(u@[k as int])),
            );
            lemma_f_eq_trans(
                f_of(next),
                f_add(f_of(acc), f_of(p)),
                dot_partial(row@, u@, k as int + 1),
            );
        }
        acc = next;
    }
    Some(acc)
}

/// Checks by exact arithmetic that `u` solves `m * u = b`.  A `true` answer
/// is a proof; `false` may also mean an intermediate did not fit.
pub fn check_solution(m: &Matrix, u: &Vector, b: &Vector) -> (r: bool)
    requires
        mat_wf(m@, m@.len() as int, u@.len() as int),
        vec_wf(u@),
        vec_wf(b@),
        m@.len() == b@.len(),
    ensures
        r ==> system_holds(m@, u@, b@),
{
    let rows = m.len();
    for i in 0..rows
        invariant
            rows == m@.len() == b@.len(),
            mat_wf(m@, m@.len() as int, u@.len() as int),
            vec_wf(u@),
            vec_wf(b@),
            forall|j: int|
                0 <= j < i ==> f_eq(#[trigger] dot(m@[j]@, u@), f_of(b@[j])),
    {
        let d = match dot_exec(&m[i], u) {
            Some(d) => d,
            None => {
                return false;
            },
        };
        if !d.eq(b[i]) {
            return false;
        }
        proof {
            lemma_dot_partial_wf(m@[i as int]@, u@, u@.len() as int);
            lemma_f_eq_trans(
                dot(m@[i as int]@, u@),
                f_of(d),
                f_of(b@[i as int]),
            );
        }
    }
    true
}


/// A fresh copy of a row.
fn copy_row(src: &Vec<Rat>) -> (r: Vec<Rat>)
    ensures
        r@ == src@,
{
    let mut out: Vec<Rat> = Vec::new();
    let n = src.len();
    for i in 0..n
        invariant
            n == src@.len(),
            out@ == src@.take(i as int),
    {
        out.push(src[i]);
        proof {
            assert(out@ =~= src@.take(i as int + 1));
        }
    }
    proof {
        assert(src@.take(n as int) =~= src@);
    }
    out
}

/// First row at or below `col` whose entry in column `col` is nonzero.
fn find_pivot(a: &Matrix, col: usize) -> (r: Option<usize>)
    requires
        mat_wf(a@, a@.len() as int, a@.len() as int),
        col < a@.len(),
    ensures
        r matches Some(p) ==> col <= p < a@.len(),
{
    let n = a.len();
    let mut row = col;
    while row < n
        invariant
            col <= row <= n,
            n == a@.len(),
            mat_wf(a@, a@.len() as int, a@.len() as int),
        decreases n - row,
    {
        if !a[row][col].is_zero() {
            return Some(row);
        }
        row = row + 1;
    }
    None
}

/// The row `rowr - factor * rowp`, by exact arithmetic.
fn eliminate_row(rowr: &Vec<Rat>, rowp: &Vec<Rat>, factor: Rat) -> (r: Option<Vec<Rat>>)
    requires
        vec_wf(rowr@),
        vec_wf(rowp@),
        rowr@.len() == rowp@.len(),
        factor.wf(),
    ensures
        r matches Some(v) ==> v@.len() == rowr@.len() && vec_wf(v@),
{
    let mut out: Vec<Rat> = Vec::new();
    let n = rowr.len();
    for c in 0..n
        invariant
            n == rowr@.len() == rowp@.len(),
            vec_wf(rowr@),
            vec_wf(rowp@),
            factor.wf(),
            out@.len() == c,
            vec_wf(out@),
    {
        let p = match rat_mul(factor, rowp[c]) {
            Some(p) => p,
            None => {
                return None;
            },
        };
        let v = match rat_sub(rowr[c], p) {
            Some(v) => v,
            None => {
                return None;
            },
        };
        out.push(v);
    }
    Some(out)
}

/// Direct dense solve of `m * u = b` by exact Gauss-Jordan elimination.
///
/// The candidate from the elimination is checked back against the system
/// entry by entry, so a `Some` answer provably solves the system.  `None`
/// means the matrix is singular or an exact intermediate did not fit into
/// a scalar.
pub fn solve_dense(m: &Matrix, b: &Vector) -> (r: Option<Vector>)
    requires
        mat_wf(m@, m@.len() as int, m@.len() as int),
        vec_wf(b@),
        m@.len() == b@.len(),
    ensures
        r matches Some(u) ==> {
            &&& u@.len() == b@.len()
            &&& vec_wf(u@)
            &&& system_holds(m@, u@, b@)
        },
{
    let n = m.len();
    let mut a: Matrix = Vec::new();
    for i in 0..n
        invariant
            n == m@.len(),
            mat_wf(m@, n as int, n as int),
            mat_wf(a@, i as int, n as int),
    {
        let row = copy_row(&m[i]);
        a.push(row);
    }
    let mut y: Vector = copy_row(b);
    for col in 0..n
        invariant
            n == m@.len() == b@.len(),
            mat_wf(m@, n as int, n as int),
            vec_wf(b@),
            mat_wf(a@, n as int, n as int),
            y@.len() == n,
            vec_wf(y@),
    {
        let piv = match find_pivot(&a, col) {
            Some(p) => p,
            None => {
                return None;
            },
        };
        if piv != col {
            let rp = copy_row(&a[piv]);
            let rc = copy_row(&a[col]);
            a.set(piv, rc);
            a.set(col, rp);
            let yp = y[piv];
            let yc = y[col];
            y.set(piv, yc);
            y.set(col, yp);
        }
        let pivot = a[col][col];
        let mut r: usize = 0;
        while r < n
            invariant
                n == a@.len(),
                col < n,
                r <= n,
                pivot.wf(),
                mat_wf(a@, n as int, n as int),
                y@.len() == n,
                vec_wf(y@),
            decreases n - r,
        {
            if r != col {
                let factor = match rat_div(a[r][col], pivot) {
                    Some(f) => f,
                    None => {
                        return None;
                    },
                };
                let newrow = match eliminate_row(&a[r], &a[col], factor) {
                    Some(v) => v,
                    None => {
                        return None;
                    },
                };
                a.set(r, newrow);
                let p = match rat_mul(factor, y[col]) {
                    Some(p) => p,
                    None => {
                        return None;
                    },
                };
                let v = match rat_sub(y[r], p) {
                    Some(v) => v,
                    None => {
                        return None;
                    },
                };
                y.set(r, v);
            }
            r = r + 1;
        }
    }
    let mut u: Vector = Vec::new();
    for i in 0..n
        invariant
            n == m@.len() == b@.len(),
            mat_wf(m@, n as int, n as int),
            vec_wf(b@),
            mat_wf(a@, n as int, n as int),
            y@.len() == n,
            vec_wf(y@),
            u@.len() == i,
            vec_wf(u@),
    {
        let v = match rat_div(y[i], a[i][i]) {
            Some(v) => v,
            None => {
                return None;
            },
        };
        u.push(v);
    }
    if check_solution(m, &u, b) {
        Some(u)
    } else {
        None
    }
}

// --- Facts about inner products with sparse rows ---

/// If every entry of `row` in columns `[0, k)` other than column `j` is zero,
/// and column `j` (when below `k`) holds `c`, the partial inner product up to
/// `k` is `c * u[j]` (or zero while `k <= j`).
pub proof fn lemma_dot_partial_single(row: Seq<Rat>, u: Seq<Rat>, j: int, c: Rat, k: int)
    requires
        vec_wf(row),
        vec_wf(u),
        row.len() == u.len(),
        k <= row.len(),
        0 <= j < row.len(),
        c.wf(),
        f_eq(f_of(row[j]), f_of(c)),
        forall|i: int| 0 <= i < row.len() && i != j ==> f_eq(f_of(#[trigger] row[i]), f_zero()),
    ensures
        j < k ==> f_eq(dot_partial(row, u, k), f_mul(f_of(c), f_of(u[j]))),
        k <= j ==> f_eq(dot_partial(row, u, k), f_zero()),
    decreases k,
{
    if k <= 0 {
    } else {
        lemma_dot_partial_single(row, u, j, c, k - 1);
        lemma_dot_partial_wf(row, u, k - 1);
        lemma_dot_partial_wf(row, u, k);
        let prev = dot_partial(row, u, k - 1);
        let term = f_mul(f_of(row[k - 1]), f_of(u[k - 1]));
        lemma_f_add_wf(f_of(row[k - 1]), f_of(u[k - 1]));
        if k - 1 == j {
            // prev is zero, the new term is c * u[j]
            lemma_f_mul_cong(f_of(row[j]), f_of(c), f_of(u[j]), f_of(u[j]));
            lemma_f_add_wf(f_of(c), f_of(u[j]));
            lemma_f_add_zero(term, prev);
            lemma_f_eq_trans(dot_partial(row, u, k), term, f_mul(f_of(c), f_of(u[j])));
        } else {
            // the new term is zero
            lemma_f_mul_zero(f_of(u[k - 1]), f_of(row[k - 1]));
            lemma_f_add_zero(prev, term);
            if j < k - 1 {
                lemma_f_add_wf(f_of(c), f_of(u[j]));
                lemma_f_eq_trans(dot_partial(row, u, k), prev, f_mul(f_of(c), f_of(u[j])));
            } else {
                lemma_f_eq_trans(dot_partial(row, u, k), prev, f_zero());
            }
        }
    }
}


/// If the row holds one at `j-1` and `j+1`, minus two at `j`, and zero
/// elsewhere, the inner product is the three-point stencil combination.
pub proof fn lemma_dot_stencil(row: Seq<Rat>, u: Seq<Rat>, j: int, k: int)
    requires
        vec_wf(row),
        vec_wf(u),
        row.len() == u.len(),
        1 <= j < row.len() - 1,
        0 <= k <= row.len(),
        f_eq(f_of(row[j - 1]), f_one()),
        f_eq(f_of(row[j + 1]), f_one()),
        f_eq(f_of(row[j]), Frac { n: -2, d: 1 }),
        forall|c: int|
            0 <= c < row.len() && c != j - 1 && c != j && c != j + 1 ==> f_eq(
                f_of(#[trigger] row[c]),
                f_zero(),
            ),
    ensures
        k <= j - 1 ==> f_eq(dot_partial(row, u, k), f_zero()),
        k == j ==> f_eq(dot_partial(row, u, k), f_of(u[j - 1])),
        k == j + 1 ==> f_eq(
            dot_partial(row, u, k),
            f_add(f_of(u[j - 1]), f_mul(Frac { n: -2, d: 1 }, f_of(u[j]))),
        ),
        k >= j + 2 ==> f_eq(
            dot_partial(row, u, k),
            f_add(
                f_add(f_of(u[j - 1]), f_mul(Frac { n: -2, d: 1 }, f_of(u[j]))),
                f_of(u[j + 1]),
            ),
        ),
    decreases k,
{
    if k <= 0 {
    } else {
        lemma_dot_stencil(row, u, j, k - 1);
        lemma_dot_partial_wf(row, u, k - 1);
        lemma_dot_partial_wf(row, u, k);
        let prev = dot_partial(row, u, k - 1);
        let term = f_mul(f_of(row[k - 1]), f_of(u[k - 1]));
        lemma_f_add_wf(f_of(row[k - 1]), f_of(u[k - 1]));
        lemma_f_add_wf(prev, term);
        let m2 = Frac { n: -2, d: 1 };
        let s1 = f_of(u[j - 1]);
        let s2 = f_add(s1, f_mul(m2, f_of(u[j])));
        let s3 = f_add(s2, f_of(u[j + 1]));
        assert(f_wf(s1));
        assert(f_wf(f_mul(m2, f_of(u[j])))) by {
            lemma_f_add_wf(m2, f_of(u[j]));
        }
        assert(f_wf(s2)) by {
            lemma_f_add_wf(s1, f_mul(m2, f_of(u[j])));
        }
        assert(f_wf(s3)) by {
            lemma_f_add_wf(s2, f_of(u[j + 1]));
        }
        if k - 1 == j - 1 {
            // prev is zero and the new term is one times u[j-1]
            lemma_f_mul_one(f_of(u[k - 1]), f_of(row[k - 1]));
            lemma_f_add_zero(term, prev);
            lemma_f_eq_trans(dot_partial(row, u, k), term, s1);
        } else if k - 1 == j {
            // the new term is minus two times u[j]
            lemma_f_mul_cong(f_of(row[j]), m2_rat_frac(), f_of(u[j]), f_of(u[j]));
            lemma_f_add_cong(prev, s1, term, f_mul(m2, f_of(u[j])));
            lemma_f_eq_trans(dot_partial(row, u, k), f_add(prev, term), s2);
        } else if k - 1 == j + 1 {
            // the new term is one times u[j+1]
            lemma_f_mul_one(f_of(u[k - 1]), f_of(row[k - 1]));
            lemma_f_add_cong(prev, s2, term, f_of(u[j + 1]));
            lemma_f_eq_trans(dot_partial(row, u, k), f_add(prev, term), s3);
        } else {
            // the new term is zero
            lemma_f_mul_zero(f_of(u[k - 1]), f_of(row[k - 1]));
            lemma_f_add_zero(prev, term);
            if k - 1 < j - 1 {
                lemma_f_eq_trans(dot_partial(row, u, k), prev, f_zero());
            } else {
                lemma_f_eq_trans(dot_partial(row, u, k), prev, s3);
            }
        }
    }
}

/// The fraction minus two over one, as used by the stencil lemma.
pub open spec fn m2_rat_frac() -> Frac {
    Frac { n: -2, d: 1 }
}



/// Partial inner product of a row of fractions with a vector of scalars.
pub open spec fn fdot_partial(row: Seq<Frac>, u: Seq<Rat>, k: int) -> Frac
    decreases k,
{
    if k <= 0 {
        f_zero()
    } else {
        f_add(fdot_partial(row, u, k - 1), f_mul(row[k - 1], f_of(u[k - 1])))
    }
}

/// Inner product of a row of fractions with a vector of scalars.
pub open spec fn fdot(row: Seq<Frac>, u: Seq<Rat>) -> Frac {
    fdot_partial(row, u, row.len() as int)
}

/// A row of scalars that matches a row of fractions entry by entry has
/// the same inner product, up to fraction equality.
pub proof fn lemma_dot_matches_fdot(row: Seq<Rat>, frow: Seq<Frac>, u: Seq<Rat>, k: int)
    requires
        vec_wf(row),
        vec_wf(u),
        row.len() == u.len(),
        frow.len() == row.len(),
        k <= row.len(),
        forall|c: int| 0 <= c < frow.len() ==> f_wf(#[trigger] frow[c]),
        forall|c: int| 0 <= c < row.len() ==> f_eq(f_of(#[trigger] row[c]), frow[c]),
    ensures
        f_eq(dot_partial(row, u, k), fdot_partial(frow, u, k)),
        f_wf(fdot_partial(frow, u, k)),
    decreases k,
{
    if k <= 0 {
    } else {
        lemma_dot_matches_fdot(row, frow, u, k - 1);
        lemma_dot_partial_wf(row, u, k);
        lemma_dot_partial_wf(row, u, k - 1);
        lemma_f_mul_cong(f_of(row[k - 1]), frow[k - 1], f_of(u[k - 1]), f_of(u[k - 1]));
        lemma_f_add_wf(frow[k - 1], f_of(u[k - 1]));
        lemma_f_add_cong(
            dot_partial(row, u, k - 1),
            fdot_partial(frow, u, k - 1),
            f_mul(f_of(row[k - 1]), f_of(u[k - 1])),
            f_mul(frow[k - 1], f_of(u[k - 1])),
        );
        lemma_f_add_wf(fdot_partial(frow, u, k - 1), f_mul(frow[k - 1], f_of(u[k - 1])));
    }
}


} // verus!
