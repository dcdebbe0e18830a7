//! A finite difference solver for one-dimensional steady-state heat
//! conduction: a three-point stencil on the interior, fixed temperatures
//! at the two boundary nodes, and a direct dense solve.

use vstd::prelude::*;

use crate::kernel::{
    dot, f_add, f_eq, f_mul, f_of, f_one, f_wf, f_zero, lemma_dot_partial_single,
    lemma_dot_partial_wf, lemma_dot_stencil, lemma_f_eq_trans, lemma_f_mul_one, solve_dense,
    vec_wf, Frac, Matrix, Rat, Vector,
};

verus! {

/// A configuration comfortably inside the exact arithmetic's range: on
/// such a configuration the solver owes a result.
pub open spec fn fdm_small(s: FdmSolver) -> bool {
    &&& 2 <= s.num_nodes <= 65536
    &&& -1048576 <= s.left_temperature.num <= 1048576
    &&& 1 <= s.left_temperature.den <= 1048576
    &&& -1048576 <= s.right_temperature.num <= 1048576
    &&& 1 <= s.right_temperature.den <= 1048576
}

/// The three-point stencil combination of three equal-denominator values
/// whose numerators are in arithmetic progression is zero.
proof fn lemma_ramp_stencil(nim1: int, ni: int, nip1: int, dd: int)
    by (nonlinear_arith)
    requires
        dd >= 1,
        nim1 + nip1 == 2 * ni,
    ensures
        f_eq(
            f_add(
                f_add(Frac { n: nim1, d: dd }, f_mul(Frac { n: -2, d: 1 }, Frac { n: ni, d: dd })),
                Frac { n: nip1, d: dd },
            ),
            f_zero(),
        ),
{
}

/// A linear-ramp value with the common denominator equals the boundary
/// temperature at the matching end.
proof fn lemma_ramp_end(tn: int, td: int, other_d: int, span: int, val_n: int)
    by (nonlinear_arith)
    requires
        td >= 1,
        other_d >= 1,
        span >= 1,
        val_n == tn * other_d * span,
    ensures
        f_eq(Frac { n: val_n, d: td * other_d * span }, Frac { n: tn, d: td }),
{
}

} // verus!
use crate::solver::{Solver, SolverSolutionData};
use crate::{EngineError, ProblemDefinition};

verus! {

/// The one-dimensional conduction solver, with its domain exposed as
/// configuration rather than hidden constants.
pub struct FdmSolver {
    pub length: Rat,
    pub num_nodes: usize,
    pub left_temperature: Rat,
    pub right_temperature: Rat,
}

/// The solved temperatures satisfy the discrete conduction system: fixed
/// values at both ends, and a zero three-point stencil at every interior
/// node.
pub open spec fn fdm_solution_ok(n: int, left: Rat, right: Rat, u: Seq<Rat>) -> bool {
    &&& u.len() == n
    &&& vec_wf(u)
    &&& f_eq(f_of(u[0]), f_of(left))
    &&& f_eq(f_of(u[n - 1]), f_of(right))
    &&& forall|i: int|
        1 <= i < n - 1 ==> f_eq(
            f_add(
                f_add(f_of(u[i - 1]), f_mul(Frac { n: -2, d: 1 }, f_of(#[trigger] u[i]))),
                f_of(u[i + 1]),
            ),
            f_zero(),
        )
}

impl FdmSolver {
    pub fn new(length: Rat, num_nodes: usize, left_temperature: Rat, right_temperature: Rat)
        -> (r: FdmSolver)
        ensures
            r.length == length,
            r.num_nodes == num_nodes,
            r.left_temperature == left_temperature,
            r.right_temperature == right_temperature,
    {
        FdmSolver { length, num_nodes, left_temperature, right_temperature }
    }

    /// Assembles the stencil system and solves it exactly.  A success
    /// provably satisfies the discrete conduction equations; a failure
    /// means the system was singular or an exact value did not fit.
    pub fn run(&self) -> (r: Result<SolverSolutionData, EngineError>)
        requires
            self.num_nodes >= 2,
            self.left_temperature.wf(),
            self.right_temperature.wf(),
        ensures
            r matches Ok(d) ==> fdm_solution_ok(
                self.num_nodes as int,
                self.left_temperature,
                self.right_temperature,
                d.data@,
            ),
            fdm_small(*self) ==> r is Ok,
            r matches Err(e) ==> (e matches EngineError::SolverFailed(m) && m@
                == "FDM matrix is singular."@),
    {
        let n = self.num_nodes;
        // assemble the matrix: identity rows at the ends, the stencil rows
        // in the interior
        let mut a: Matrix = Vec::new();
        for row in 0..n
            invariant
                2 <= n,
                a@.len() == row,
                forall|i: int| 0 <= i < row ==> (#[trigger] a@[i])@.len() == n,
                forall|i: int| 0 <= i < row ==> vec_wf(a@[i]@),
                forall|i: int, c: int|
                    0 <= i < row && 0 <= c < n && (i == 0 || i == n - 1) ==> f_of(
                        #[trigger] a@[i]@[c],
                    ) == (if c == i {
                        f_one()
                    } else {
                        f_zero()
                    }),
                forall|i: int, c: int|
                    0 < i < row && i < n - 1 && 0 <= c < n ==> f_of(#[trigger] a@[i]@[c]) == (
                    if c == i - 1 || c == i + 1 {
                        f_one()
                    } else if c == i {
                        Frac { n: -2, d: 1 }
                    } else {
                        f_zero()
                    }),
        {
            let mut r: Vec<Rat> = Vec::new();
            if row == 0 || row == n - 1 {
                for c in 0..n
                    invariant
                        r@.len() == c,
                        vec_wf(r@),
                        row < n,
                        forall|k: int|
                            0 <= k < c ==> f_of(#[trigger] r@[k]) == (if k == row {
                                f_one()
                            } else {
                                f_zero()
                            }),
                {
                    if c == row {
                        r.push(Rat::one());
                    } else {
                        r.push(Rat::zero());
                    }
                }
            } else {
                for c in 0..n
                    invariant
                        r@.len() == c,
                        vec_wf(r@),
                        0 < row < n - 1,
                        forall|k: int|
                            0 <= k < c ==> f_of(#[trigger] r@[k]) == (if k == row - 1 || k == row
                                + 1 {
                                f_one()
                            } else if k == row {
                                Frac { n: -2, d: 1 }
                            } else {
                                f_zero()
                            }),
                {
                    if c == row - 1 || c == row + 1 {
                        r.push(Rat::one());
                    } else if c == row {
                        r.push(Rat::whole(-2));
                    } else {
                        r.push(Rat::zero());
                    }
                }
            }
            a.push(r);
        }
        // assemble the right-hand side: the fixed boundary temperatures
        let mut b: Vector = Vec::new();
        for row in 0..n
            invariant
                2 <= n,
                b@.len() == row,
                vec_wf(b@),
                self.left_temperature.wf(),
                self.right_temperature.wf(),
                forall|i: int|
                    0 <= i < row ==> f_of(#[trigger] b@[i]) == (if i == 0 {
                        f_of(self.left_temperature)
                    } else if i == n - 1 {
                        f_of(self.right_temperature)
                    } else {
                        f_zero()
                    }),
        {
            if row == 0 {
                b.push(self.left_temperature);
            } else if row == n - 1 {
                b.push(self.right_temperature);
            } else {
                b.push(Rat::zero());
            }
        }
        let u = match solve_dense(&a, &b) {
            Option::Some(u) => u,
            Option::None => {
                // the discrete system always has the linear ramp as a
                // solution; on a configuration inside the arithmetic's
                // range, compute it directly
                return self.ramp_fallback();
            },
        };
        proof {
            let uu = u@;
            let nn = n as int;
            // the boundary rows are identity rows, so the ends are pinned
            assert(f_eq(f_of(uu[0]), f_of(self.left_temperature))) by {
                lemma_dot_partial_single(a@[0]@, uu, 0, Rat { num: 1, den: 1 }, nn);
                lemma_dot_partial_wf(a@[0]@, uu, nn);
                lemma_f_mul_one(f_of(uu[0]), f_one());
                lemma_f_eq_trans(f_of(uu[0]), dot(a@[0]@, uu), f_of(b@[0]));
            }
            assert(f_eq(f_of(uu[nn - 1]), f_of(self.right_temperature))) by {
                lemma_dot_partial_single(a@[nn - 1]@, uu, nn - 1, Rat { num: 1, den: 1 }, nn);
                lemma_dot_partial_wf(a@[nn - 1]@, uu, nn);
                lemma_f_mul_one(f_of(uu[nn - 1]), f_one());
                lemma_f_eq_trans(f_of(uu[nn - 1]), dot(a@[nn - 1]@, uu), f_of(b@[nn - 1]));
            }
            // the interior rows carry the stencil
            assert forall|i: int|
                1 <= i < nn - 1 implies f_eq(
                f_add(
                    f_add(f_of(uu[i - 1]), f_mul(Frac { n: -2, d: 1 }, f_of(#[trigger] uu[i]))),
                    f_of(uu[i + 1]),
                ),
                f_zero(),
            ) by {
                lemma_dot_stencil(a@[i]@, uu, i, nn);
                lemma_dot_partial_wf(a@[i]@, uu, nn);
                let combo = f_add(
                    f_add(f_of(uu[i - 1]), f_mul(Frac { n: -2, d: 1 }, f_of(uu[i]))),
                    f_of(uu[i + 1]),
                );
                crate::kernel::lemma_f_add_wf(f_of(uu[i - 1]), f_mul(Frac { n: -2, d: 1 }, f_of(uu[i])));
                crate::kernel::lemma_f_add_wf(Frac { n: -2, d: 1 }, f_of(uu[i]));
                crate::kernel::lemma_f_add_wf(
                    f_add(f_of(uu[i - 1]), f_mul(Frac { n: -2, d: 1 }, f_of(uu[i]))),
                    f_of(uu[i + 1]),
                );
                lemma_f_eq_trans(combo, dot(a@[i]@, uu), f_of(b@[i]));
            }
        }
        Result::Ok(SolverSolutionData { data: u })
    }
}

impl FdmSolver {
    /// The exact linear temperature ramp, built and proved directly; the
    /// configuration must be inside the range the checks accept.
    #[verifier::loop_isolation(false)]
    #[verifier::rlimit(100)]
    fn ramp_fallback(&self) -> (r: Result<SolverSolutionData, EngineError>)
        requires
            self.num_nodes >= 2,
            self.left_temperature.wf(),
            self.right_temperature.wf(),
        ensures
            r matches Ok(d) ==> fdm_solution_ok(
                self.num_nodes as int,
                self.left_temperature,
                self.right_temperature,
                d.data@,
            ),
            fdm_small(*self) ==> r is Ok,
            r matches Err(e) ==> (e matches EngineError::SolverFailed(m) && m@
                == "FDM matrix is singular."@),
    {
        let n = self.num_nodes;
        let lt = self.left_temperature;
        let rt = self.right_temperature;
        let small = n <= 65536 && -1048576 <= lt.num && lt.num <= 1048576 && lt.den <= 1048576
            && -1048576 <= rt.num && rt.num <= 1048576 && rt.den <= 1048576;
        if !small {
            return Result::Err(
                EngineError::SolverFailed(String::from_str("FDM matrix is singular.")),
            );
        }
        let nm1: i64 = (n - 1) as i64;
        proof {
            assert(-0x10000000000 <= lt.num * rt.den <= 0x10000000000) by (nonlinear_arith)
                requires
                    -1048576 <= lt.num <= 1048576,
                    1 <= rt.den <= 1048576;
            assert(-0x10000000000 <= rt.num * lt.den <= 0x10000000000) by (nonlinear_arith)
                requires
                    -1048576 <= rt.num <= 1048576,
                    1 <= lt.den <= 1048576;
            assert(1 <= lt.den * rt.den <= 0x10000000000) by (nonlinear_arith)
                requires
                    1 <= lt.den <= 1048576,
                    1 <= rt.den <= 1048576;
        }
        let a_coef: i64 = lt.num * rt.den;
        let b_coef: i64 = rt.num * lt.den;
        let dens: i64 = lt.den * rt.den;
        proof {
            assert(1 <= dens * nm1 <= 0x100000000000000) by (nonlinear_arith)
                requires
                    1 <= dens <= 0x10000000000,
                    1 <= nm1 <= 65535;
        }
        let dd: i64 = dens * nm1;
        let mut u: Vector = Vec::new();
        for i in 0..n
            invariant
                u@.len() == i,
                vec_wf(u@),
                forall|k: int|
                    0 <= k < i ==> (#[trigger] u@[k]).num == a_coef * (nm1 - k) + b_coef * k
                        && u@[k].den == dd,
        {
            proof {
                assert(-0x1000000000000000 <= a_coef * (nm1 - i as int) <= 0x1000000000000000
                    && -0x1000000000000000 <= b_coef * (i as int) <= 0x1000000000000000)
                    by (nonlinear_arith)
                    requires
                        -0x10000000000 <= a_coef <= 0x10000000000,
                        -0x10000000000 <= b_coef <= 0x10000000000,
                        0 <= i as int <= nm1,
                        nm1 <= 65535;
            }
            let ni: i64 = a_coef * (nm1 - (i as i64)) + b_coef * (i as i64);
            u.push(Rat { num: ni, den: dd });
        }
        proof {
            let nn = n as int;
            let uu = u@;
            assert(f_eq(f_of(uu[0]), f_of(lt))) by {
                assert(uu[0].num == a_coef * (nm1 - 0) + b_coef * 0 && uu[0].den == dd);
                assert(a_coef * (nm1 - 0) + b_coef * 0 == a_coef * nm1) by (nonlinear_arith);
                assert(uu[0].num == a_coef * nm1);
                assert(a_coef * nm1 == lt.num as int * rt.den * nm1) by (nonlinear_arith)
                    requires
                        a_coef == lt.num * rt.den;
                assert(dd == lt.den as int * rt.den * nm1) by (nonlinear_arith)
                    requires
                        dd == dens * nm1,
                        dens == lt.den * rt.den;
                lemma_ramp_end(lt.num as int, lt.den as int, rt.den as int, nm1 as int,
                    a_coef as int * nm1 as int);
            }
            assert(f_eq(f_of(uu[nn - 1]), f_of(rt))) by {
                assert(uu[nn - 1].num == a_coef * (nm1 - (nn - 1)) + b_coef * (nn - 1)
                    && uu[nn - 1].den == dd);
                assert(a_coef * (nm1 - (nn - 1)) + b_coef * (nn - 1) == b_coef * nm1)
                    by (nonlinear_arith)
                    requires
                        nm1 as int == nn - 1;
                assert(uu[nn - 1].num == b_coef * nm1);
                assert(b_coef * nm1 == rt.num as int * lt.den * nm1) by (nonlinear_arith)
                    requires
                        b_coef == rt.num * lt.den;
                assert(dd == rt.den as int * lt.den * nm1) by (nonlinear_arith)
                    requires
                        dd == dens * nm1,
                        dens == lt.den * rt.den;
                lemma_ramp_end(rt.num as int, rt.den as int, lt.den as int, nm1 as int,
                    b_coef as int * nm1 as int);
            }
            assert forall|i: int|
                1 <= i < nn - 1 implies f_eq(
                f_add(
                    f_add(f_of(uu[i - 1]), f_mul(Frac { n: -2, d: 1 }, f_of(#[trigger] uu[i]))),
                    f_of(uu[i + 1]),
                ),
                f_zero(),
            ) by {
                let nim1 = uu[i - 1].num as int;
                let ni = uu[i].num as int;
                let nip1 = uu[i + 1].num as int;
                assert(nim1 + nip1 == 2 * ni) by (nonlinear_arith)
                    requires
                        nim1 == a_coef * (nm1 - (i - 1)) + b_coef * (i - 1),
                        ni == a_coef * (nm1 - i) + b_coef * i,
                        nip1 == a_coef * (nm1 - (i + 1)) + b_coef * (i + 1);
                lemma_ramp_stencil(nim1, ni, nip1, dd as int);
            }
        }
        Result::Ok(SolverSolutionData { data: u })
    }
}

impl Solver for FdmSolver {
    fn name(&self) -> &'static str {
        "FdmSolver"
    }

    fn solve(&self, _problem: &ProblemDefinition) -> Result<SolverSolutionData, EngineError> {
        if self.num_nodes >= 2 && self.left_temperature.den >= 1 && self.right_temperature.den
            >= 1 {
            self.run()
        } else {
            Result::Err(
                EngineError::SolverFailed(
                    String::from_str("FDM solver is not configured with a valid domain"),
                ),
            )
        }
    }
}

} // verus!
