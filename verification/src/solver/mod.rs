//! The solver framework: the solver capability, the interchangeable
//! solver variants, and a placeholder solver for exercising the pipeline.

pub mod fdm_solver;
pub mod fem_solver;

use vstd::prelude::*;

use crate::kernel::{f_of, f_zero, vec_wf, Rat};
use crate::{EngineError, ProblemDefinition};

verus! {

/// The raw solution data returned by a solver.
pub struct SolverSolutionData {
    pub data: Vec<Rat>,
}

/// The common capability of all physics solvers: a stable name and a way
/// to turn a complete problem into raw solution data.
pub trait Solver {
    fn name(&self) -> &'static str;

    fn solve(&self, problem: &ProblemDefinition) -> Result<SolverSolutionData, EngineError>;
}

/// A placeholder solver: it accepts any meshed problem and returns one
/// zero per mesh node.
pub struct DummySolver;

impl DummySolver {
    /// One zero of solution data per mesh node.
    pub fn run(&self, problem: &ProblemDefinition) -> (r: Result<
        SolverSolutionData,
        EngineError,
    >)
        requires
            problem.mesh is Some,
        ensures
            r matches Ok(d) ==> {
                &&& d.data@.len() == problem.mesh->0.nodes@.len()
                &&& vec_wf(d.data@)
                &&& forall|i: int|
                    0 <= i < d.data@.len() ==> f_of(#[trigger] d.data@[i]) == f_zero()
            },
            r is Ok,
    {
        let mesh = match &problem.mesh {
            Option::Some(m) => m,
            Option::None => {
                return Result::Err(
                    EngineError::SolverFailed(
                        String::from_str("Mesh not found in problem definition"),
                    ),
                );
            },
        };
        let n = mesh.nodes.len();
        let mut data: Vec<Rat> = Vec::new();
        for i in 0..n
            invariant
                data@.len() == i,
                vec_wf(data@),
                forall|k: int| 0 <= k < i ==> f_of(#[trigger] data@[k]) == f_zero(),
        {
            data.push(Rat::zero());
        }
        Result::Ok(SolverSolutionData { data })
    }
}

impl Solver for DummySolver {
    fn name(&self) -> &'static str {
        "DummySolver"
    }

    fn solve(&self, problem: &ProblemDefinition) -> Result<SolverSolutionData, EngineError> {
        if problem.mesh.is_some() {
            self.run(problem)
        } else {
            Result::Err(
                EngineError::SolverFailed(
                    String::from_str("Mesh not found in problem definition"),
                ),
            )
        }
    }
}

} // verus!
