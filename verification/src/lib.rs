pub mod jsonio;
pub mod kernel;
pub mod provenance;
pub mod solver;
pub mod symbolic;

pub use kernel::{Matrix, Vector};

use vstd::prelude::*;

use crate::jsonio::{dec_i64, dec_u64, ser_str, w_i64, w_lit, w_string, w_u64, chars_to_string};
use crate::kernel::Rat;
use crate::provenance::{
    content_hash, linked, Metadata, ProvenanceChain, ProvenanceRecord, RecordV,
};
use crate::solver::fdm_solver::{fdm_small, fdm_solution_ok, FdmSolver};
use crate::solver::fem_solver::{fem_data_ok, fem_guards_ok, FemSolver};
use crate::solver::{DummySolver, Solver, SolverSolutionData};
use crate::symbolic::ProcessedEquations;

verus! {

// --- Return types and errors ---

/// The final result of one pipeline run.
pub struct Solution {
    pub id: String,
    pub mesh: Mesh,
    pub processed_equations: Option<ProcessedEquations>,
    pub data: Vec<Rat>,
    pub provenance_chain: Vec<ProvenanceRecord>,
}

/// The failure of a pipeline stage, tagged by stage.
#[derive(Debug)]
pub enum EngineError {
    MeshingFailed(String),
    SymbolicFailed(String),
    SolverFailed(String),
    PluginNotFound(String),
    ProvenanceFailed(String),
}

impl EngineError {
    /// A readable description of the failure.
    pub fn message(&self) -> (r: String)
        ensures
            match self {
                EngineError::MeshingFailed(s) => r@ == "Meshing failed: "@ + s@,
                EngineError::SymbolicFailed(s) => r@ == "Symbolic processing failed: "@ + s@,
                EngineError::SolverFailed(s) => r@ == "Solver failed: "@ + s@,
                EngineError::PluginNotFound(s) => r@ == "Plugin not found: "@ + s@,
                EngineError::ProvenanceFailed(s) => r@ == "Provenance failed: "@ + s@,
            },
    {
        match self {
            EngineError::MeshingFailed(s) => {
                let mut out = String::from_str("Meshing failed: ");
                out.append(s.as_str());
                out
            },
            EngineError::SymbolicFailed(s) => {
                let mut out = String::from_str("Symbolic processing failed: ");
                out.append(s.as_str());
                out
            },
            EngineError::SolverFailed(s) => {
                let mut out = String::from_str("Solver failed: ");
                out.append(s.as_str());
                out
            },
            EngineError::PluginNotFound(s) => {
                let mut out = String::from_str("Plugin not found: ");
                out.append(s.as_str());
                out
            },
            EngineError::ProvenanceFailed(s) => {
                let mut out = String::from_str("Provenance failed: ");
                out.append(s.as_str());
                out
            },
        }
    }
}

// --- The problem definition ---

/// A declarative simulation problem.
pub struct ProblemDefinition {
    pub id: String,
    pub geometry: GeometryDefinition,
    pub physics: PhysicsDefinition,
    pub solver_settings: SolverSettings,
    pub mesh: Option<Mesh>,
}

/// The geometry for the simulation.
pub enum GeometryDefinition {
    File(String),
    Primitive(GeometricPrimitive),
}

/// A simple built-in shape.
pub struct GeometricPrimitive {
    pub shape: String,
    pub dimensions: Vec<Rat>,
}

/// The physical equations and boundary conditions.
pub struct PhysicsDefinition {
    pub equations: Vec<String>,
    pub boundary_conditions: Vec<BoundaryCondition>,
    pub material: Material,
    pub processed_equations: Option<ProcessedEquations>,
}

/// One boundary condition: three per-axis components; an absent component
/// of a Dirichlet condition leaves that axis unconstrained.
pub struct BoundaryCondition {
    pub region: String,
    pub condition_type: String,
    pub value: Vec<Option<Rat>>,
}

pub struct Material {
    pub youngs_modulus: Rat,
    pub poissons_ratio: Rat,
}

/// Which solver to use and its parameters.
pub struct SolverSettings {
    pub solver_name: String,
    pub tolerance: Rat,
    pub max_iterations: u32,
}

/// One named boundary region of a mesh.
pub struct Region {
    pub name: String,
    pub nodes: Vec<usize>,
}

/// One mesh node's coordinates.
pub struct Node3 {
    pub x: Rat,
    pub y: Rat,
    pub z: Rat,
}

/// A discretized simulation domain.
pub struct Mesh {
    pub nodes: Vec<Node3>,
    pub elements: Vec<Vec<usize>>,
    pub element_type: String,
    pub boundary_regions: Vec<Region>,
}

/// A boundary condition carries exactly three well-formed components.
pub open spec fn bc_wf(bc: BoundaryCondition) -> bool {
    &&& bc.value@.len() == 3
    &&& forall|k: int|
        0 <= k < 3 ==> (match #[trigger] bc.value@[k] {
            Option::Some(v) => v.wf(),
            Option::None => true,
        })
}

pub open spec fn physics_wf(p: PhysicsDefinition) -> bool {
    &&& forall|i: int|
        0 <= i < p.boundary_conditions@.len() ==> bc_wf(#[trigger] p.boundary_conditions@[i])
    &&& p.material.youngs_modulus.wf()
    &&& p.material.poissons_ratio.wf()
}

/// Every region's node indices point into the node list.
pub open spec fn mesh_regions_wf(m: Mesh) -> bool {
    forall|i: int, k: int|
        0 <= i < m.boundary_regions@.len() && 0 <= k
            < (#[trigger] m.boundary_regions@[i]).nodes@.len()
            ==> (#[trigger] m.boundary_regions@[i].nodes@[k]) < m.nodes@.len()
}

/// The degrees of freedom of the mesh fit the machine.
pub open spec fn mesh_size_ok(m: Mesh) -> bool {
    m.nodes@.len() * 3 <= usize::MAX
}

/// What the solvers need of a problem to run without panicking.
pub open spec fn problem_wf(p: ProblemDefinition) -> bool {
    &&& physics_wf(p.physics)
    &&& (match p.mesh {
        Option::Some(m) => mesh_regions_wf(m) && mesh_size_ok(m),
        Option::None => true,
    })
}

/// Checks at run time what the solvers assume of a problem; a `true`
/// answer establishes it.
pub fn problem_wf_check(p: &ProblemDefinition) -> (r: bool)
    ensures
        r ==> problem_wf(*p),
{
    let bcs = &p.physics.boundary_conditions;
    let nb = bcs.len();
    for i in 0..nb
        invariant
            nb == bcs@.len(),
            forall|j: int| 0 <= j < i ==> bc_wf(#[trigger] bcs@[j]),
    {
        let bc = &bcs[i];
        if bc.value.len() != 3 {
            return false;
        }
        let mut k: usize = 0;
        while k < 3
            invariant
                k <= 3,
                bc.value@.len() == 3,
                forall|q: int|
                    0 <= q < k ==> (match #[trigger] bc.value@[q] {
                        Option::Some(v) => v.wf(),
                        Option::None => true,
                    }),
            decreases 3 - k,
        {
            match bc.value[k] {
                Option::Some(v) => {
                    if v.den < 1 {
                        return false;
                    }
                },
                Option::None => {},
            }
            k = k + 1;
        }
    }
    if p.physics.material.youngs_modulus.den < 1 || p.physics.material.poissons_ratio.den < 1 {
        return false;
    }
    match &p.mesh {
        Option::Some(m) => {
            let nn = m.nodes.len();
            if nn > usize::MAX / 3 {
                return false;
            }
            proof {
                assert(nn * 3 <= usize::MAX) by (nonlinear_arith)
                    requires
                        nn <= usize::MAX / 3,
                        usize::MAX / 3 == (usize::MAX as int) / 3,
                        nn >= 0;
            }
            let nr = m.boundary_regions.len();
            for i in 0..nr
                invariant
                    nr == m.boundary_regions@.len(),
                    nn == m.nodes@.len(),
                    forall|j: int, q: int|
                        0 <= j < i && 0 <= q < (#[trigger] m.boundary_regions@[j]).nodes@.len()
                            ==> (#[trigger] m.boundary_regions@[j].nodes@[q]) < nn,
            {
                let ns = &m.boundary_regions[i].nodes;
                let c = ns.len();
                for q in 0..c
                    invariant
                        c == ns@.len(),
                        ns == m.boundary_regions@[i as int].nodes,
                        forall|x: int| 0 <= x < q ==> (#[trigger] ns@[x]) < nn,
                {
                    if ns[q] >= nn {
                        return false;
                    }
                }
            }
            true
        },
        Option::None => true,
    }
}


// --- Canonical payload texts for the ledger ---

pub open spec fn ser_rat(r: Rat) -> Seq<char> {
    dec_i64(r.num as int) + seq!['/'] + dec_i64(r.den as int)
}

pub open spec fn ser_orat(o: Option<Rat>) -> Seq<char> {
    match o {
        Option::Some(r) => ser_rat(r),
        Option::None => seq!['_'],
    }
}

/// Each item followed by a comma.
pub open spec fn ser_rats(s: Seq<Rat>) -> Seq<char>
    decreases s.len(),
{
    if s.len() == 0 {
        Seq::empty()
    } else {
        ser_rat(s[0]) + seq![','] + ser_rats(s.drop_first())
    }
}

pub open spec fn ser_orats(s: Seq<Option<Rat>>) -> Seq<char>
    decreases s.len(),
{
    if s.len() == 0 {
        Seq::empty()
    } else {
        ser_orat(s[0]) + seq![','] + ser_orats(s.drop_first())
    }
}

pub open spec fn ser_texts(s: Seq<String>) -> Seq<char>
    decreases s.len(),
{
    if s.len() == 0 {
        Seq::empty()
    } else {
        ser_str(s[0]@) + seq![','] + ser_texts(s.drop_first())
    }
}

pub open spec fn ser_indices(s: Seq<usize>) -> Seq<char>
    decreases s.len(),
{
    if s.len() == 0 {
        Seq::empty()
    } else {
        dec_u64(s[0] as nat) + seq![','] + ser_indices(s.drop_first())
    }
}

pub open spec fn ser_geometry(g: GeometryDefinition) -> Seq<char> {
    match g {
        GeometryDefinition::File(p) => seq!['F'] + ser_str(p@),
        GeometryDefinition::Primitive(pr) => seq!['P'] + ser_str(pr.shape@) + seq!['[']
            + ser_rats(pr.dimensions@) + seq![']'],
    }
}

pub open spec fn ser_bc(bc: BoundaryCondition) -> Seq<char> {
    ser_str(bc.region@) + ser_str(bc.condition_type@) + seq!['['] + ser_orats(bc.value@)
        + seq![']']
}

pub open spec fn ser_bcs(s: Seq<BoundaryCondition>) -> Seq<char>
    decreases s.len(),
{
    if s.len() == 0 {
        Seq::empty()
    } else {
        ser_bc(s[0]) + ser_bcs(s.drop_first())
    }
}

pub open spec fn ser_node(n: Node3) -> Seq<char> {
    seq!['('] + ser_rat(n.x) + seq![','] + ser_rat(n.y) + seq![','] + ser_rat(n.z) + seq![')']
}

pub open spec fn ser_nodes(s: Seq<Node3>) -> Seq<char>
    decreases s.len(),
{
    if s.len() == 0 {
        Seq::empty()
    } else {
        ser_node(s[0]) + ser_nodes(s.drop_first())
    }
}

pub open spec fn ser_elems(s: Seq<Vec<usize>>) -> Seq<char>
    decreases s.len(),
{
    if s.len() == 0 {
        Seq::empty()
    } else {
        seq!['['] + ser_indices(s[0]@) + seq![']'] + ser_elems(s.drop_first())
    }
}

pub open spec fn ser_region(r: Region) -> Seq<char> {
    ser_str(r.name@) + seq!['['] + ser_indices(r.nodes@) + seq![']']
}

pub open spec fn ser_regions(s: Seq<Region>) -> Seq<char>
    decreases s.len(),
{
    if s.len() == 0 {
        Seq::empty()
    } else {
        ser_region(s[0]) + ser_regions(s.drop_first())
    }
}

pub open spec fn ser_mesh(m: Mesh) -> Seq<char> {
    seq!['N'] + ser_nodes(m.nodes@) + seq!['E'] + ser_elems(m.elements@) + seq!['T'] + ser_str(
        m.element_type@,
    ) + seq!['R'] + ser_regions(m.boundary_regions@)
}

pub open spec fn ser_omesh(m: Option<Mesh>) -> Seq<char> {
    match m {
        Option::Some(mm) => ser_mesh(mm),
        Option::None => seq!['_'],
    }
}

pub open spec fn ser_oeqs(p: Option<ProcessedEquations>) -> Seq<char> {
    match p {
        Option::Some(e) => ser_texts(e.simplified_forms@),
        Option::None => seq!['_'],
    }
}

pub open spec fn ser_problem(p: ProblemDefinition) -> Seq<char> {
    ser_str(p.id@) + ser_geometry(p.geometry) + seq!['{'] + ser_texts(p.physics.equations@)
        + ser_bcs(p.physics.boundary_conditions@) + ser_rat(p.physics.material.youngs_modulus)
        + seq![','] + ser_rat(p.physics.material.poissons_ratio) + ser_oeqs(
        p.physics.processed_equations,
    ) + seq!['}'] + ser_str(p.solver_settings.solver_name@) + ser_rat(
        p.solver_settings.tolerance,
    ) + seq![','] + dec_u64(p.solver_settings.max_iterations as nat) + ser_omesh(p.mesh)
}

// --- The verified payload writers ---

#[verifier::loop_isolation(false)]
fn w_rat(out: &mut Vec<char>, r: Rat)
    ensures
        final(out)@ == old(out)@ + ser_rat(r),
{
    w_i64(out, r.num);
    out.push('/');
    w_i64(out, r.den);
}

#[verifier::loop_isolation(false)]
fn w_orat(out: &mut Vec<char>, o: &Option<Rat>)
    ensures
        final(out)@ == old(out)@ + ser_orat(*o),
{
    match o {
        Option::Some(r) => w_rat(out, *r),
        Option::None => out.push('_'),
    }
}

fn w_rats(out: &mut Vec<char>, s: &Vec<Rat>, from: usize)
    requires
        from <= s@.len(),
    ensures
        final(out)@ == old(out)@ + ser_rats(s@.skip(from as int)),
    decreases s@.len() - from,
{
    if from < s.len() {
        w_rat(out, s[from]);
        out.push(',');
        w_rats(out, s, from + 1);
        proof {
            assert(s@.skip(from as int)[0] == s@[from as int]);
            assert(s@.skip(from as int).drop_first() =~= s@.skip(from as int + 1));
            assert(final(out)@ =~= old(out)@ + ser_rats(s@.skip(from as int)));
        }
    } else {
        proof {
            assert(s@.skip(from as int) =~= Seq::<Rat>::empty());
        }
    }
}

fn w_orats(out: &mut Vec<char>, s: &Vec<Option<Rat>>, from: usize)
    requires
        from <= s@.len(),
    ensures
        final(out)@ == old(out)@ + ser_orats(s@.skip(from as int)),
    decreases s@.len() - from,
{
    if from < s.len() {
        w_orat(out, &s[from]);
        out.push(',');
        w_orats(out, s, from + 1);
        proof {
            assert(s@.skip(from as int)[0] == s@[from as int]);
            assert(s@.skip(from as int).drop_first() =~= s@.skip(from as int + 1));
            assert(final(out)@ =~= old(out)@ + ser_orats(s@.skip(from as int)));
        }
    } else {
        proof {
            assert(s@.skip(from as int) =~= Seq::<Option<Rat>>::empty());
        }
    }
}

fn w_texts(out: &mut Vec<char>, s: &Vec<String>, from: usize)
    requires
        from <= s@.len(),
    ensures
        final(out)@ == old(out)@ + ser_texts(s@.skip(from as int)),
    decreases s@.len() - from,
{
    if from < s.len() {
        w_string(out, s[from].as_str());
        out.push(',');
        w_texts(out, s, from + 1);
        proof {
            assert(s@.skip(from as int)[0] == s@[from as int]);
            assert(s@.skip(from as int).drop_first() =~= s@.skip(from as int + 1));
            assert(final(out)@ =~= old(out)@ + ser_texts(s@.skip(from as int)));
        }
    } else {
        proof {
            assert(s@.skip(from as int) =~= Seq::<String>::empty());
        }
    }
}

fn w_indices(out: &mut Vec<char>, s: &Vec<usize>, from: usize)
    requires
        from <= s@.len(),
    ensures
        final(out)@ == old(out)@ + ser_indices(s@.skip(from as int)),
    decreases s@.len() - from,
{
    if from < s.len() {
        w_u64(out, s[from] as u64);
        out.push(',');
        w_indices(out, s, from + 1);
        proof {
            assert(s@.skip(from as int)[0] == s@[from as int]);
            assert(s@.skip(from as int).drop_first() =~= s@.skip(from as int + 1));
            assert(final(out)@ =~= old(out)@ + ser_indices(s@.skip(from as int)));
        }
    } else {
        proof {
            assert(s@.skip(from as int) =~= Seq::<usize>::empty());
        }
    }
}

#[verifier::loop_isolation(false)]
fn w_geometry(out: &mut Vec<char>, g: &GeometryDefinition)
    ensures
        final(out)@ == old(out)@ + ser_geometry(*g),
{
    match g {
        GeometryDefinition::File(p) => {
            out.push('F');
            w_string(out, p.as_str());
        },
        GeometryDefinition::Primitive(pr) => {
            out.push('P');
            w_string(out, pr.shape.as_str());
            out.push('[');
            w_rats(out, &pr.dimensions, 0);
            proof {
                assert(pr.dimensions@.skip(0) =~= pr.dimensions@);
            }
            out.push(']');
            proof {
                assert(final(out)@ =~= old(out)@ + ser_geometry(*g));
            }
        },
    }
}

fn w_bcs(out: &mut Vec<char>, s: &Vec<BoundaryCondition>, from: usize)
    requires
        from <= s@.len(),
    ensures
        final(out)@ == old(out)@ + ser_bcs(s@.skip(from as int)),
    decreases s@.len() - from,
{
    if from < s.len() {
        let bc = &s[from];
        w_string(out, bc.region.as_str());
        w_string(out, bc.condition_type.as_str());
        out.push('[');
        w_orats(out, &bc.value, 0);
        out.push(']');
        w_bcs(out, s, from + 1);
        proof {
            assert(bc.value@.skip(0) =~= bc.value@);
            assert(s@.skip(from as int)[0] == s@[from as int]);
            assert(s@.skip(from as int).drop_first() =~= s@.skip(from as int + 1));
            assert(final(out)@ =~= old(out)@ + ser_bcs(s@.skip(from as int)));
        }
    } else {
        proof {
            assert(s@.skip(from as int) =~= Seq::<BoundaryCondition>::empty());
        }
    }
}

#[verifier::rlimit(60)]
fn w_nodes(out: &mut Vec<char>, s: &Vec<Node3>, from: usize)
    requires
        from <= s@.len(),
    ensures
        final(out)@ == old(out)@ + ser_nodes(s@.skip(from as int)),
    decreases s@.len() - from,
{
    if from < s.len() {
        let n = &s[from];
        out.push('(');
        w_rat(out, n.x);
        out.push(',');
        w_rat(out, n.y);
        out.push(',');
        w_rat(out, n.z);
        out.push(')');
        w_nodes(out, s, from + 1);
        proof {
            assert(s@.skip(from as int)[0] == s@[from as int]);
            assert(s@.skip(from as int).drop_first() =~= s@.skip(from as int + 1));
            assert(final(out)@ =~= old(out)@ + ser_nodes(s@.skip(from as int)));
        }
    } else {
        proof {
            assert(s@.skip(from as int) =~= Seq::<Node3>::empty());
        }
    }
}

fn w_elems(out: &mut Vec<char>, s: &Vec<Vec<usize>>, from: usize)
    requires
        from <= s@.len(),
    ensures
        final(out)@ == old(out)@ + ser_elems(s@.skip(from as int)),
    decreases s@.len() - from,
{
    if from < s.len() {
        out.push('[');
        w_indices(out, &s[from], 0);
        out.push(']');
        w_elems(out, s, from + 1);
        proof {
            assert(s@[from as int]@.skip(0) =~= s@[from as int]@);
            assert(s@.skip(from as int)[0] == s@[from as int]);
            assert(s@.skip(from as int).drop_first() =~= s@.skip(from as int + 1));
            assert(final(out)@ =~= old(out)@ + ser_elems(s@.skip(from as int)));
        }
    } else {
        proof {
            assert(s@.skip(from as int) =~= Seq::<Vec<usize>>::empty());
        }
    }
}

fn w_regions(out: &mut Vec<char>, s: &Vec<Region>, from: usize)
    requires
        from <= s@.len(),
    ensures
        final(out)@ == old(out)@ + ser_regions(s@.skip(from as int)),
    decreases s@.len() - from,
{
    if from < s.len() {
        let r = &s[from];
        w_string(out, r.name.as_str());
        out.push('[');
        w_indices(out, &r.nodes, 0);
        out.push(']');
        w_regions(out, s, from + 1);
        proof {
            assert(r.nodes@.skip(0) =~= r.nodes@);
            assert(s@.skip(from as int)[0] == s@[from as int]);
            assert(s@.skip(from as int).drop_first() =~= s@.skip(from as int + 1));
            assert(final(out)@ =~= old(out)@ + ser_regions(s@.skip(from as int)));
        }
    } else {
        proof {
            assert(s@.skip(from as int) =~= Seq::<Region>::empty());
        }
    }
}

#[verifier::loop_isolation(false)]
fn w_mesh(out: &mut Vec<char>, m: &Mesh)
    ensures
        final(out)@ == old(out)@ + ser_mesh(*m),
{
    out.push('N');
    w_nodes(out, &m.nodes, 0);
    out.push('E');
    w_elems(out, &m.elements, 0);
    out.push('T');
    w_string(out, m.element_type.as_str());
    out.push('R');
    w_regions(out, &m.boundary_regions, 0);
    proof {
        assert(m.nodes@.skip(0) =~= m.nodes@);
        assert(m.elements@.skip(0) =~= m.elements@);
        assert(m.boundary_regions@.skip(0) =~= m.boundary_regions@);
        assert(final(out)@ =~= old(out)@ + ser_mesh(*m));
    }
}

/// The canonical text of a mesh, for hashing.
pub fn mesh_text(m: &Mesh) -> (r: String)
    ensures
        r@ == ser_mesh(*m),
{
    let mut out: Vec<char> = Vec::new();
    w_mesh(&mut out, m);
    chars_to_string(&out)
}

/// The canonical text of a whole problem definition, for hashing.
#[verifier::loop_isolation(false)]
#[verifier::rlimit(100)]
pub fn problem_text(p: &ProblemDefinition) -> (r: String)
    ensures
        r@ == ser_problem(*p),
{
    let mut out: Vec<char> = Vec::new();
    w_string(&mut out, p.id.as_str());
    w_geometry(&mut out, &p.geometry);
    out.push('{');
    w_texts(&mut out, &p.physics.equations, 0);
    w_bcs(&mut out, &p.physics.boundary_conditions, 0);
    w_rat(&mut out, p.physics.material.youngs_modulus);
    out.push(',');
    w_rat(&mut out, p.physics.material.poissons_ratio);
    match &p.physics.processed_equations {
        Option::Some(e) => {
            w_texts(&mut out, &e.simplified_forms, 0);
            proof {
                assert(e.simplified_forms@.skip(0) =~= e.simplified_forms@);
            }
        },
        Option::None => {
            out.push('_');
        },
    }
    out.push('}');
    w_string(&mut out, p.solver_settings.solver_name.as_str());
    w_rat(&mut out, p.solver_settings.tolerance);
    out.push(',');
    w_u64(&mut out, p.solver_settings.max_iterations as u64);
    match &p.mesh {
        Option::Some(m) => {
            w_mesh(&mut out, m);
        },
        Option::None => {
            out.push('_');
        },
    }
    proof {
        assert(p.physics.equations@.skip(0) =~= p.physics.equations@);
        assert(p.physics.boundary_conditions@.skip(0) =~= p.physics.boundary_conditions@);
        assert(out@ =~= ser_problem(*p));
    }
    chars_to_string(&out)
}

/// The canonical text of a solution vector, for hashing.
#[verifier::loop_isolation(false)]
pub fn data_text(d: &SolverSolutionData) -> (r: String)
    ensures
        r@ == ser_rats(d.data@),
{
    let mut out: Vec<char> = Vec::new();
    w_rats(&mut out, &d.data, 0);
    proof {
        assert(d.data@.skip(0) =~= d.data@);
    }
    chars_to_string(&out)
}

/// The canonical text of processed equations, for hashing.
#[verifier::loop_isolation(false)]
pub fn equations_text(e: &ProcessedEquations) -> (r: String)
    ensures
        r@ == ser_texts(e.simplified_forms@),
{
    let mut out: Vec<char> = Vec::new();
    w_texts(&mut out, &e.simplified_forms, 0);
    proof {
        assert(e.simplified_forms@.skip(0) =~= e.simplified_forms@);
    }
    chars_to_string(&out)
}

// --- The solver registry ---

/// One interchangeable solver variant.
pub enum SolverKind {
    Dummy(DummySolver),
    Fem(FemSolver),
    Fdm(FdmSolver),
}

impl SolverKind {
    /// The stable identifier that the registry matches against.
    pub open spec fn spec_name(&self) -> Seq<char> {
        match self {
            SolverKind::Dummy(_) => "DummySolver"@,
            SolverKind::Fem(_) => "FemSolver"@,
            SolverKind::Fdm(_) => "FdmSolver"@,
        }
    }

    pub fn name(&self) -> (r: String)
        ensures
            r@ == self.spec_name(),
    {
        match self {
            SolverKind::Dummy(_) => String::from_str("DummySolver"),
            SolverKind::Fem(_) => String::from_str("FemSolver"),
            SolverKind::Fdm(_) => String::from_str("FdmSolver"),
        }
    }

    /// Dispatches to the selected solver, guarding each solver's
    /// assumptions at run time.
    pub fn solve(&self, problem: &ProblemDefinition) -> (r: Result<
        SolverSolutionData,
        EngineError,
    >)
        ensures
            kind_post(*self, *problem, r),
    {
        match self {
            SolverKind::Dummy(s) => {
                if problem.mesh.is_some() {
                    s.run(problem)
                } else {
                    Result::Err(
                        EngineError::SolverFailed(
                            String::from_str("Mesh not found in problem definition"),
                        ),
                    )
                }
            },
            SolverKind::Fem(s) => {
                if problem_wf_check(problem) {
                    s.run(problem)
                } else {
                    Result::Err(
                        EngineError::SolverFailed(
                            String::from_str("Problem definition is malformed"),
                        ),
                    )
                }
            },
            SolverKind::Fdm(s) => {
                if s.num_nodes >= 2 && s.left_temperature.den >= 1 && s.right_temperature.den
                    >= 1 {
                    s.run()
                } else {
                    Result::Err(
                        EngineError::SolverFailed(
                            String::from_str(
                                "FDM solver is not configured with a valid domain",
                            ),
                        ),
                    )
                }
            },
        }
    }
}

/// What each solver variant's result means: the placeholder solver owes a
/// zero per node, the conduction solver owes its discrete system (and a
/// result on a small configuration), the elasticity solver owes its
/// guards and the prescribed displacements.
pub open spec fn kind_post(
    k: SolverKind,
    p: ProblemDefinition,
    r: Result<SolverSolutionData, EngineError>,
) -> bool {
    match k {
        SolverKind::Dummy(_) => {
            &&& (p.mesh is Some ==> r is Ok)
            &&& (r matches Ok(d) ==> d.data@.len() == p.mesh->0.nodes@.len()
                && crate::kernel::vec_wf(d.data@) && (forall|i: int|
                0 <= i < d.data@.len() ==> crate::kernel::f_of(#[trigger] d.data@[i])
                    == crate::kernel::f_zero()))
            &&& (r matches Err(e) ==> e is SolverFailed)
        },
        SolverKind::Fem(_) => {
            &&& (r matches Ok(d) ==> fem_guards_ok(p) && fem_data_ok(p, d))
            &&& (r matches Err(e) ==> e is SolverFailed)
        },
        SolverKind::Fdm(s) => {
            &&& (r matches Ok(d) ==> fdm_solution_ok(
                s.num_nodes as int,
                s.left_temperature,
                s.right_temperature,
                d.data@,
            ))
            &&& (fdm_small(s) ==> r is Ok)
            &&& (r matches Err(e) ==> e is SolverFailed)
        },
    }
}

/// The three registered solver names are pairwise distinct.
proof fn lemma_solver_names_distinct()
    ensures
        "DummySolver"@ != "FemSolver"@,
        "DummySolver"@ != "FdmSolver"@,
        "FemSolver"@ != "FdmSolver"@,
{
    reveal_strlit("DummySolver");
    reveal_strlit("FemSolver");
    reveal_strlit("FdmSolver");
    assert("DummySolver"@.len() == 11);
    assert("FemSolver"@.len() == 9);
    assert("FemSolver"@[1] == 'e');
    assert("FdmSolver"@[1] == 'd');
}

/// A registered solver carries the requested name.
pub open spec fn has_solver(name: Seq<char>) -> bool {
    name == "DummySolver"@ || name == "FemSolver"@ || name == "FdmSolver"@
}

/// The fixed set of solver variants, assembled once, looked up by name.
pub struct SolverManager {
    pub solvers: Vec<SolverKind>,
}

impl SolverManager {
    /// The registry's fixed contents, in registration order: the
    /// conduction solver carries the reference configuration.
    pub open spec fn wf(&self) -> bool {
        &&& self.solvers@.len() == 3
        &&& self.solvers@[0] is Dummy
        &&& self.solvers@[1] is Fem
        &&& self.solvers@[2] == SolverKind::Fdm(
            FdmSolver {
                length: Rat { num: 1, den: 1 },
                num_nodes: 11,
                left_temperature: Rat { num: 100, den: 1 },
                right_temperature: Rat { num: 0, den: 1 },
            },
        )
    }

    pub fn new() -> (r: SolverManager)
        ensures
            r.wf(),
    {
        let mut solvers: Vec<SolverKind> = Vec::new();
        solvers.push(SolverKind::Dummy(DummySolver));
        solvers.push(SolverKind::Fem(FemSolver));
        solvers.push(
            SolverKind::Fdm(FdmSolver::new(Rat::one(), 11, Rat::whole(100), Rat::zero())),
        );
        SolverManager { solvers }
    }

    /// Looks a solver up by exact name.  No match leaves the registry
    /// unchanged and names the requested solver in the error.
    pub fn get_solver<'a>(&'a self, name: &str) -> (r: Result<&'a SolverKind, EngineError>)
        requires
            self.wf(),
        ensures
            r is Ok <==> has_solver(name@),
            r matches Ok(s) ==> s.spec_name() == name@ && (exists|i: int|
                0 <= i < self.solvers@.len() && *s == #[trigger] self.solvers@[i]),
            r matches Err(e) ==> (e matches EngineError::PluginNotFound(n) && n@ == name@),
    {
        let key = name.to_owned();
        let n = self.solvers.len();
        for i in 0..n
            invariant
                n == self.solvers@.len(),
                self.wf(),
                key@ == name@,
                forall|j: int| 0 <= j < i ==> (#[trigger] self.solvers@[j]).spec_name() != name@,
        {
            let sname = self.solvers[i].name();
            if sname == key {
                proof {
                    assert(self.solvers@[i as int] == self.solvers@[i as int]);
                }
                return Result::Ok(&self.solvers[i]);
            }
        }
        proof {
            assert(self.solvers@[0].spec_name() == "DummySolver"@);
            assert(self.solvers@[1].spec_name() == "FemSolver"@);
            assert(self.solvers@[2].spec_name() == "FdmSolver"@);
        }
        Result::Err(EngineError::PluginNotFound(key))
    }
}

// --- The orchestration pipeline ---

/// The stage the pipeline is in.
pub enum PipelineState {
    Start,
    MeshGenerated,
    EquationsProcessed,
    Solved,
    Complete,
    Failed,
}

/// What just happened: a stage's outcome.
pub enum PipelineEvent {
    MeshReady,
    MeshFailed,
    EquationsReady,
    EquationsFailed,
    SolveReady,
    SolveFailed,
}

/// What the host must do next.
pub enum PipelineAction {
    GenerateMesh,
    ProcessEquationsOrSolve,
    RunSolver,
    AssembleSolution,
    Abort,
}

/// The fail-fast stage sequencing: each stage's success advances to the
/// next stage, any failure ends the run.
pub fn pipeline_step(state: &PipelineState, event: &PipelineEvent) -> (r: (
    PipelineState,
    PipelineAction,
))
    ensures
        (event is MeshFailed || event is EquationsFailed || event is SolveFailed) ==> (r.0
            is Failed && r.1 is Abort),
        (state is Start && event is MeshReady) ==> (r.0 is MeshGenerated && r.1
            is ProcessEquationsOrSolve),
        ((state is MeshGenerated || state is EquationsProcessed) && event is EquationsReady)
            ==> (r.0 is EquationsProcessed && r.1 is RunSolver),
        ((state is MeshGenerated || state is EquationsProcessed) && event is SolveReady) ==> (
        r.0 is Solved && r.1 is AssembleSolution),
{
    match event {
        PipelineEvent::MeshFailed | PipelineEvent::EquationsFailed
            | PipelineEvent::SolveFailed => (PipelineState::Failed, PipelineAction::Abort),
        PipelineEvent::MeshReady => {
            match state {
                PipelineState::Start => (
                    PipelineState::MeshGenerated,
                    PipelineAction::ProcessEquationsOrSolve,
                ),
                _ => (PipelineState::Failed, PipelineAction::Abort),
            }
        },
        PipelineEvent::EquationsReady => {
            match state {
                PipelineState::MeshGenerated | PipelineState::EquationsProcessed => (
                    PipelineState::EquationsProcessed,
                    PipelineAction::RunSolver,
                ),
                _ => (PipelineState::Failed, PipelineAction::Abort),
            }
        },
        PipelineEvent::SolveReady => {
            match state {
                PipelineState::MeshGenerated | PipelineState::EquationsProcessed => (
                    PipelineState::Solved,
                    PipelineAction::AssembleSolution,
                ),
                _ => (PipelineState::Failed, PipelineAction::Abort),
            }
        },
    }
}

/// The engine: the solver registry and the run's provenance ledger.
pub struct CoreEngine {
    pub solver_manager: SolverManager,
    pub provenance_chain: ProvenanceChain,
    pub software_version: String,
}

impl CoreEngine {
    pub fn new() -> (r: CoreEngine)
        ensures
            r.solver_manager.wf(),
            r.provenance_chain@ =~= Seq::<RecordV>::empty(),
            linked(r.provenance_chain@),
    {
        CoreEngine {
            solver_manager: SolverManager::new(),
            provenance_chain: ProvenanceChain::new(),
            software_version: String::from_str("0.1.0"),
        }
    }

    /// Appends the record of the raw problem definition.
    pub fn record_problem(&mut self, problem: &ProblemDefinition) -> (r: Result<
        (),
        EngineError,
    >)
        ensures
            r is Ok,
            final(self).stage_recorded(
                old(self),
                "problem_definition"@,
                vstd::utf8::encode_utf8(ser_problem(*problem)),
            ),
    {
        let payload = problem_text(problem);
        let mut meta = Metadata::empty();
        meta.push_str(String::from_str("problem_id"), problem.id.clone());
        let res = self.provenance_chain.add_record(
            String::from_str("problem_definition"),
            payload.as_str().as_bytes(),
            self.software_version.clone(),
            meta,
        );
        match res {
            Result::Ok(()) => Result::Ok(()),
            Result::Err(e) => Result::Err(EngineError::ProvenanceFailed(e)),
        }
    }

    /// One more record stands on the chain, over the given payload bytes,
    /// linked to the previous record; a linked chain stays linked.
    pub open spec fn stage_recorded(
        &self,
        prev: &CoreEngine,
        event: Seq<char>,
        payload: Seq<u8>,
    ) -> bool {
        &&& self.solver_manager == prev.solver_manager
        &&& self.provenance_chain@.len() == prev.provenance_chain@.len() + 1
        &&& self.provenance_chain@.subrange(0, prev.provenance_chain@.len() as int)
            == prev.provenance_chain@
        &&& self.provenance_chain@.last().event_type == event
        &&& self.provenance_chain@.last().data_hash == content_hash(payload)
        &&& (linked(prev.provenance_chain@) ==> linked(self.provenance_chain@))
    }

    /// Stores the produced mesh into the problem and appends the record of
    /// its serialized form.
    pub fn attach_mesh(&mut self, problem: &mut ProblemDefinition, mesh: Mesh) -> (r: Result<
        (),
        EngineError,
    >)
        ensures
            r is Ok,
            final(problem).mesh is Some,
            final(problem).mesh->0 == mesh,
            final(problem).id == old(problem).id,
            final(problem).geometry == old(problem).geometry,
            final(problem).physics == old(problem).physics,
            final(problem).solver_settings == old(problem).solver_settings,
            final(self).stage_recorded(
                old(self),
                "mesh_generation"@,
                vstd::utf8::encode_utf8(ser_mesh(mesh)),
            ),
    {
        let payload = mesh_text(&mesh);
        let kind = match &problem.geometry {
            GeometryDefinition::File(_) => String::from_str("File"),
            GeometryDefinition::Primitive(_) => String::from_str("Primitive"),
        };
        problem.mesh = Option::Some(mesh);
        let mut meta = Metadata::empty();
        meta.push_str(String::from_str("geometry_type"), kind);
        let res = self.provenance_chain.add_record(
            String::from_str("mesh_generation"),
            payload.as_str().as_bytes(),
            self.software_version.clone(),
            meta,
        );
        match res {
            Result::Ok(()) => Result::Ok(()),
            Result::Err(e) => Result::Err(EngineError::ProvenanceFailed(e)),
        }
    }

    /// Stores the simplified equations into the problem and appends the
    /// record of their serialized form, echoing the original equations.
    pub fn attach_equations(
        &mut self,
        problem: &mut ProblemDefinition,
        processed: ProcessedEquations,
    ) -> (r: Result<(), EngineError>)
        ensures
            r is Ok,
            final(problem).physics.processed_equations == Option::Some(processed),
            final(problem).physics.equations == old(problem).physics.equations,
            final(problem).physics.boundary_conditions == old(
                problem,
            ).physics.boundary_conditions,
            final(problem).physics.material == old(problem).physics.material,
            final(problem).geometry == old(problem).geometry,
            final(problem).solver_settings == old(problem).solver_settings,
            final(problem).mesh == old(problem).mesh,
            final(problem).id == old(problem).id,
            final(self).stage_recorded(
                old(self),
                "symbolic_processing"@,
                vstd::utf8::encode_utf8(ser_texts(processed.simplified_forms@)),
            ),
    {
        let payload = equations_text(&processed);
        let mut meta = Metadata::empty();
        meta.push_str_list(String::from_str("equations"), problem.physics.equations.clone());
        problem.physics.processed_equations = Option::Some(processed);
        let res = self.provenance_chain.add_record(
            String::from_str("symbolic_processing"),
            payload.as_str().as_bytes(),
            self.software_version.clone(),
            meta,
        );
        match res {
            Result::Ok(()) => Result::Ok(()),
            Result::Err(e) => Result::Err(EngineError::ProvenanceFailed(e)),
        }
    }

    /// Resolves the requested solver, runs it, and appends the record of
    /// the raw solution data.
    pub fn run_solver(&mut self, problem: &ProblemDefinition) -> (r: Result<
        SolverSolutionData,
        EngineError,
    >)
        requires
            old(self).solver_manager.wf(),
        ensures
            !has_solver(problem.solver_settings.solver_name@) ==> (r matches Err(e)
                && e matches EngineError::PluginNotFound(n) && n@
                == problem.solver_settings.solver_name@),
            r matches Ok(d) ==> final(self).stage_recorded(
                old(self),
                "solver_run"@,
                vstd::utf8::encode_utf8(ser_rats(d.data@)),
            ),
            r is Err ==> *final(self) == *old(self),
            (has_solver(problem.solver_settings.solver_name@) && r is Err) ==> r->Err_0
                is SolverFailed,
            (problem.solver_settings.solver_name@ == "DummySolver"@ && problem.mesh is Some)
                ==> r is Ok,
            (problem.solver_settings.solver_name@ == "DummySolver"@ && r is Ok) ==> (
            r->Ok_0.data@.len() == problem.mesh->0.nodes@.len() && crate::kernel::vec_wf(
                r->Ok_0.data@,
            ) && (forall|i: int|
                0 <= i < r->Ok_0.data@.len() ==> crate::kernel::f_of(
                    #[trigger] r->Ok_0.data@[i],
                ) == crate::kernel::f_zero())),
            problem.solver_settings.solver_name@ == "FdmSolver"@ ==> r is Ok,
            (problem.solver_settings.solver_name@ == "FdmSolver"@ && r is Ok)
                ==> fdm_solution_ok(
                11,
                Rat { num: 100, den: 1 },
                Rat { num: 0, den: 1 },
                r->Ok_0.data@,
            ),
            (problem.solver_settings.solver_name@ == "FemSolver"@ && r is Ok) ==> (
            fem_guards_ok(*problem) && fem_data_ok(*problem, r->Ok_0)),
    {
        let solver = match self.solver_manager.get_solver(
            problem.solver_settings.solver_name.as_str(),
        ) {
            Result::Ok(s) => s,
            Result::Err(e) => {
                return Result::Err(e);
            },
        };
        proof {
            lemma_solver_names_distinct();
            let nm = problem.solver_settings.solver_name@;
            if nm == "DummySolver"@ {
                assert(solver is Dummy) by {
                    if solver is Fem {
                        assert(solver.spec_name() == "FemSolver"@);
                    }
                    if solver is Fdm {
                        assert(solver.spec_name() == "FdmSolver"@);
                    }
                }
            }
            if nm == "FemSolver"@ {
                assert(solver is Fem) by {
                    if solver is Dummy {
                        assert(solver.spec_name() == "DummySolver"@);
                    }
                    if solver is Fdm {
                        assert(solver.spec_name() == "FdmSolver"@);
                    }
                }
            }
            if nm == "FdmSolver"@ {
                assert(*solver == self.solver_manager.solvers@[2]) by {
                    let i = choose|i: int|
                        0 <= i < self.solver_manager.solvers@.len() && *solver == #[trigger] self.solver_manager.solvers@[i];
                    if i == 0 || i == 1 {
                        assert(solver.spec_name() != "FdmSolver"@);
                    }
                }
                assert(fdm_small(
                    FdmSolver {
                        length: Rat { num: 1, den: 1 },
                        num_nodes: 11,
                        left_temperature: Rat { num: 100, den: 1 },
                        right_temperature: Rat { num: 0, den: 1 },
                    },
                ));
            }
        }
        let data = match solver.solve(problem) {
            Result::Ok(d) => d,
            Result::Err(e) => {
                return Result::Err(e);
            },
        };
        let payload = data_text(&data);
        let mut meta = Metadata::empty();
        meta.push_str(
            String::from_str("solver_name"),
            problem.solver_settings.solver_name.clone(),
        );
        let res = self.provenance_chain.add_record(
            String::from_str("solver_run"),
            payload.as_str().as_bytes(),
            self.software_version.clone(),
            meta,
        );
        match res {
            Result::Ok(()) => Result::Ok(data),
            Result::Err(e) => Result::Err(EngineError::ProvenanceFailed(e)),
        }
    }

    /// Assembles the final solution, taking the mesh and processed
    /// equations out of the problem and draining the ledger into the
    /// solution: the engine is left with an empty, linked chain.
    pub fn finish(&mut self, problem: ProblemDefinition, data: SolverSolutionData) -> (r:
        Result<Solution, EngineError>)
        requires
            problem.mesh is Some,
        ensures
            r is Ok,
            final(self).provenance_chain@.len() == 0,
            linked(final(self).provenance_chain@),
            r matches Ok(sol) ==> {
                &&& sol.id == problem.id
                &&& sol.mesh == problem.mesh->0
                &&& sol.processed_equations == problem.physics.processed_equations
                &&& sol.data == data.data
                &&& sol.provenance_chain@.map_values(|x: ProvenanceRecord| x@) == old(
                    self,
                ).provenance_chain@
            },
    {
        let ProblemDefinition { id, geometry: _, physics, solver_settings: _, mesh } = problem;
        let mesh = match mesh {
            Option::Some(m) => m,
            Option::None => {
                return Result::Err(
                    EngineError::SolverFailed(String::from_str("Mesh was never attached")),
                );
            },
        };
        let records = self.provenance_chain.drain_records();
        Result::Ok(
            Solution {
                id,
                mesh,
                processed_equations: physics.processed_equations,
                data: data.data,
                provenance_chain: records,
            },
        )
    }
}


} // verus!
