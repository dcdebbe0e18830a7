use simengine::kernel::Rat;
use simengine::provenance::MetaValue;
use simengine::solver::fdm_solver::FdmSolver;
use simengine::solver::fem_solver::FemSolver;
use simengine::solver::DummySolver;
use simengine::{
    BoundaryCondition, CoreEngine, EngineError, GeometricPrimitive, GeometryDefinition,
    Material, Mesh, Node3, PhysicsDefinition, ProblemDefinition, Region, SolverManager,
    SolverSettings,
};

fn node(x: i64, y: i64, z: i64) -> Node3 {
    Node3 { x: Rat::whole(x), y: Rat::whole(y), z: Rat::whole(z) }
}

fn tetra_mesh() -> Mesh {
    Mesh {
        nodes: vec![node(0, 0, 0), node(1, 0, 0), node(0, 1, 0), node(0, 0, 1)],
        elements: vec![vec![0, 1, 2, 3]],
        element_type: "Tetrahedron".to_string(),
        boundary_regions: vec![Region { name: "all".to_string(), nodes: vec![0, 1, 2, 3] }],
    }
}

fn problem_with(mesh: Mesh, bcs: Vec<BoundaryCondition>, solver: &str) -> ProblemDefinition {
    ProblemDefinition {
        id: "case".to_string(),
        geometry: GeometryDefinition::Primitive(GeometricPrimitive {
            shape: "cube".to_string(),
            dimensions: vec![Rat::whole(1), Rat::whole(1), Rat::whole(1)],
        }),
        physics: PhysicsDefinition {
            equations: vec![],
            boundary_conditions: bcs,
            material: Material {
                youngs_modulus: Rat::whole(200),
                poissons_ratio: Rat { num: 3, den: 10 },
            },
            processed_equations: None,
        },
        solver_settings: SolverSettings {
            solver_name: solver.to_string(),
            tolerance: Rat { num: 1, den: 100000 },
            max_iterations: 10,
        },
        mesh: Some(mesh),
    }
}

fn zero_dirichlet(region: &str) -> BoundaryCondition {
    BoundaryCondition {
        region: region.to_string(),
        condition_type: "Dirichlet".to_string(),
        value: vec![Some(Rat::zero()), Some(Rat::zero()), Some(Rat::zero())],
    }
}

#[test]
fn fdm_reference_scenario_is_the_exact_linear_ramp() {
    // length 1.0, 11 nodes, left 100, right 0: the exact ramp 100, 90, ... 0,
    // so certainly within a tolerance of 1e-9 at every node
    let solver = FdmSolver::new(Rat::whole(1), 11, Rat::whole(100), Rat::zero());
    let out = solver.run().unwrap();
    assert_eq!(out.data.len(), 11);
    for i in 0..11 {
        let expected = Rat::whole(100 - 10 * (i as i64));
        assert!(out.data[i].eq(expected), "node {} temperature mismatch", i);
    }
}

#[test]
fn fem_fully_fixed_case_is_all_zero() {
    let problem = problem_with(tetra_mesh(), vec![zero_dirichlet("all")], "FemSolver");
    let out = FemSolver.run(&problem).unwrap();
    assert_eq!(out.data.len(), 12);
    for d in 0..12 {
        assert!(out.data[d].eq(Rat::zero()), "displacement {} should be zero", d);
    }
}

#[test]
fn fem_rejects_non_tetrahedral_meshes() {
    let mut mesh = tetra_mesh();
    mesh.element_type = "Hexahedron".to_string();
    let problem = problem_with(mesh, vec![], "FemSolver");
    match FemSolver.run(&problem) {
        Err(EngineError::SolverFailed(m)) => {
            assert_eq!(
                m,
                "FemSolver currently only supports Tetrahedral meshes, but found Hexahedron"
            );
        },
        _ => panic!("a non-tetrahedral mesh must be rejected"),
    }
}

#[test]
fn fem_rejects_malformed_elements_naming_the_index() {
    let mut mesh = tetra_mesh();
    mesh.elements = vec![vec![0, 1, 2, 3], vec![0, 1, 2]];
    let problem = problem_with(mesh, vec![], "FemSolver");
    match FemSolver.run(&problem) {
        Err(EngineError::SolverFailed(m)) => {
            assert_eq!(m, "Element 1 is not a tetrahedron (node count: 3)");
        },
        _ => panic!("a malformed element must be rejected"),
    }
    let mut mesh2 = tetra_mesh();
    mesh2.elements = vec![vec![0, 1, 2, 9]];
    let problem2 = problem_with(mesh2, vec![], "FemSolver");
    match FemSolver.run(&problem2) {
        Err(EngineError::SolverFailed(m)) => {
            assert_eq!(m, "Element 0 contains out-of-bounds node index.");
        },
        _ => panic!("an out-of-bounds element must be rejected"),
    }
}

#[test]
fn fem_rejects_unsupported_boundary_condition_types() {
    let bc = BoundaryCondition {
        region: "all".to_string(),
        condition_type: "Neumann".to_string(),
        value: vec![Some(Rat::whole(1)), Some(Rat::whole(0)), Some(Rat::whole(0))],
    };
    let problem = problem_with(tetra_mesh(), vec![bc], "FemSolver");
    match FemSolver.run(&problem) {
        Err(EngineError::SolverFailed(m)) => {
            assert_eq!(m, "Unsupported boundary condition type: Neumann");
        },
        _ => panic!("an unsupported condition type must be rejected before any solve"),
    }
}

#[test]
fn fem_condition_on_unknown_region_is_inert() {
    let mut bcs = vec![zero_dirichlet("all")];
    bcs.push(BoundaryCondition {
        region: "no_such_region".to_string(),
        condition_type: "Twist".to_string(),
        value: vec![None, None, None],
    });
    let problem = problem_with(tetra_mesh(), bcs, "FemSolver");
    let out = FemSolver.run(&problem).unwrap();
    assert_eq!(out.data.len(), 12);
}

#[test]
fn unknown_solver_name_reports_plugin_not_found() {
    let manager = SolverManager::new();
    match manager.get_solver("NoSuchSolver") {
        Err(EngineError::PluginNotFound(n)) => assert_eq!(n, "NoSuchSolver"),
        _ => panic!("an unknown solver name must report PluginNotFound"),
    }
    assert!(manager.get_solver("DummySolver").is_ok());
    assert!(manager.get_solver("FemSolver").is_ok());
    assert!(manager.get_solver("FdmSolver").is_ok());
}

#[test]
fn dummy_solver_returns_one_zero_per_node() {
    let problem = problem_with(tetra_mesh(), vec![], "DummySolver");
    let out = DummySolver.run(&problem).unwrap();
    assert_eq!(out.data.len(), 4);
    for v in &out.data {
        assert!(v.eq(Rat::zero()));
    }
}

#[test]
fn pipeline_records_every_stage_and_drains_on_completion() {
    let mut engine = CoreEngine::new();
    let mut problem = problem_with(tetra_mesh(), vec![], "DummySolver");
    problem.mesh = None;

    engine.record_problem(&problem).unwrap();
    engine.attach_mesh(&mut problem, tetra_mesh()).unwrap();
    let data = engine.run_solver(&problem).unwrap();
    assert_eq!(data.data.len(), 4);
    let solution = engine.finish(problem, data).unwrap();

    assert_eq!(solution.id, "case");
    assert_eq!(solution.data.len(), 4);
    assert_eq!(solution.provenance_chain.len(), 3);
    assert_eq!(solution.provenance_chain[0].event_type, "problem_definition");
    assert_eq!(solution.provenance_chain[1].event_type, "mesh_generation");
    assert_eq!(solution.provenance_chain[2].event_type, "solver_run");
    // the chain is linked
    assert!(solution.provenance_chain[0].previous_record_hash.is_none());
    for i in 1..3 {
        assert_eq!(
            solution.provenance_chain[i].previous_record_hash,
            Some(solution.provenance_chain[i - 1].calculate_record_hash())
        );
    }
    // the metadata of the solver stage names the solver
    let entries = solution.provenance_chain[2].metadata.entries();
    assert_eq!(entries[0].key, "solver_name");
    match &entries[0].val {
        MetaValue::MStr(s) => assert_eq!(s, "DummySolver"),
        _ => panic!("solver metadata should be a string"),
    }
    // the engine's own ledger is empty again
    let mut chain_check = engine;
    chain_check.record_problem(&problem_with(tetra_mesh(), vec![], "DummySolver")).unwrap();
    assert!(chain_check.provenance_chain.records()[0].previous_record_hash.is_none());
}

#[test]
fn fem_error_messages_surface_through_the_engine_error() {
    let e = EngineError::SolverFailed("FDM matrix is singular.".to_string());
    assert_eq!(e.message(), "Solver failed: FDM matrix is singular.");
    let p = EngineError::PluginNotFound("X".to_string());
    assert_eq!(p.message(), "Plugin not found: X");
}

#[test]
fn fem_underconstrained_system_is_reported_singular() {
    // only one node pinned: the placeholder stiffness leaves zero rows,
    // so the system cannot be solved
    let bc = BoundaryCondition {
        region: "all".to_string(),
        condition_type: "Dirichlet".to_string(),
        value: vec![Some(Rat::zero()), None, None],
    };
    let problem = problem_with(tetra_mesh(), vec![bc], "FemSolver");
    match FemSolver.run(&problem) {
        Err(EngineError::SolverFailed(m)) => {
            assert_eq!(m, "Global stiffness matrix is singular.");
        },
        _ => panic!("an underconstrained placeholder system must fail"),
    }
}

#[test]
fn fem_reports_missing_mesh() {
    let mut problem = problem_with(tetra_mesh(), vec![], "FemSolver");
    problem.mesh = None;
    match FemSolver.run(&problem) {
        Err(EngineError::SolverFailed(m)) => {
            assert_eq!(m, "Mesh not found in problem definition");
        },
        _ => panic!("a missing mesh must be rejected"),
    }
}

#[test]
fn engine_run_solver_reference_fdm_is_the_ramp() {
    let mut engine = CoreEngine::new();
    let problem = problem_with(tetra_mesh(), vec![], "FdmSolver");
    let data = engine.run_solver(&problem).unwrap();
    assert_eq!(data.data.len(), 11);
    for i in 0..11 {
        assert!(data.data[i].eq(Rat::whole(100 - 10 * (i as i64))));
    }
}

#[test]
fn engine_run_solver_failure_leaves_the_ledger_alone() {
    let mut engine = CoreEngine::new();
    let problem = problem_with(tetra_mesh(), vec![], "NoSuchSolver");
    assert!(engine.run_solver(&problem).is_err());
    assert_eq!(engine.provenance_chain.records().len(), 0);
}
