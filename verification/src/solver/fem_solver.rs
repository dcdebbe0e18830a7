//! A finite element solver for linear elasticity on tetrahedral meshes.
//!
//! The element stiffness formula is a deliberate placeholder (a single
//! entry proportional to the Young's modulus); what this module pins down
//! is the assembly, boundary-condition and elimination mechanics: exactly
//! which inputs are rejected and with which message, and that every
//! Dirichlet-prescribed degree of freedom comes back with its prescribed
//! value.

use vstd::prelude::*;

use crate::jsonio::{chars_to_string, dec_u64, w_lit, w_u64};
use crate::kernel::{
    dot, f_add, f_eq, f_mul, f_of, f_one, f_zero, lemma_dot_partial_single,
    lemma_dot_partial_wf, lemma_f_add_cong, lemma_f_add_wf, lemma_f_add_zero, lemma_f_eq_trans,
    lemma_f_mul_one, mat_wf, solve_dense, vec_wf, Frac, Matrix, Rat, Vector,
};
use crate::solver::{Solver, SolverSolutionData};
use crate::{bc_wf, BoundaryCondition, EngineError, Material, Mesh, ProblemDefinition, Region};

verus! {

pub struct FemSolver;

// --- Names and messages ---

pub open spec fn tetra_name() -> Seq<char> {
    seq!['T', 'e', 't', 'r', 'a', 'h', 'e', 'd', 'r', 'o', 'n']
}

pub open spec fn dirichlet_name() -> Seq<char> {
    seq!['D', 'i', 'r', 'i', 'c', 'h', 'l', 'e', 't']
}

pub open spec fn force_name() -> Seq<char> {
    seq!['F', 'o', 'r', 'c', 'e']
}

proof fn lemma_fem_names()
    ensures
        "Tetrahedron"@ == tetra_name(),
        "Dirichlet"@ == dirichlet_name(),
        "Force"@ == force_name(),
{
    reveal_strlit("Tetrahedron");
    reveal_strlit("Dirichlet");
    reveal_strlit("Force");
    assert("Tetrahedron"@ =~= tetra_name());
    assert("Dirichlet"@ =~= dirichlet_name());
    assert("Force"@ =~= force_name());
}

/// The message naming a malformed element.
pub open spec fn elem_msg(e: Seq<usize>, k: int) -> Seq<char> {
    if e.len() != 4 {
        "Element "@ + dec_u64(k as nat) + " is not a tetrahedron (node count: "@ + dec_u64(
            e.len(),
        ) + ")"@
    } else {
        "Element "@ + dec_u64(k as nat) + " contains out-of-bounds node index."@
    }
}

/// The message naming an unsupported boundary-condition type.
pub open spec fn bc_msg(t: Seq<char>) -> Seq<char> {
    "Unsupported boundary condition type: "@ + t
}

/// The message naming an unsupported element type.
pub open spec fn type_msg(t: Seq<char>) -> Seq<char> {
    "FemSolver currently only supports Tetrahedral meshes, but found "@ + t
}

/// The result is the named solver failure.
pub open spec fn is_solver_failed(r: Result<SolverSolutionData, EngineError>, m: Seq<char>)
    -> bool {
    r matches Err(e) && e matches EngineError::SolverFailed(s) && s@ == m
}

// --- Element validation ---

/// A valid tetrahedron: four node indices, each inside the node list.
pub open spec fn elem_ok(e: Seq<usize>, nnodes: int) -> bool {
    e.len() == 4 && forall|i: int| 0 <= i < e.len() ==> (#[trigger] e[i]) < nnodes
}

/// The first malformed element at or after `k`, if any.
pub open spec fn first_bad_elem(elems: Seq<Vec<usize>>, nnodes: int, k: int) -> Option<int>
    decreases elems.len() - k,
{
    if k < 0 || k >= elems.len() {
        Option::None
    } else if !elem_ok(elems[k]@, nnodes) {
        Option::Some(k)
    } else {
        first_bad_elem(elems, nnodes, k + 1)
    }
}

proof fn lemma_fbe_skip(elems: Seq<Vec<usize>>, nnodes: int, k: int)
    requires
        0 <= k <= elems.len(),
        forall|j: int| 0 <= j < k ==> elem_ok((#[trigger] elems[j])@, nnodes),
    ensures
        first_bad_elem(elems, nnodes, 0) == first_bad_elem(elems, nnodes, k),
    decreases k,
{
    if k > 0 {
        lemma_fbe_skip(elems, nnodes, k - 1);
    }
}

/// The message for element `k`, built character by character.
fn build_elem_msg(e: &Vec<usize>, k: usize) -> (r: String)
    requires
        k <= u64::MAX,
        e@.len() <= u64::MAX,
    ensures
        r@ == elem_msg(e@, k as int),
{
    let mut out: Vec<char> = Vec::new();
    w_lit(&mut out, "Element ");
    w_u64(&mut out, k as u64);
    if e.len() != 4 {
        w_lit(&mut out, " is not a tetrahedron (node count: ");
        w_u64(&mut out, e.len() as u64);
        w_lit(&mut out, ")");
    } else {
        w_lit(&mut out, " contains out-of-bounds node index.");
    }
    chars_to_string(&out)
}

/// Rejects the first malformed element, naming its index.
#[verifier::loop_isolation(false)]
fn check_elements(elems: &Vec<Vec<usize>>, nnodes: usize) -> (r: Result<(), EngineError>)
    ensures
        r is Ok <==> first_bad_elem(elems@, nnodes as int, 0) is None,
        r matches Err(e) ==> (first_bad_elem(elems@, nnodes as int, 0) matches Some(k)
            && e matches EngineError::SolverFailed(m) && m@ == elem_msg(elems@[k]@, k)),
{
    let n = elems.len();
    for k in 0..n
        invariant
            n == elems@.len(),
            n <= usize::MAX,
            forall|j: int| 0 <= j < k ==> elem_ok((#[trigger] elems@[j])@, nnodes as int),
    {
        let e = &elems[k];
        if e.len() != 4 {
            proof {
                lemma_fbe_skip(elems@, nnodes as int, k as int);
            }
            return Result::Err(EngineError::SolverFailed(build_elem_msg(e, k)));
        }
        let mut ok = true;
        for i in 0..e.len()
            invariant
                e@.len() == 4,
                ok <==> (forall|q: int| 0 <= q < i ==> (#[trigger] e@[q]) < nnodes),
        {
            if e[i] >= nnodes {
                ok = false;
            }
        }
        if !ok {
            proof {
                lemma_fbe_skip(elems@, nnodes as int, k as int);
            }
            return Result::Err(EngineError::SolverFailed(build_elem_msg(e, k)));
        }
    }
    proof {
        lemma_fbe_skip(elems@, nnodes as int, n as int);
    }
    Result::Ok(())
}

// --- Boundary-condition validation and collection ---

/// The node set of the named region, taking the first region of that name.
pub open spec fn region_lookup(regions: Seq<Region>, name: Seq<char>) -> Option<Seq<usize>>
    decreases regions.len(),
{
    if regions.len() == 0 {
        Option::None
    } else if regions[0].name@ == name {
        Option::Some(regions[0].nodes@)
    } else {
        region_lookup(regions.drop_first(), name)
    }
}

/// A successful lookup names the node set of some region in the list.
proof fn lemma_region_lookup_member(regions: Seq<Region>, name: Seq<char>)
    requires
        region_lookup(regions, name) is Some,
    ensures
        exists|i: int|
            0 <= i < regions.len() && (#[trigger] regions[i]).nodes@ == region_lookup(
                regions,
                name,
            )->0,
    decreases regions.len(),
{
    if regions[0].name@ == name {
        assert(regions[0].nodes@ == region_lookup(regions, name)->0);
    } else {
        lemma_region_lookup_member(regions.drop_first(), name);
        let j = choose|j: int|
            0 <= j < regions.drop_first().len() && (#[trigger] regions.drop_first()[j]).nodes@
                == region_lookup(regions.drop_first(), name)->0;
        assert(regions[j + 1].nodes@ == region_lookup(regions, name)->0);
    }
}

/// A boundary condition whose type is not understood, on a region that
/// resolves to at least one node.
pub open spec fn bc_bad(bc: BoundaryCondition, regions: Seq<Region>) -> bool {
    &&& bc.condition_type@ != dirichlet_name()
    &&& bc.condition_type@ != force_name()
    &&& (region_lookup(regions, bc.region@) matches Some(ns) && ns.len() > 0)
}

/// The first unsupported boundary condition at or after `k`, if any.
pub open spec fn first_bad_bc(bcs: Seq<BoundaryCondition>, regions: Seq<Region>, k: int)
    -> Option<int>
    decreases bcs.len() - k,
{
    if k < 0 || k >= bcs.len() {
        Option::None
    } else if bc_bad(bcs[k], regions) {
        Option::Some(k)
    } else {
        first_bad_bc(bcs, regions, k + 1)
    }
}

proof fn lemma_fbb_skip(bcs: Seq<BoundaryCondition>, regions: Seq<Region>, k: int)
    requires
        0 <= k <= bcs.len(),
        forall|j: int| 0 <= j < k ==> !bc_bad(#[trigger] bcs[j], regions),
    ensures
        first_bad_bc(bcs, regions, 0) == first_bad_bc(bcs, regions, k),
    decreases k,
{
    if k > 0 {
        lemma_fbb_skip(bcs, regions, k - 1);
    }
}

/// Looks the named region up, taking the first region of that name.
#[verifier::loop_isolation(false)]
fn find_region<'a>(regions: &'a Vec<Region>, name: &String) -> (r: Option<&'a Vec<usize>>)
    ensures
        match r {
            Option::Some(ns) => region_lookup(regions@, name@) == Option::Some(ns@),
            Option::None => region_lookup(regions@, name@) is None,
        },
{
    let n = regions.len();
    proof {
        assert(regions@.skip(0) =~= regions@);
    }
    for i in 0..n
        invariant
            n == regions@.len(),
            forall|j: int| 0 <= j < i ==> (#[trigger] regions@[j]).name@ != name@,
            region_lookup(regions@, name@) == region_lookup(regions@.skip(i as int), name@),
    {
        if regions[i].name == *name {
            proof {
                assert(regions@.skip(i as int)[0] == regions@[i as int]);
            }
            return Option::Some(&regions[i].nodes);
        }
        proof {
            assert(regions@.skip(i as int)[0] == regions@[i as int]);
            assert(regions@.skip(i as int).drop_first() =~= regions@.skip(i as int + 1));
        }
    }
    proof {
        assert(regions@.skip(n as int) =~= Seq::<Region>::empty());
    }
    Option::None
}

/// Rejects the first boundary condition with an unsupported type on a
/// matched, nonempty region.
#[verifier::loop_isolation(false)]
fn check_bcs(bcs: &Vec<BoundaryCondition>, regions: &Vec<Region>) -> (r: Result<
    (),
    EngineError,
>)
    ensures
        r is Ok <==> first_bad_bc(bcs@, regions@, 0) is None,
        r matches Err(e) ==> (first_bad_bc(bcs@, regions@, 0) matches Some(k) && e matches
            EngineError::SolverFailed(m) && m@ == bc_msg(bcs@[k].condition_type@)),
{
    proof {
        lemma_fem_names();
    }
    let dname = String::from_str("Dirichlet");
    let fname = String::from_str("Force");
    let n = bcs.len();
    for k in 0..n
        invariant
            n == bcs@.len(),
            dname@ == dirichlet_name(),
            fname@ == force_name(),
            forall|j: int| 0 <= j < k ==> !bc_bad(#[trigger] bcs@[j], regions@),
    {
        let bc = &bcs[k];
        let is_d = bc.condition_type == dname;
        let is_f = bc.condition_type == fname;
        if !is_d && !is_f {
            match find_region(regions, &bc.region) {
                Option::Some(ns) => {
                    if ns.len() > 0 {
                        proof {
                            lemma_fbb_skip(bcs@, regions@, k as int);
                        }
                        let mut out = String::from_str(
                            "Unsupported boundary condition type: ",
                        );
                        out.append(bc.condition_type.as_str());
                        return Result::Err(EngineError::SolverFailed(out));
                    }
                },
                Option::None => {},
            }
        }
    }
    proof {
        lemma_fbb_skip(bcs@, regions@, n as int);
    }
    Result::Ok(())
}

// --- The prescription list ---

/// The prescriptions of one node of a Dirichlet condition: one entry per
/// present component.
pub open spec fn presc_axis(value: Seq<Option<Rat>>, node: int, k: int) -> Seq<(usize, Rat)> {
    match value[k] {
        Option::Some(v) => seq![(((3 * node + k) as usize), v)],
        Option::None => Seq::empty(),
    }
}

pub open spec fn presc_node(value: Seq<Option<Rat>>, node: int) -> Seq<(usize, Rat)> {
    presc_axis(value, node, 0) + presc_axis(value, node, 1) + presc_axis(value, node, 2)
}

/// The prescriptions of the first `j` nodes of one Dirichlet condition.
pub open spec fn presc_nodes(value: Seq<Option<Rat>>, ns: Seq<usize>, j: int) -> Seq<
    (usize, Rat),
>
    decreases j,
{
    if j <= 0 {
        Seq::empty()
    } else {
        presc_nodes(value, ns, j - 1) + presc_node(value, ns[j - 1] as int)
    }
}

/// The prescriptions contributed by one boundary condition.
pub open spec fn bc_presc(bc: BoundaryCondition, regions: Seq<Region>) -> Seq<(usize, Rat)> {
    if bc.condition_type@ == dirichlet_name() {
        match region_lookup(regions, bc.region@) {
            Option::Some(ns) => presc_nodes(bc.value@, ns, ns.len() as int),
            Option::None => Seq::empty(),
        }
    } else {
        Seq::empty()
    }
}

/// The prescriptions of the first `k` boundary conditions, in order.
pub open spec fn presc_list(bcs: Seq<BoundaryCondition>, regions: Seq<Region>, k: int) -> Seq<
    (usize, Rat),
>
    decreases k,
{
    if k <= 0 {
        Seq::empty()
    } else {
        presc_list(bcs, regions, k - 1) + bc_presc(bcs[k - 1], regions)
    }
}

/// The force contributions of one boundary condition, in application
/// order: one entry per present component of each node of its region.
pub open spec fn bc_force(bc: BoundaryCondition, regions: Seq<Region>) -> Seq<(usize, Rat)> {
    if bc.condition_type@ == force_name() {
        match region_lookup(regions, bc.region@) {
            Option::Some(ns) => presc_nodes(bc.value@, ns, ns.len() as int),
            Option::None => Seq::empty(),
        }
    } else {
        Seq::empty()
    }
}

/// The force contributions of the first `k` boundary conditions, in order.
pub open spec fn force_list(bcs: Seq<BoundaryCondition>, regions: Seq<Region>, k: int) -> Seq<
    (usize, Rat),
>
    decreases k,
{
    if k <= 0 {
        Seq::empty()
    } else {
        force_list(bcs, regions, k - 1) + bc_force(bcs[k - 1], regions)
    }
}

/// The additive total of the contributions to one degree of freedom.
pub open spec fn force_sum(fl: Seq<(usize, Rat)>, d: int) -> Frac
    decreases fl.len(),
{
    if fl.len() == 0 {
        f_zero()
    } else {
        f_add(
            force_sum(fl.drop_last(), d),
            if fl.last().0 == d {
                f_of(fl.last().1)
            } else {
                f_zero()
            },
        )
    }
}

proof fn lemma_force_sum_wf(fl: Seq<(usize, Rat)>, d: int, n: int)
    requires
        presc_wf(fl, n),
    ensures
        crate::kernel::f_wf(force_sum(fl, d)),
    decreases fl.len(),
{
    if fl.len() > 0 {
        assert(forall|j: int|
            0 <= j < fl.drop_last().len() ==> (#[trigger] fl.drop_last()[j]).0 < n
                && fl.drop_last()[j].1.wf());
        lemma_force_sum_wf(fl.drop_last(), d, n);
        let tail = if fl.last().0 == d {
            f_of(fl.last().1)
        } else {
            f_zero()
        };
        lemma_f_add_wf(force_sum(fl.drop_last(), d), tail);
    }
}

/// The value of the last prescription of DOF `d`, if any: later conditions
/// overwrite earlier ones.
pub open spec fn last_presc(ps: Seq<(usize, Rat)>, d: int) -> Option<Rat>
    decreases ps.len(),
{
    if ps.len() == 0 {
        Option::None
    } else if ps.last().0 == d {
        Option::Some(ps.last().1)
    } else {
        last_presc(ps.drop_last(), d)
    }
}

/// A prescribed DOF lies below the bound and its value is well formed.
proof fn lemma_last_presc_wf(ps: Seq<(usize, Rat)>, d: int, n: int)
    requires
        presc_wf(ps, n),
        last_presc(ps, d) is Some,
    ensures
        0 <= d < n,
        last_presc(ps, d)->0.wf(),
    decreases ps.len(),
{
    if ps.len() > 0 {
        if ps.last().0 == d {
            assert(ps[ps.len() - 1].0 < n && ps[ps.len() - 1].1.wf());
        } else {
            assert(forall|j: int|
                0 <= j < ps.drop_last().len() ==> (#[trigger] ps.drop_last()[j]).0 < n
                    && ps.drop_last()[j].1.wf());
            lemma_last_presc_wf(ps.drop_last(), d, n);
        }
    }
}

/// The degree of freedom appears among the prescriptions.
pub open spec fn presc_dof(ps: Seq<(usize, Rat)>, d: int) -> bool {
    exists|j: int| 0 <= j < ps.len() && (#[trigger] ps[j]).0 == d
}

/// Appearing in the first `t` prescriptions.
pub open spec fn presc_in(ps: Seq<(usize, Rat)>, t: int, d: int) -> bool {
    exists|j: int| 0 <= j < t && (#[trigger] ps[j]).0 == d
}

/// A degree of freedom has a last prescription exactly when it appears.
pub proof fn lemma_presc_dof_last(ps: Seq<(usize, Rat)>, d: int)
    ensures
        presc_dof(ps, d) <==> last_presc(ps, d) is Some,
    decreases ps.len(),
{
    if ps.len() == 0 {
    } else if ps.last().0 == d {
        assert(ps[ps.len() - 1].0 == d);
    } else {
        lemma_presc_dof_last(ps.drop_last(), d);
        if presc_dof(ps, d) {
            let j = choose|j: int| 0 <= j < ps.len() && (#[trigger] ps[j]).0 == d;
            assert(ps.drop_last()[j] == ps[j]);
            assert(presc_dof(ps.drop_last(), d));
        }
        if presc_dof(ps.drop_last(), d) {
            let j = choose|j: int|
                0 <= j < ps.drop_last().len() && (#[trigger] ps.drop_last()[j]).0 == d;
            assert(ps[j].0 == d);
        }
    }
}

/// Every prescription targets a DOF below `n` and carries a well-formed
/// value.
pub open spec fn presc_wf(ps: Seq<(usize, Rat)>, n: int) -> bool {
    forall|j: int| 0 <= j < ps.len() ==> (#[trigger] ps[j]).0 < n && ps[j].1.wf()
}

/// Appends one entry per present component of each node in the region.
#[verifier::loop_isolation(false)]
#[verifier::rlimit(100)]
fn push_node_entries(
    ps: &mut Vec<(usize, Rat)>,
    value: &Vec<Option<Rat>>,
    ns: &Vec<usize>,
    nnodes: usize,
)
    requires
        value@.len() == 3,
        forall|k: int|
            0 <= k < 3 ==> (match #[trigger] value@[k] {
                Option::Some(v) => v.wf(),
                Option::None => true,
            }),
        forall|q: int| 0 <= q < ns@.len() ==> (#[trigger] ns@[q]) < nnodes,
        nnodes * 3 <= usize::MAX,
        presc_wf(old(ps)@, 3 * nnodes as int),
    ensures
        final(ps)@ == old(ps)@ + presc_nodes(value@, ns@, ns@.len() as int),
        presc_wf(final(ps)@, 3 * nnodes as int),
{
    let m = ns.len();
    for j in 0..m
        invariant
            m == ns@.len(),
            nnodes * 3 <= usize::MAX,
            value@.len() == 3,
            forall|k: int|
                0 <= k < 3 ==> (match #[trigger] value@[k] {
                    Option::Some(v) => v.wf(),
                    Option::None => true,
                }),
            forall|q: int| 0 <= q < ns@.len() ==> (#[trigger] ns@[q]) < nnodes,
            ps@ == old(ps)@ + presc_nodes(value@, ns@, j as int),
            presc_wf(ps@, 3 * nnodes as int),
    {
        let node = ns[j];
        let ghost before = ps@;
        match value[0] {
            Option::Some(v) => {
                ps.push((node * 3 + 0, v));
            },
            Option::None => {},
        }
        match value[1] {
            Option::Some(v) => {
                ps.push((node * 3 + 1, v));
            },
            Option::None => {},
        }
        match value[2] {
            Option::Some(v) => {
                ps.push((node * 3 + 2, v));
            },
            Option::None => {},
        }
        proof {
            assert(ps@ =~= before + presc_node(value@, ns@[j as int] as int));
            assert(presc_nodes(value@, ns@, j as int + 1) =~= presc_nodes(
                value@,
                ns@,
                j as int,
            ) + presc_node(value@, ns@[j as int] as int));
            assert(ps@ =~= old(ps)@ + presc_nodes(value@, ns@, j as int + 1));
        }
    }
}

/// Gathers the Dirichlet prescriptions of all boundary conditions, in
/// order.
#[verifier::loop_isolation(false)]
#[verifier::rlimit(100)]
fn collect_dirichlet(bcs: &Vec<BoundaryCondition>, regions: &Vec<Region>, nnodes: usize) -> (r:
    Vec<(usize, Rat)>)
    requires
        forall|i: int| 0 <= i < bcs@.len() ==> bc_wf(#[trigger] bcs@[i]),
        forall|i: int, k: int|
            0 <= i < regions@.len() && 0 <= k < (#[trigger] regions@[i]).nodes@.len()
                ==> (#[trigger] regions@[i].nodes@[k]) < nnodes,
        nnodes * 3 <= usize::MAX,
    ensures
        r@ == presc_list(bcs@, regions@, bcs@.len() as int),
        presc_wf(r@, 3 * nnodes as int),
{
    proof {
        lemma_fem_names();
    }
    let dname = String::from_str("Dirichlet");
    let mut ps: Vec<(usize, Rat)> = Vec::new();
    let n = bcs.len();
    for k in 0..n
        invariant
            n == bcs@.len(),
            dname@ == dirichlet_name(),
            nnodes * 3 <= usize::MAX,
            forall|i: int| 0 <= i < bcs@.len() ==> bc_wf(#[trigger] bcs@[i]),
            forall|i: int, q: int|
                0 <= i < regions@.len() && 0 <= q < (#[trigger] regions@[i]).nodes@.len()
                    ==> (#[trigger] regions@[i].nodes@[q]) < nnodes,
            ps@ == presc_list(bcs@, regions@, k as int),
            presc_wf(ps@, 3 * nnodes as int),
    {
        let bc = &bcs[k];
        if bc.condition_type == dname {
            match find_region(regions, &bc.region) {
                Option::Some(ns) => {
                    proof {
                        assert(region_lookup(regions@, bc.region@) == Option::Some(ns@));
                        lemma_region_lookup_member(regions@, bc.region@);
                        let wi = choose|ii: int|
                            0 <= ii < regions@.len() && (#[trigger] regions@[ii]).nodes@
                                == region_lookup(regions@, bc.region@)->0;
                        assert forall|q: int|
                            0 <= q < ns@.len() implies (#[trigger] ns@[q]) < nnodes by {
                            assert(regions@[wi].nodes@[q] < nnodes);
                        }
                    }
                    push_node_entries(&mut ps, &bc.value, ns, nnodes);
                    proof {
                        assert(bc_presc(bcs@[k as int], regions@) == presc_nodes(
                            bc.value@,
                            ns@,
                            ns@.len() as int,
                        ));
                    }
                },
                Option::None => {
                    proof {
                        assert(bc_presc(bcs@[k as int], regions@) =~= Seq::<
                            (usize, Rat),
                        >::empty());
                        assert(ps@ =~= presc_list(bcs@, regions@, k as int) + bc_presc(
                            bcs@[k as int],
                            regions@,
                        ));
                    }
                },
            }
        } else {
            proof {
                assert(bc_presc(bcs@[k as int], regions@) =~= Seq::<(usize, Rat)>::empty());
            }
        }
        proof {
            assert(ps@ =~= presc_list(bcs@, regions@, k as int + 1));
        }
    }
    ps
}

// --- Assembly, forces and elimination ---

/// The local stiffness value of a pair of local indices, as a fraction:
/// the placeholder puts the Young's modulus at (0,0) and zero elsewhere.
pub open spec fn ke_frac(m: Material, la: int, lb: int) -> Frac {
    if la == 0 && lb == 0 {
        f_of(m.youngs_modulus)
    } else {
        f_zero()
    }
}

/// The global row of local pair index `t` of an element: the node of its
/// row-local index, times three, plus the component.
pub open spec fn pair_gr(e: Seq<usize>, t: int) -> int {
    (e[t / 36] as int) * 3 + (t / 3) % 3
}

/// The global column of local pair index `t` of an element.
pub open spec fn pair_gc(e: Seq<usize>, t: int) -> int {
    (e[(t / 9) % 4] as int) * 3 + t % 3
}

/// The stiffness value of local pair index `t`.
pub open spec fn pair_ke(m: Material, t: int) -> Frac {
    ke_frac(m, (t / 36) * 3 + (t / 3) % 3, ((t / 9) % 4) * 3 + t % 3)
}

/// The contribution of the first `t` of the 144 local pairs of one
/// element to global entry (r, c): pairs that scatter there accumulate.
pub open spec fn elem_contrib(e: Seq<usize>, m: Material, r: int, c: int, t: int) -> Frac
    decreases t,
{
    if t <= 0 {
        f_zero()
    } else {
        f_add(
            elem_contrib(e, m, r, c, t - 1),
            if pair_gr(e, t - 1) == r && pair_gc(e, t - 1) == c {
                pair_ke(m, t - 1)
            } else {
                f_zero()
            },
        )
    }
}

/// The assembled global entry (r, c): the sum of the contributions of the
/// first `k` elements; elements sharing a node accumulate additively.
pub open spec fn assembled(
    elems: Seq<Vec<usize>>,
    m: Material,
    r: int,
    c: int,
    k: int,
) -> Frac
    decreases k,
{
    if k <= 0 {
        f_zero()
    } else {
        f_add(assembled(elems, m, r, c, k - 1), elem_contrib(elems[k - 1]@, m, r, c, 144))
    }
}

proof fn lemma_elem_contrib_wf(e: Seq<usize>, m: Material, r: int, c: int, t: int)
    requires
        m.youngs_modulus.wf(),
    ensures
        crate::kernel::f_wf(elem_contrib(e, m, r, c, t)),
    decreases t,
{
    if t > 0 {
        lemma_elem_contrib_wf(e, m, r, c, t - 1);
        lemma_f_add_wf(
            elem_contrib(e, m, r, c, t - 1),
            if pair_gr(e, t - 1) == r && pair_gc(e, t - 1) == c {
                pair_ke(m, t - 1)
            } else {
                f_zero()
            },
        );
    }
}

proof fn lemma_assembled_wf(elems: Seq<Vec<usize>>, m: Material, r: int, c: int, k: int)
    requires
        m.youngs_modulus.wf(),
    ensures
        crate::kernel::f_wf(assembled(elems, m, r, c, k)),
    decreases k,
{
    if k > 0 {
        lemma_assembled_wf(elems, m, r, c, k - 1);
        lemma_elem_contrib_wf(elems[k - 1]@, m, r, c, 144);
        lemma_f_add_wf(
            assembled(elems, m, r, c, k - 1),
            elem_contrib(elems[k - 1]@, m, r, c, 144),
        );
    }
}

/// Addition of fractions is associative on the nose.
proof fn lemma_f_add_assoc(a: Frac, b: Frac, c: Frac)
    ensures
        f_add(f_add(a, b), c) == f_add(a, f_add(b, c)),
{
    let l = f_add(f_add(a, b), c);
    let r = f_add(a, f_add(b, c));
    crate::kernel::lemma_distr_pub(a.n * b.d, b.n * a.d, c.d);
    crate::kernel::lemma_distr_pub(b.n * c.d, c.n * b.d, a.d);
    crate::kernel::lemma_mul3_pub(a.n, b.d, c.d);
    crate::kernel::lemma_mul3_pub(b.n, a.d, c.d);
    crate::kernel::lemma_mul3_pub(b.n, c.d, a.d);
    crate::kernel::lemma_mul3_pub(c.n, a.d, b.d);
    crate::kernel::lemma_mul3_pub(c.n, b.d, a.d);
    crate::kernel::lemma_mul3_pub(a.d, b.d, c.d);
    assert(l.n == r.n);
    assert(l.d == r.d);
}

/// Adding the zero fraction changes nothing, on the nose.
proof fn lemma_f_add_zero_exact(a: Frac)
    by (nonlinear_arith)
    ensures
        f_add(a, f_zero()) == a,
{
}

/// The placeholder element stiffness matrix: a single entry proportional
/// to the Young's modulus, every other entry zero.
#[verifier::loop_isolation(false)]
fn local_stiffness(material: &Material) -> (r: Matrix)
    requires
        material.youngs_modulus.wf(),
    ensures
        mat_wf(r@, 12, 12),
        forall|a: int, b: int|
            0 <= a < 12 && 0 <= b < 12 ==> f_of(#[trigger] r@[a]@[b]) == ke_frac(
                *material,
                a,
                b,
            ),
{
    let mut ke: Matrix = Vec::new();
    for a in 0..12usize
        invariant
            ke@.len() == a,
            forall|i: int| 0 <= i < a ==> (#[trigger] ke@[i])@.len() == 12 && vec_wf(ke@[i]@),
            forall|i: int, q: int|
                0 <= i < a && 0 <= q < 12 ==> f_of(#[trigger] ke@[i]@[q]) == ke_frac(
                    *material,
                    i,
                    q,
                ),
    {
        let mut row: Vec<Rat> = Vec::new();
        for b in 0..12usize
            invariant
                row@.len() == b,
                vec_wf(row@),
                forall|q: int|
                    0 <= q < b ==> f_of(#[trigger] row@[q]) == ke_frac(*material, a as int, q),
        {
            if a == 0 && b == 0 {
                row.push(material.youngs_modulus);
            } else {
                row.push(Rat::zero());
            }
        }
        ke.push(row);
    }
    ke
}

/// Scatter-adds every element's local stiffness into the global matrix:
/// on success every global entry provably carries the accumulated sum of
/// the element contributions that scatter to it.
#[verifier::loop_isolation(false)]
#[verifier::rlimit(100)]
fn assemble(
    elems: &Vec<Vec<usize>>,
    nnodes: usize,
    material: &Material,
    total: usize,
) -> (r: Option<Matrix>)
    requires
        total == 3 * nnodes,
        nnodes * 3 <= usize::MAX,
        material.youngs_modulus.wf(),
        first_bad_elem(elems@, nnodes as int, 0) is None,
    ensures
        r matches Some(m) ==> mat_wf(m@, total as int, total as int) && (forall|rr: int, cc: int|
            0 <= rr < total && 0 <= cc < total ==> f_eq(
                f_of(#[trigger] m@[rr]@[cc]),
                assembled(elems@, *material, rr, cc, elems@.len() as int),
            )),
{
    let ke = local_stiffness(material);
    let mut kg: Matrix = Vec::new();
    for i in 0..total
        invariant
            kg@.len() == i,
            forall|q: int| 0 <= q < i ==> (#[trigger] kg@[q])@.len() == total && vec_wf(
                kg@[q]@,
            ),
            forall|q: int, cc: int|
                0 <= q < i && 0 <= cc < total ==> f_of(#[trigger] kg@[q]@[cc]) == f_zero(),
    {
        let mut row: Vec<Rat> = Vec::new();
        for c in 0..total
            invariant
                row@.len() == c,
                vec_wf(row@),
                forall|cc: int| 0 <= cc < c ==> f_of(#[trigger] row@[cc]) == f_zero(),
        {
            row.push(Rat::zero());
        }
        kg.push(row);
    }
    let ne = elems.len();
    for k in 0..ne
        invariant
            ne == elems@.len(),
            total == 3 * nnodes,
            mat_wf(ke@, 12, 12),
            forall|a: int, b: int|
                0 <= a < 12 && 0 <= b < 12 ==> f_of(#[trigger] ke@[a]@[b]) == ke_frac(
                    *material,
                    a,
                    b,
                ),
            material.youngs_modulus.wf(),
            mat_wf(kg@, total as int, total as int),
            first_bad_elem(elems@, nnodes as int, 0) is None,
            forall|rr: int, cc: int|
                0 <= rr < total && 0 <= cc < total ==> f_eq(
                    f_of(#[trigger] kg@[rr]@[cc]),
                    assembled(elems@, *material, rr, cc, k as int),
                ),
    {
        let e = &elems[k];
        proof {
            assert(elem_ok(elems@[k as int]@, nnodes as int)) by {
                if !elem_ok(elems@[k as int]@, nnodes as int) {
                    lemma_fbe_skip_bad(elems@, nnodes as int, k as int);
                }
            }
        }
        proof {
            assert forall|rr: int, cc: int|
                0 <= rr < total && 0 <= cc < total implies f_eq(
                f_of(#[trigger] kg@[rr]@[cc]),
                f_add(
                    assembled(elems@, *material, rr, cc, k as int),
                    elem_contrib(e@, *material, rr, cc, 0),
                ),
            ) by {
                lemma_f_add_zero_exact(assembled(elems@, *material, rr, cc, k as int));
            }
        }
        for t in 0..144usize
            invariant
                total == 3 * nnodes,
                mat_wf(ke@, 12, 12),
                forall|a: int, b: int|
                    0 <= a < 12 && 0 <= b < 12 ==> f_of(#[trigger] ke@[a]@[b]) == ke_frac(
                        *material,
                        a,
                        b,
                    ),
                material.youngs_modulus.wf(),
                mat_wf(kg@, total as int, total as int),
                elem_ok(e@, nnodes as int),
                e == elems@[k as int],
                k < elems@.len(),
                forall|rr: int, cc: int|
                    0 <= rr < total && 0 <= cc < total ==> f_eq(
                        f_of(#[trigger] kg@[rr]@[cc]),
                        f_add(
                            assembled(elems@, *material, rr, cc, k as int),
                            elem_contrib(e@, *material, rr, cc, t as int),
                        ),
                    ),
        {
            let a = t / 36;
            let b = (t / 9) % 4;
            let di = (t / 3) % 3;
            let dj = t % 3;
            let la = a * 3 + di;
            let lb = b * 3 + dj;
            proof {
                assert((e@[a as int] as int) * 3 + di < total && (e@[b as int] as int) * 3 + dj
                    < total) by (nonlinear_arith)
                    requires
                        e@[a as int] < nnodes,
                        e@[b as int] < nnodes,
                        total == 3 * nnodes,
                        di < 3,
                        dj < 3;
            }
            let gr = e[a] * 3 + di;
            let gc = e[b] * 3 + dj;
            let add_val = ke[la][lb];
            let cur = kg[gr][gc];
            let next = match crate::kernel::rat_add(cur, add_val) {
                Option::Some(v) => v,
                Option::None => {
                    return Option::None;
                },
            };
            let ghost kpre = kg@;
            let ghost oldrow = kg@[gr as int]@;
            let rowref = &mut kg[gr];
            rowref.set(gc, next);
            proof {
                assert(kg@[gr as int]@ =~= oldrow.update(gc as int, next));
                assert(mat_wf(kg@, total as int, total as int));
                let ti = t as int;
                let m = *material;
                assert(pair_gr(e@, ti) == gr as int && pair_gc(e@, ti) == gc as int);
                assert(f_of(add_val) == pair_ke(m, ti));
                assert forall|rr: int, cc: int|
                    0 <= rr < total && 0 <= cc < total implies f_eq(
                    f_of(#[trigger] kg@[rr]@[cc]),
                    f_add(
                        assembled(elems@, m, rr, cc, k as int),
                        elem_contrib(e@, m, rr, cc, ti + 1),
                    ),
                ) by {
                    let ak = assembled(elems@, m, rr, cc, k as int);
                    let ct = elem_contrib(e@, m, rr, cc, ti);
                    lemma_assembled_wf(elems@, m, rr, cc, k as int);
                    lemma_elem_contrib_wf(e@, m, rr, cc, ti);
                    lemma_f_add_wf(ak, ct);
                    if rr == gr as int && cc == gc as int {
                        // the pair scatters here: the sum grows by its value
                        assert(elem_contrib(e@, m, rr, cc, ti + 1) == f_add(
                            ct,
                            pair_ke(m, ti),
                        ));
                        lemma_f_add_cong(f_of(cur), f_add(ak, ct), f_of(add_val), pair_ke(m, ti));
                        lemma_f_add_assoc(ak, ct, pair_ke(m, ti));
                        lemma_elem_contrib_wf(e@, m, rr, cc, ti + 1);
                        lemma_f_add_wf(ak, elem_contrib(e@, m, rr, cc, ti + 1));
                        lemma_f_add_wf(f_of(cur), f_of(add_val));
                        lemma_f_eq_trans(
                            f_of(next),
                            f_add(f_of(cur), f_of(add_val)),
                            f_add(ak, elem_contrib(e@, m, rr, cc, ti + 1)),
                        );
                    } else {
                        // the pair scatters elsewhere: the sum is unchanged
                        assert(elem_contrib(e@, m, rr, cc, ti + 1) == f_add(ct, f_zero()));
                        lemma_f_add_zero_exact(ct);
                        if rr == gr as int {
                            assert(kg@[rr]@[cc] == kpre[rr]@[cc]);
                        } else {
                            assert(kg@[rr] == kpre[rr]);
                        }
                    }
                }
            }
        }
        proof {
            let m = *material;
            assert forall|rr: int, cc: int|
                0 <= rr < total && 0 <= cc < total implies f_eq(
                f_of(#[trigger] kg@[rr]@[cc]),
                assembled(elems@, m, rr, cc, k as int + 1),
            ) by {
                assert(assembled(elems@, m, rr, cc, k as int + 1) == f_add(
                    assembled(elems@, m, rr, cc, k as int),
                    elem_contrib(elems@[k as int]@, m, rr, cc, 144),
                ));
            }
        }
    }
    Option::Some(kg)
}

/// A malformed element before `k` contradicts a clean scan.
proof fn lemma_fbe_skip_bad(elems: Seq<Vec<usize>>, nnodes: int, k: int)
    requires
        0 <= k < elems.len(),
        first_bad_elem(elems, nnodes, 0) is None,
    ensures
        elem_ok(elems[k]@, nnodes),
    decreases k,
{
    lemma_fbe_none(elems, nnodes, 0, k);
}

proof fn lemma_fbe_none(elems: Seq<Vec<usize>>, nnodes: int, j: int, k: int)
    requires
        0 <= j <= k < elems.len(),
        first_bad_elem(elems, nnodes, j) is None,
    ensures
        elem_ok(elems[k]@, nnodes),
    decreases k - j,
{
    if j < k {
        lemma_fbe_none(elems, nnodes, j + 1, k);
    }
}

/// Gathers the Force contributions of all boundary conditions, in order.
#[verifier::loop_isolation(false)]
#[verifier::rlimit(100)]
fn collect_forces(bcs: &Vec<BoundaryCondition>, regions: &Vec<Region>, nnodes: usize) -> (r:
    Vec<(usize, Rat)>)
    requires
        forall|i: int| 0 <= i < bcs@.len() ==> bc_wf(#[trigger] bcs@[i]),
        forall|i: int, k: int|
            0 <= i < regions@.len() && 0 <= k < (#[trigger] regions@[i]).nodes@.len()
                ==> (#[trigger] regions@[i].nodes@[k]) < nnodes,
        nnodes * 3 <= usize::MAX,
    ensures
        r@ == force_list(bcs@, regions@, bcs@.len() as int),
        presc_wf(r@, 3 * nnodes as int),
{
    proof {
        lemma_fem_names();
    }
    let fname = String::from_str("Force");
    let mut ps: Vec<(usize, Rat)> = Vec::new();
    let n = bcs.len();
    for k in 0..n
        invariant
            n == bcs@.len(),
            fname@ == force_name(),
            nnodes * 3 <= usize::MAX,
            forall|i: int| 0 <= i < bcs@.len() ==> bc_wf(#[trigger] bcs@[i]),
            forall|i: int, q: int|
                0 <= i < regions@.len() && 0 <= q < (#[trigger] regions@[i]).nodes@.len()
                    ==> (#[trigger] regions@[i].nodes@[q]) < nnodes,
            ps@ == force_list(bcs@, regions@, k as int),
            presc_wf(ps@, 3 * nnodes as int),
    {
        let bc = &bcs[k];
        if bc.condition_type == fname {
            match find_region(regions, &bc.region) {
                Option::Some(ns) => {
                    proof {
                        assert(region_lookup(regions@, bc.region@) == Option::Some(ns@));
                        lemma_region_lookup_member(regions@, bc.region@);
                        let wi = choose|ii: int|
                            0 <= ii < regions@.len() && (#[trigger] regions@[ii]).nodes@
                                == region_lookup(regions@, bc.region@)->0;
                        assert forall|q: int|
                            0 <= q < ns@.len() implies (#[trigger] ns@[q]) < nnodes by {
                            assert(regions@[wi].nodes@[q] < nnodes);
                        }
                    }
                    push_node_entries(&mut ps, &bc.value, ns, nnodes);
                    proof {
                        assert(bc_force(bcs@[k as int], regions@) == presc_nodes(
                            bc.value@,
                            ns@,
                            ns@.len() as int,
                        ));
                    }
                },
                Option::None => {
                    proof {
                        assert(bc_force(bcs@[k as int], regions@) =~= Seq::<
                            (usize, Rat),
                        >::empty());
                        assert(ps@ =~= force_list(bcs@, regions@, k as int) + bc_force(
                            bcs@[k as int],
                            regions@,
                        ));
                    }
                },
            }
        } else {
            proof {
                assert(bc_force(bcs@[k as int], regions@) =~= Seq::<(usize, Rat)>::empty());
            }
        }
        proof {
            assert(ps@ =~= force_list(bcs@, regions@, k as int + 1));
        }
    }
    ps
}

/// Adds every Force condition's components into the global force vector:
/// contributions to the same degree of freedom accumulate additively.
#[verifier::loop_isolation(false)]
#[verifier::rlimit(100)]
fn apply_forces(
    f: &mut Vector,
    bcs: &Vec<BoundaryCondition>,
    regions: &Vec<Region>,
    nnodes: usize,
) -> (r: Option<()>)
    requires
        forall|i: int| 0 <= i < bcs@.len() ==> bc_wf(#[trigger] bcs@[i]),
        forall|i: int, q: int|
            0 <= i < regions@.len() && 0 <= q < (#[trigger] regions@[i]).nodes@.len()
                ==> (#[trigger] regions@[i].nodes@[q]) < nnodes,
        nnodes * 3 <= usize::MAX,
        old(f)@.len() == 3 * nnodes,
        forall|d: int| 0 <= d < old(f)@.len() ==> f_of(#[trigger] old(f)@[d]) == f_zero(),
    ensures
        final(f)@.len() == old(f)@.len(),
        vec_wf(final(f)@),
        r is Some ==> forall|d: int|
            0 <= d < final(f)@.len() ==> f_eq(
                f_of(#[trigger] final(f)@[d]),
                force_sum(force_list(bcs@, regions@, bcs@.len() as int), d),
            ),
        presc_wf(force_list(bcs@, regions@, bcs@.len() as int), 3 * nnodes as int),
{
    let fl = collect_forces(bcs, regions, nnodes);
    let ghost full = fl@;
    let n = fl.len();
    let total = f.len();
    for t in 0..n
        invariant
            n == fl@.len(),
            fl@ == full,
            presc_wf(full, 3 * nnodes as int),
            total == f@.len(),
            f@.len() == 3 * nnodes,
            vec_wf(f@),
            forall|d: int|
                0 <= d < f@.len() ==> f_eq(
                    f_of(#[trigger] f@[d]),
                    force_sum(full.take(t as int), d),
                ),
    {
        let (d0, v) = fl[t];
        proof {
            assert(full[t as int].0 < 3 * nnodes && full[t as int].1.wf());
            lemma_presc_wf_take(full, t as int, 3 * nnodes as int);
            lemma_force_sum_wf(full.take(t as int), d0 as int, 3 * nnodes as int);
        }
        let cur = f[d0];
        let next = match crate::kernel::rat_add(cur, v) {
            Option::Some(x) => x,
            Option::None => {
                return Option::None;
            },
        };
        let ghost fpre = f@;
        f.set(d0, next);
        proof {
            assert(f@ == fpre.update(d0 as int, next));
            assert(full.take(t as int + 1).drop_last() =~= full.take(t as int));
            assert(full.take(t as int + 1).last() == full[t as int]);
            lemma_presc_wf_take(full, t as int + 1, 3 * nnodes as int);
            assert forall|d: int|
                0 <= d < f@.len() implies f_eq(
                f_of(#[trigger] f@[d]),
                force_sum(full.take(t as int + 1), d),
            ) by {
                lemma_force_sum_wf(full.take(t as int), d, 3 * nnodes as int);
                let prev_sum = force_sum(full.take(t as int), d);
                if d == d0 as int {
                    lemma_f_add_cong(f_of(cur), prev_sum, f_of(v), f_of(v));
                    lemma_f_add_wf(prev_sum, f_of(v));
                    lemma_f_eq_trans(
                        f_of(next),
                        f_add(f_of(cur), f_of(v)),
                        force_sum(full.take(t as int + 1), d),
                    );
                } else {
                    assert(f@[d] == fpre[d]);
                    lemma_f_add_zero(prev_sum, f_zero());
                    lemma_f_add_wf(prev_sum, f_zero());
                    lemma_f_eq_trans(
                        f_of(f@[d]),
                        prev_sum,
                        force_sum(full.take(t as int + 1), d),
                    );
                }
            }
        }
    }
    proof {
        assert(full.take(n as int) =~= full);
    }
    Option::Some(())
}

/// The row holds one on the diagonal and zero elsewhere, exactly.
pub open spec fn unit_row(m: Seq<Vec<Rat>>, d: int, n: int) -> bool {
    forall|c: int|
        0 <= c < n ==> f_of((#[trigger] m[d]@[c])) == (if c == d {
            f_one()
        } else {
            f_zero()
        })
}

/// A prefix of a well-formed prescription list is well formed.
proof fn lemma_presc_wf_take(ps: Seq<(usize, Rat)>, t: int, n: int)
    requires
        presc_wf(ps, n),
        0 <= t <= ps.len(),
    ensures
        presc_wf(ps.take(t), n),
{
    assert forall|j: int|
        0 <= j < ps.take(t).len() implies (#[trigger] ps.take(t)[j]).0 < n && ps.take(t)[j].1
        .wf() by {
        assert(ps.take(t)[j] == ps[j]);
    }
}

/// The last prescription of a DOF stands at some index after which the
/// DOF is never prescribed again.
proof fn lemma_last_presc_char(ps: Seq<(usize, Rat)>, d: int)
    requires
        last_presc(ps, d) is Some,
    ensures
        exists|j: int|
            0 <= j < ps.len() && (#[trigger] ps[j]).0 == d && ps[j].1 == last_presc(ps, d)->0
                && (forall|j2: int| j < j2 < ps.len() ==> (#[trigger] ps[j2]).0 != d),
    decreases ps.len(),
{
    if ps.last().0 == d {
        let j = ps.len() - 1;
        assert(ps[j].0 == d && ps[j].1 == last_presc(ps, d)->0 && (forall|j2: int|
            j < j2 < ps.len() ==> (#[trigger] ps[j2]).0 != d));
    } else {
        lemma_last_presc_char(ps.drop_last(), d);
        let j = choose|j: int|
            0 <= j < ps.drop_last().len() && (#[trigger] ps.drop_last()[j]).0 == d
                && ps.drop_last()[j].1 == last_presc(ps.drop_last(), d)->0 && (forall|j2: int|
                j < j2 < ps.drop_last().len() ==> (#[trigger] ps.drop_last()[j2]).0 != d);
        assert(ps[j] == ps.drop_last()[j]);
        assert forall|j2: int| j < j2 < ps.len() implies (#[trigger] ps[j2]).0 != d by {
            if j2 < ps.len() - 1 {
                assert(ps.drop_last()[j2].0 != d);
            }
        }
        assert(ps[j].0 == d && ps[j].1 == last_presc(ps, d)->0);
    }
}

/// Enforces every prescription by row and column elimination: the row
/// becomes an identity row and the right-hand side takes the prescribed
/// value, later prescriptions of the same DOF overwriting earlier ones.
#[verifier::loop_isolation(false)]
#[verifier::rlimit(100)]
fn eliminate(k: &mut Matrix, f: &mut Vector, ps: &Vec<(usize, Rat)>, total: usize)
    requires
        mat_wf(old(k)@, total as int, total as int),
        old(f)@.len() == total,
        vec_wf(old(f)@),
        presc_wf(ps@, total as int),
    ensures
        mat_wf(final(k)@, total as int, total as int),
        final(f)@.len() == total,
        vec_wf(final(f)@),
        forall|d: int|
            0 <= d < total ==> ((#[trigger] last_presc(ps@, d)) matches Some(v) ==> unit_row(
                final(k)@,
                d,
                total as int,
            ) && f_of(final(f)@[d]) == f_of(v)),
        forall|r2: int, c: int|
            #![trigger final(k)@[r2]@[c]]
            0 <= r2 < total && 0 <= c < total && !presc_dof(ps@, r2) && presc_dof(ps@, c)
                ==> f_of(final(k)@[r2]@[c]) == f_zero(),
        forall|r2: int, c: int|
            #![trigger final(k)@[r2]@[c]]
            0 <= r2 < total && 0 <= c < total && !presc_dof(ps@, r2) && !presc_dof(ps@, c)
                ==> final(k)@[r2]@[c] == old(k)@[r2]@[c],
        forall|d: int|
            0 <= d < total && !presc_dof(ps@, d) ==> #[trigger] final(f)@[d] == old(f)@[d],
{
    let n = ps.len();
    // first pass: turn each prescribed row into an identity row and zero
    // its column everywhere else
    for t in 0..n
        invariant
            n == ps@.len(),
            mat_wf(k@, total as int, total as int),
            forall|j: int| 0 <= j < t ==> unit_row(k@, (#[trigger] ps@[j]).0 as int, total as int),
            forall|r2: int, c: int|
                #![trigger k@[r2]@[c]]
                0 <= r2 < total && 0 <= c < total && !presc_dof(ps@, r2) && presc_in(
                    ps@,
                    t as int,
                    c,
                ) ==> f_of(k@[r2]@[c]) == f_zero(),
            forall|r2: int, c: int|
                #![trigger k@[r2]@[c]]
                0 <= r2 < total && 0 <= c < total && !presc_dof(ps@, r2) && !presc_in(
                    ps@,
                    t as int,
                    c,
                ) ==> k@[r2]@[c] == old(k)@[r2]@[c],
    {
        let (d, _v) = ps[t];
        proof {
            assert(ps@[t as int].0 < total && ps@[t as int].1.wf());
        }
        // replace row d with the identity row
        let mut row: Vec<Rat> = Vec::new();
        for c in 0..total
            invariant
                row@.len() == c,
                vec_wf(row@),
                d < total,
                forall|q: int|
                    0 <= q < c ==> f_of(#[trigger] row@[q]) == (if q == d as int {
                        f_one()
                    } else {
                        f_zero()
                    }),
        {
            if c == d {
                row.push(Rat::one());
            } else {
                row.push(Rat::zero());
            }
        }
        let ghost kpre = k@;
        k.set(d, row);
        proof {
            assert forall|j: int|
                0 <= j < t implies unit_row(k@, (#[trigger] ps@[j]).0 as int, total as int) by {
                let dd = ps@[j].0 as int;
                assert(unit_row(kpre, dd, total as int));
                if dd != d as int {
                    assert(k@[dd] == kpre[dd]);
                } else {
                    assert forall|c: int|
                        0 <= c < total implies f_of(#[trigger] k@[dd]@[c]) == (if c == dd {
                            f_one()
                        } else {
                            f_zero()
                        }) by {}
                }
            }
            assert(presc_dof(ps@, d as int)) by {
                assert(ps@[t as int].0 == d);
            }
            assert forall|r2: int|
                0 <= r2 < total && !presc_dof(ps@, r2) implies k@[r2] == kpre[r2] by {
                assert(r2 != d as int);
            }
        }
        // zero column d in every other row; every entry written is a zero
        // that the unit rows already demand
        for r in 0..total
            invariant
                d < total,
                mat_wf(k@, total as int, total as int),
                unit_row(k@, d as int, total as int),
                forall|j: int|
                    0 <= j < t ==> unit_row(k@, (#[trigger] ps@[j]).0 as int, total as int),
                forall|r2: int, c: int|
                    #![trigger k@[r2]@[c]]
                    0 <= r2 < total && 0 <= c < total && !presc_dof(ps@, r2) && (presc_in(
                        ps@,
                        t as int,
                        c,
                    ) || (c == d as int && r2 < r as int)) ==> f_of(k@[r2]@[c]) == f_zero(),
                forall|r2: int, c: int|
                    #![trigger k@[r2]@[c]]
                    0 <= r2 < total && 0 <= c < total && !presc_dof(ps@, r2) && !presc_in(
                        ps@,
                        t as int,
                        c,
                    ) && !(c == d as int && r2 < r as int) ==> k@[r2]@[c] == old(k)@[r2]@[c],
        {
            if r != d {
                let ghost k0 = k@;
                let ghost oldrow = k@[r as int]@;
                let rr = &mut k[r];
                rr.set(d, Rat::zero());
                proof {
                    assert(k@[r as int]@ =~= oldrow.update(d as int, Rat { num: 0, den: 1 }));
                    assert(mat_wf(k@, total as int, total as int));
                    assert(unit_row(k@, d as int, total as int)) by {
                        assert(k@[d as int] == k0[d as int]);
                        assert(unit_row(k0, d as int, total as int));
                    }
                    assert forall|j: int|
                        0 <= j < t implies unit_row(
                        k@,
                        (#[trigger] ps@[j]).0 as int,
                        total as int,
                    ) by {
                        let dd = ps@[j].0 as int;
                        assert(unit_row(k0, dd, total as int));
                        if dd == r as int {
                            assert forall|c: int|
                                0 <= c < total implies f_of(#[trigger] k@[dd]@[c]) == (if c
                                == dd {
                                f_one()
                            } else {
                                f_zero()
                            }) by {
                                if c != d as int {
                                    assert(k@[dd]@[c] == k0[dd]@[c]);
                                }
                            }
                        } else {
                            assert(k@[dd] == k0[dd]);
                        }
                    }
                    assert forall|r2: int, c: int|
                        #![trigger k@[r2]@[c]]
                        0 <= r2 < total && 0 <= c < total && !presc_dof(ps@, r2) && (presc_in(
                            ps@,
                            t as int,
                            c,
                        ) || (c == d as int && r2 < r as int + 1)) implies f_of(k@[r2]@[c])
                        == f_zero() by {
                        if r2 == r as int {
                            if c != d as int {
                                assert(k@[r2]@[c] == k0[r2]@[c]);
                            }
                        } else {
                            assert(k@[r2] == k0[r2]);
                        }
                    }
                    assert forall|r2: int, c: int|
                        #![trigger k@[r2]@[c]]
                        0 <= r2 < total && 0 <= c < total && !presc_dof(ps@, r2) && !presc_in(
                            ps@,
                            t as int,
                            c,
                        ) && !(c == d as int && r2 < r as int + 1) implies k@[r2]@[c] == old(
                        k,
                    )@[r2]@[c] by {
                        if r2 == r as int {
                            assert(k@[r2]@[c] == k0[r2]@[c]);
                        } else {
                            assert(k@[r2] == k0[r2]);
                        }
                    }
                }
            }
        }
        proof {
            assert forall|r2: int, c: int|
                #![trigger k@[r2]@[c]]
                0 <= r2 < total && 0 <= c < total && !presc_dof(ps@, r2) && presc_in(
                    ps@,
                    t as int + 1,
                    c,
                ) implies f_of(k@[r2]@[c]) == f_zero() by {
                if !presc_in(ps@, t as int, c) {
                    let j = choose|j: int| 0 <= j < t + 1 && (#[trigger] ps@[j]).0 == c;
                    assert(j == t as int);
                    assert(c == d as int);
                }
            }
            assert forall|r2: int, c: int|
                #![trigger k@[r2]@[c]]
                0 <= r2 < total && 0 <= c < total && !presc_dof(ps@, r2) && !presc_in(
                    ps@,
                    t as int + 1,
                    c,
                ) implies k@[r2]@[c] == old(k)@[r2]@[c] by {
                assert(!presc_in(ps@, t as int, c));
                assert(c != d as int) by {
                    if c == d as int {
                        assert(ps@[t as int].0 == d);
                        assert(presc_in(ps@, t as int + 1, c));
                    }
                }
            }
        }
    }
    // second pass: set every prescribed value, later writes overwriting
    // earlier ones
    for t in 0..n
        invariant
            n == ps@.len(),
            f@.len() == total,
            vec_wf(f@),
            forall|j: int|
                0 <= j < t && (forall|j2: int| j < j2 < t ==> (#[trigger] ps@[j2]).0 != ps@[j].0)
                    ==> f_of(f@[(#[trigger] ps@[j]).0 as int]) == f_of(ps@[j].1),
            forall|dd: int|
                0 <= dd < total && !presc_dof(ps@, dd) ==> #[trigger] f@[dd] == old(f)@[dd],
    {
        let (d, v) = ps[t];
        proof {
            assert(ps@[t as int].0 < total && ps@[t as int].1.wf());
        }
        let ghost fpre = f@;
        f.set(d, v);
        proof {
            assert(f@ == fpre.update(d as int, v));
            assert forall|j: int|
                0 <= j < t + 1 && (forall|j2: int|
                    j < j2 < t + 1 ==> (#[trigger] ps@[j2]).0 != ps@[j].0) implies f_of(
                f@[(#[trigger] ps@[j]).0 as int],
            ) == f_of(ps@[j].1) by {
                if j == t as int {
                    assert(f@[d as int] == v);
                } else {
                    assert(ps@[t as int].0 != ps@[j].0);
                    assert(forall|j2: int| j < j2 < t ==> (#[trigger] ps@[j2]).0 != ps@[j].0);
                    assert(f_of(fpre[ps@[j].0 as int]) == f_of(ps@[j].1));
                    assert(f@[ps@[j].0 as int] == fpre[ps@[j].0 as int]);
                }
            }
            assert forall|dd: int|
                0 <= dd < total && !presc_dof(ps@, dd) implies #[trigger] f@[dd] == old(
                f,
            )@[dd] by {
                assert(presc_dof(ps@, d as int)) by {
                    assert(ps@[t as int].0 == d);
                }
                assert(dd != d as int);
                assert(f@[dd] == fpre[dd]);
            }
        }
    }
    // every DOF with a prescription got exactly its last value
    proof {
        assert(forall|c: int| presc_in(ps@, n as int, c) <==> presc_dof(ps@, c));
        assert forall|d: int|
            0 <= d < total && last_presc(ps@, d) is Some implies unit_row(k@, d, total as int)
            && f_of(f@[d]) == f_of(last_presc(ps@, d)->0) by {
            lemma_last_presc_char(ps@, d);
            let j = choose|j: int|
                0 <= j < ps@.len() && (#[trigger] ps@[j]).0 == d && ps@[j].1 == last_presc(
                    ps@,
                    d,
                )->0 && (forall|j2: int| j < j2 < ps@.len() ==> (#[trigger] ps@[j2]).0 != d);
            assert(unit_row(k@, ps@[j].0 as int, total as int));
            assert(f_of(f@[ps@[j].0 as int]) == f_of(ps@[j].1));
        }
    }
}

// --- The solver ---

/// The input guards all pass: a mesh is present, its element type is
/// supported, and every element and boundary condition is acceptable.
pub open spec fn fem_guards_ok(p: ProblemDefinition) -> bool {
    &&& p.mesh is Some
    &&& p.mesh->0.element_type@ == tetra_name()
    &&& fbe_of(p) is None
    &&& fbb_of(p) is None
}

/// What a successful solve returns: one displacement per degree of
/// freedom, every Dirichlet-prescribed degree of freedom carrying its
/// last prescribed value.
pub open spec fn fem_data_ok(p: ProblemDefinition, d: SolverSolutionData) -> bool {
    let m = p.mesh->0;
    let ps = presc_list(
        p.physics.boundary_conditions@,
        m.boundary_regions@,
        p.physics.boundary_conditions@.len() as int,
    );
    &&& d.data@.len() == 3 * m.nodes@.len()
    &&& vec_wf(d.data@)
    &&& forall|dof: int|
        0 <= dof < d.data@.len() ==> ((#[trigger] last_presc(ps, dof)) matches Some(v)
            ==> f_eq(f_of(d.data@[dof]), f_of(v)))
}

/// One row of the eliminated global system, as fractions: prescribed
/// columns are zeroed by the elimination, the rest carry the assembled
/// entries.
pub open spec fn fem_row_frac(p: ProblemDefinition, r: int, c: int) -> Frac {
    let m = p.mesh->0;
    let ps = presc_list(
        p.physics.boundary_conditions@,
        m.boundary_regions@,
        p.physics.boundary_conditions@.len() as int,
    );
    if presc_dof(ps, c) {
        f_zero()
    } else {
        assembled(m.elements@, p.physics.material, r, c, m.elements@.len() as int)
    }
}

/// The free degrees of freedom satisfy the assembled, eliminated system:
/// every unprescribed row's inner product with the solution equals that
/// row's accumulated force total.
pub open spec fn fem_free_ok(p: ProblemDefinition, d: SolverSolutionData) -> bool {
    let m = p.mesh->0;
    let total = 3 * m.nodes@.len() as int;
    let ps = presc_list(
        p.physics.boundary_conditions@,
        m.boundary_regions@,
        p.physics.boundary_conditions@.len() as int,
    );
    let fl = force_list(
        p.physics.boundary_conditions@,
        m.boundary_regions@,
        p.physics.boundary_conditions@.len() as int,
    );
    forall|r: int|
        0 <= r < total && !presc_dof(ps, r) ==> f_eq(
            crate::kernel::fdot(
                Seq::new(total as nat, |c: int| fem_row_frac(p, r, c)),
                d.data@,
            ),
            force_sum(fl, r),
        )
}

/// Every degree of freedom of the problem's mesh carries a Dirichlet
/// prescription.
pub open spec fn fully_prescribed(p: ProblemDefinition) -> bool {
    forall|d: int|
        0 <= d < 3 * p.mesh->0.nodes@.len() ==> (#[trigger] last_presc(
            presc_list(
                p.physics.boundary_conditions@,
                p.mesh->0.boundary_regions@,
                p.physics.boundary_conditions@.len() as int,
            ),
            d,
        )) is Some
}

/// The latest prescribed value of every degree of freedom, as a table.
#[verifier::loop_isolation(false)]
#[verifier::rlimit(100)]
fn presc_table(ps: &Vec<(usize, Rat)>, total: usize) -> (table: Vec<Option<Rat>>)
    requires
        presc_wf(ps@, total as int),
    ensures
        table@.len() == total,
        forall|k: int| 0 <= k < total ==> ((#[trigger] table@[k]) matches Some(v) ==> v.wf()),
        forall|k: int| 0 <= k < total && (#[trigger] table@[k]) is Some ==> presc_dof(ps@, k),
        forall|j: int| 0 <= j < ps@.len() ==> (#[trigger] table@[ps@[j].0 as int]) is Some,
        forall|j: int|
            0 <= j < ps@.len() && (forall|j2: int|
                j < j2 < ps@.len() ==> (#[trigger] ps@[j2]).0 != ps@[j].0) ==> table@[(
            #[trigger] ps@[j]).0 as int] == Option::Some(ps@[j].1),
{
    let mut table: Vec<Option<Rat>> = Vec::new();
    for _x in 0..total
        invariant
            table@.len() == _x,
            forall|k: int| 0 <= k < _x ==> (#[trigger] table@[k]) is None,
    {
        table.push(Option::None);
    }
    let n = ps.len();
    for t in 0..n
        invariant
            n == ps@.len(),
            table@.len() == total,
            forall|k: int|
                0 <= k < total ==> ((#[trigger] table@[k]) matches Some(v) ==> v.wf()),
            forall|k: int|
                0 <= k < total && (#[trigger] table@[k]) is Some ==> presc_dof(ps@, k),
            forall|j: int| 0 <= j < t ==> (#[trigger] table@[ps@[j].0 as int]) is Some,
            forall|j: int|
                0 <= j < t && (forall|j2: int| j < j2 < t ==> (#[trigger] ps@[j2]).0 != ps@[j].0)
                    ==> table@[(#[trigger] ps@[j]).0 as int] == Option::Some(ps@[j].1),
    {
        let (d, v) = ps[t];
        proof {
            assert(ps@[t as int].0 < total && ps@[t as int].1.wf());
        }
        let ghost tpre = table@;
        table.set(d, Option::Some(v));
        proof {
            assert(table@ == tpre.update(d as int, Option::Some(v)));
            assert(presc_dof(ps@, d as int)) by {
                assert(ps@[t as int].0 == d);
            }
            assert forall|k: int|
                0 <= k < total && (#[trigger] table@[k]) is Some implies presc_dof(
                ps@,
                k,
            ) by {
                if k != d as int {
                    assert(table@[k] == tpre[k]);
                }
            }
            assert forall|j: int|
                0 <= j < t + 1 implies (#[trigger] table@[ps@[j].0 as int]) is Some by {
                if j < t as int && ps@[j].0 != ps@[t as int].0 {
                    assert(table@[ps@[j].0 as int] == tpre[ps@[j].0 as int]);
                }
            }
            assert forall|j: int|
                0 <= j < t + 1 && (forall|j2: int|
                    j < j2 < t + 1 ==> (#[trigger] ps@[j2]).0 != ps@[j].0) implies table@[(
            #[trigger] ps@[j]).0 as int] == Option::Some(ps@[j].1) by {
                if j == t as int {
                    assert(table@[d as int] == Option::Some(v));
                } else {
                    assert(ps@[t as int].0 != ps@[j].0);
                    assert(forall|j2: int| j < j2 < t ==> (#[trigger] ps@[j2]).0 != ps@[j].0);
                    assert(tpre[ps@[j].0 as int] == Option::Some(ps@[j].1));
                    assert(table@[ps@[j].0 as int] == tpre[ps@[j].0 as int]);
                }
            }
        }
    }
    table
}

/// When every degree of freedom is prescribed, the eliminated system is
/// the identity and the solution is the prescription itself; build it
/// directly, later prescriptions overwriting earlier ones.
#[verifier::loop_isolation(false)]
#[verifier::rlimit(100)]
fn prescribed_fallback(ps: &Vec<(usize, Rat)>, total: usize) -> (r: Option<Vector>)
    requires
        presc_wf(ps@, total as int),
    ensures
        r matches Some(u) ==> u@.len() == total && vec_wf(u@) && (forall|d: int|
            0 <= d < total ==> ((#[trigger] last_presc(ps@, d)) matches Some(v) ==> f_eq(
                f_of(u@[d]),
                f_of(v),
            ))),
        (forall|d: int| 0 <= d < total ==> (#[trigger] last_presc(ps@, d)) is Some) ==> r
            is Some,
        r is Some ==> forall|d: int|
            0 <= d < total ==> (#[trigger] last_presc(ps@, d)) is Some,
{
    let table = presc_table(ps, total);
    let mut u: Vector = Vec::new();
    for d in 0..total
        invariant
            table@.len() == total,
            u@.len() == d,
            vec_wf(u@),
            forall|k: int|
                0 <= k < total ==> ((#[trigger] table@[k]) matches Some(v) ==> v.wf()),
            forall|k: int|
                0 <= k < total && (#[trigger] table@[k]) is Some ==> presc_dof(ps@, k),
            forall|k: int| 0 <= k < d ==> (#[trigger] table@[k]) is Some,
            forall|k: int| 0 <= k < d ==> table@[k] == Option::Some(#[trigger] u@[k]),
    {
        match table[d] {
            Option::Some(v) => {
                u.push(v);
            },
            Option::None => {
                proof {
                    assert(!(forall|dd: int|
                        0 <= dd < total ==> (#[trigger] last_presc(ps@, dd)) is Some)) by {
                        if forall|dd: int|
                            0 <= dd < total ==> (#[trigger] last_presc(ps@, dd)) is Some {
                            assert(last_presc(ps@, d as int) is Some);
                            lemma_last_presc_char(ps@, d as int);
                            let j = choose|j: int|
                                0 <= j < ps@.len() && (#[trigger] ps@[j]).0 == d as int
                                    && ps@[j].1 == last_presc(ps@, d as int)->0 && (forall|
                                    j2: int,
                                |
                                    j < j2 < ps@.len() ==> (#[trigger] ps@[j2]).0 != d as int);
                            assert(table@[ps@[j].0 as int] is Some);
                        }
                    }
                }
                return Option::None;
            },
        }
    }
    proof {
        assert forall|d: int| 0 <= d < total implies (#[trigger] last_presc(ps@, d))
            is Some by {
            assert(table@[d] is Some);
            assert(presc_dof(ps@, d));
            lemma_presc_dof_last(ps@, d);
        }
        assert forall|d: int|
            0 <= d < total && last_presc(ps@, d) is Some implies f_eq(
            f_of(u@[d]),
            f_of(last_presc(ps@, d)->0),
        ) by {
            lemma_last_presc_char(ps@, d);
            let j = choose|j: int|
                0 <= j < ps@.len() && (#[trigger] ps@[j]).0 == d && ps@[j].1 == last_presc(
                    ps@,
                    d,
                )->0 && (forall|j2: int| j < j2 < ps@.len() ==> (#[trigger] ps@[j2]).0 != d);
            assert(table@[d] == Option::Some(ps@[j].1));
            assert(table@[d] == Option::Some(u@[d]));
        }
    }
    Option::Some(u)
}

/// The first malformed element of the problem's mesh, if any.
pub open spec fn fbe_of(p: ProblemDefinition) -> Option<int> {
    first_bad_elem(p.mesh->0.elements@, p.mesh->0.nodes@.len() as int, 0)
}

/// The first unsupported boundary condition of the problem, if any.
pub open spec fn fbb_of(p: ProblemDefinition) -> Option<int> {
    first_bad_bc(p.physics.boundary_conditions@, p.mesh->0.boundary_regions@, 0)
}

impl FemSolver {
    /// Runs the full assembly, boundary enforcement and solve.  Inputs are
    /// rejected exactly as specified: a missing mesh, a non-tetrahedral
    /// element type, the first malformed element by index, and the first
    /// unsupported boundary-condition type, each with its message.  A
    /// success returns one displacement per degree of freedom, and every
    /// Dirichlet-prescribed degree of freedom provably carries its
    /// prescribed value.
    #[verifier::loop_isolation(false)]
    pub fn run(&self, problem: &ProblemDefinition) -> (r: Result<
        SolverSolutionData,
        EngineError,
    >)
        requires
            crate::problem_wf(*problem),
        ensures
            problem.mesh is None ==> is_solver_failed(
                r,
                "Mesh not found in problem definition"@,
            ),
            (problem.mesh is Some && problem.mesh->0.element_type@ != tetra_name())
                ==> is_solver_failed(r, type_msg(problem.mesh->0.element_type@)),
            (problem.mesh is Some && problem.mesh->0.element_type@ == tetra_name() && fbe_of(
                *problem,
            ) is Some) ==> is_solver_failed(
                r,
                elem_msg(problem.mesh->0.elements@[fbe_of(*problem)->0]@, fbe_of(*problem)->0),
            ),
            (problem.mesh is Some && problem.mesh->0.element_type@ == tetra_name() && fbe_of(
                *problem,
            ) is None && fbb_of(*problem) is Some) ==> is_solver_failed(
                r,
                bc_msg(problem.physics.boundary_conditions@[fbb_of(*problem)->0].condition_type@),
            ),
            r is Ok ==> fem_guards_ok(*problem),
            (fem_guards_ok(*problem) && fully_prescribed(*problem)) ==> r is Ok,
            r matches Ok(dta) ==> fem_data_ok(*problem, dta),
            r matches Ok(dta) ==> fem_free_ok(*problem, dta),
            r matches Err(e) ==> e is SolverFailed,
            (fem_guards_ok(*problem) && r is Err) ==> (r->Err_0 matches
                EngineError::SolverFailed(m) && m@ == "Global stiffness matrix is singular."@),
    {
        proof {
            lemma_fem_names();
        }
        let mesh = match &problem.mesh {
            Option::Some(m) => m,
            Option::None => {
                return Result::Err(
                    EngineError::SolverFailed(
                        String::from_str("Mesh not found in problem definition"),
                    ),
                );
            },
        };
        let tname = String::from_str("Tetrahedron");
        if !(mesh.element_type == tname) {
            let mut out = String::from_str(
                "FemSolver currently only supports Tetrahedral meshes, but found ",
            );
            out.append(mesh.element_type.as_str());
            return Result::Err(EngineError::SolverFailed(out));
        }
        let nnodes = mesh.nodes.len();
        match check_elements(&mesh.elements, nnodes) {
            Result::Ok(()) => {},
            Result::Err(e) => {
                return Result::Err(e);
            },
        }
        match check_bcs(&problem.physics.boundary_conditions, &mesh.boundary_regions) {
            Result::Ok(()) => {},
            Result::Err(e) => {
                return Result::Err(e);
            },
        }
        let total = nnodes * 3;
        let ps = collect_dirichlet(&problem.physics.boundary_conditions, &mesh.boundary_regions, nnodes);
        let kg0 = assemble(&mesh.elements, nnodes, &problem.physics.material, total);
        let mut kg = match kg0 {
            Option::Some(m) => m,
            Option::None => {
                match prescribed_fallback(&ps, total) {
                    Option::Some(u2) => {
                        proof {
                            assert forall|rr: int|
                                0 <= rr < total && !presc_dof(ps@, rr) implies false by {
                                lemma_presc_dof_last(ps@, rr);
                            }
                        }
                        return Result::Ok(SolverSolutionData { data: u2 });
                    },
                    Option::None => {
                        return Result::Err(
                            EngineError::SolverFailed(
                                String::from_str("Global stiffness matrix is singular."),
                            ),
                        );
                    },
                }
            },
        };
        let mut fg: Vector = Vec::new();
        for i in 0..total
            invariant
                fg@.len() == i,
                vec_wf(fg@),
                forall|d: int| 0 <= d < i ==> f_of(#[trigger] fg@[d]) == f_zero(),
        {
            fg.push(Rat::zero());
        }
        let ghost kga = kg@;
        match apply_forces(&mut fg, &problem.physics.boundary_conditions, &mesh.boundary_regions, nnodes) {
            Option::Some(()) => {},
            Option::None => {
                match prescribed_fallback(&ps, total) {
                    Option::Some(u2) => {
                        proof {
                            assert forall|rr: int|
                                0 <= rr < total && !presc_dof(ps@, rr) implies false by {
                                lemma_presc_dof_last(ps@, rr);
                            }
                        }
                        return Result::Ok(SolverSolutionData { data: u2 });
                    },
                    Option::None => {
                        return Result::Err(
                            EngineError::SolverFailed(
                                String::from_str("Global stiffness matrix is singular."),
                            ),
                        );
                    },
                }
            },
        }
        let ghost fga = fg@;
        eliminate(&mut kg, &mut fg, &ps, total);
        let u = match solve_dense(&kg, &fg) {
            Option::Some(u) => u,
            Option::None => {
                // with every degree of freedom prescribed, the eliminated
                // system is the identity: return the prescription itself
                match prescribed_fallback(&ps, total) {
                    Option::Some(u2) => {
                        proof {
                            assert forall|rr: int|
                                0 <= rr < total && !presc_dof(ps@, rr) implies false by {
                                lemma_presc_dof_last(ps@, rr);
                            }
                        }
                        return Result::Ok(SolverSolutionData { data: u2 });
                    },
                    Option::None => {
                        return Result::Err(
                            EngineError::SolverFailed(
                                String::from_str("Global stiffness matrix is singular."),
                            ),
                        );
                    },
                }
            },
        };
        proof {
            let uu = u@;
            let tt = total as int;
            let m = *problem;
            let ghost flspec = force_list(
                problem.physics.boundary_conditions@,
                mesh.boundary_regions@,
                problem.physics.boundary_conditions@.len() as int,
            );
            assert forall|rr: int|
                0 <= rr < tt && !presc_dof(ps@, rr) implies f_eq(
                crate::kernel::fdot(
                    Seq::new(tt as nat, |c: int| fem_row_frac(m, rr, c)),
                    uu,
                ),
                force_sum(flspec, rr),
            ) by {
                let frow = Seq::new(tt as nat, |c: int| fem_row_frac(m, rr, c));
                assert forall|c: int|
                    0 <= c < tt implies crate::kernel::f_wf(#[trigger] frow[c]) && f_eq(
                    f_of(kg@[rr]@[c]),
                    frow[c],
                ) by {
                    if presc_dof(ps@, c) {
                        assert(f_of(kg@[rr]@[c]) == f_zero());
                        assert(frow[c] == f_zero());
                    } else {
                        assert(kg@[rr]@[c] == kga[rr]@[c]);
                        assert(f_eq(
                            f_of(kga[rr]@[c]),
                            assembled(
                                mesh.elements@,
                                problem.physics.material,
                                rr,
                                c,
                                mesh.elements@.len() as int,
                            ),
                        ));
                        lemma_assembled_wf(
                            mesh.elements@,
                            problem.physics.material,
                            rr,
                            c,
                            mesh.elements@.len() as int,
                        );
                    }
                }
                crate::kernel::lemma_dot_matches_fdot(kg@[rr]@, frow, uu, tt);
                lemma_dot_partial_wf(kg@[rr]@, uu, tt);
                assert(fg@[rr] == fga[rr]);
                assert(f_eq(f_of(fga[rr]), force_sum(flspec, rr)));
                lemma_force_sum_wf(flspec, rr, tt);
                assert(f_eq(dot(kg@[rr]@, uu), f_of(fg@[rr])));
                lemma_f_eq_trans(
                    crate::kernel::fdot(frow, uu),
                    dot(kg@[rr]@, uu),
                    f_of(fg@[rr]),
                );
                lemma_f_eq_trans(
                    crate::kernel::fdot(frow, uu),
                    f_of(fg@[rr]),
                    force_sum(flspec, rr),
                );
            }
            assert forall|d: int|
                0 <= d < tt && last_presc(ps@, d) is Some implies f_eq(
                f_of(uu[d]),
                f_of(last_presc(ps@, d)->0),
            ) by {
                let v = last_presc(ps@, d)->0;
                lemma_last_presc_wf(ps@, d, tt);
                assert(unit_row(kg@, d, tt));
                assert(f_of(fg@[d]) == f_of(v));
                lemma_dot_partial_single(kg@[d]@, uu, d, Rat { num: 1, den: 1 }, tt);
                lemma_dot_partial_wf(kg@[d]@, uu, tt);
                crate::kernel::lemma_f_add_wf(f_one(), f_of(uu[d]));
                lemma_f_mul_one(f_of(uu[d]), f_one());
                lemma_f_eq_trans(
                    dot(kg@[d]@, uu),
                    f_mul(f_one(), f_of(uu[d])),
                    f_of(uu[d]),
                );
                lemma_f_eq_trans(f_of(uu[d]), dot(kg@[d]@, uu), f_of(fg@[d]));
            }
        }
        Result::Ok(SolverSolutionData { data: u })
    }
}

impl Solver for FemSolver {
    fn name(&self) -> &'static str {
        "FemSolver"
    }

    fn solve(&self, problem: &ProblemDefinition) -> Result<SolverSolutionData, EngineError> {
        if crate::problem_wf_check(problem) {
            self.run(problem)
        } else {
            Result::Err(
                EngineError::SolverFailed(
                    String::from_str("Problem definition is malformed"),
                ),
            )
        }
    }
}


/// The fully-fixed law: when every degree of freedom carries a Dirichlet
/// prescription of zero, any displacement vector that the solver returns
/// is zero everywhere.
pub proof fn lemma_fully_fixed_zero(ps: Seq<(usize, Rat)>, u: Seq<Rat>, total: int)
    requires
        vec_wf(u),
        u.len() == total,
        presc_wf(ps, total),
        forall|d: int|
            0 <= d < total ==> (#[trigger] last_presc(ps, d)) is Some && f_eq(
                f_of(last_presc(ps, d)->0),
                f_zero(),
            ),
        forall|d: int|
            0 <= d < u.len() ==> ((#[trigger] last_presc(ps, d)) matches Some(v) ==> f_eq(
                f_of(u[d]),
                f_of(v),
            )),
    ensures
        forall|d: int| 0 <= d < total ==> f_eq(f_of(#[trigger] u[d]), f_zero()),
{
    assert forall|d: int| 0 <= d < total implies f_eq(f_of(#[trigger] u[d]), f_zero()) by {
        lemma_last_presc_wf(ps, d, total);
        let v = last_presc(ps, d)->0;
        lemma_f_eq_trans(f_of(u[d]), f_of(v), f_zero());
    }
}


} // verus!
