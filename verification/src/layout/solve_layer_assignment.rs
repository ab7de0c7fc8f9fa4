use vstd::prelude::*;
use crate::common::edge::Edge;
use crate::common::graph::{Graph, spec_opt_str_like};
use crate::common::lane::{Lane, spec_sorted_by_layer};
use crate::common::node::Node;
use crate::common::pool::Pool;
use crate::layout::LayoutError;
use good_lp::{variable, Expression, ProblemVariables, ResolutionError, Solution, SolutionStatus, SolverModel, Variable};
use good_lp::solvers::microlp::{microlp, MicroLpProblem};

verus! {

// ---------------------------------------------------------------------------
// Trusted surface over the MILP crate.
//
// The layer program is built through the wrappers below, one outside call
// each. The solved values are named by `ilp_layers`: microlp is a pure
// solver without randomness, so what it returns is a function of the
// problem alone. Nothing else is assumed of the solution; the verified
// code re-checks every constraint before using it.
// ---------------------------------------------------------------------------

#[verifier::external_type_specification]
#[verifier::external_body]
pub struct ExProblemVariables(ProblemVariables);

#[verifier::external_type_specification]
#[verifier::external_body]
pub struct ExVariable(Variable);

#[verifier::external_type_specification]
#[verifier::external_body]
pub struct ExExpression(Expression);

#[verifier::external_type_specification]
#[verifier::external_body]
pub struct ExMicroLpProblem(MicroLpProblem);

#[verifier::external_type_specification]
#[verifier::external_body]
pub struct ExResolutionError(ResolutionError);

/// The position a decision variable has in its variable collection.
pub uninterp spec fn var_index(v: Variable) -> nat;

/// The upper bounds of the integer layer variables a variable collection
/// holds, in the order they were added; every such variable has lower
/// bound zero.
pub uninterp spec fn vars_bounds(p: ProblemVariables) -> Seq<nat>;

/// The span terms an objective expression holds: each pair (t, f) stands
/// for the term (variable t - variable f), by variable index.
pub uninterp spec fn expr_spans(e: Expression) -> Seq<(nat, nat)>;

/// The variable bounds a solver model was built from.
pub uninterp spec fn model_bounds(m: MicroLpProblem) -> Seq<nat>;

/// The objective span terms a solver model was built from.
pub uninterp spec fn model_objective(m: MicroLpProblem) -> Seq<(nat, nat)>;

/// The gap constraints a solver model holds: each pair (t, f) stands for
/// (variable t - variable f) >= 1, by variable index.
pub uninterp spec fn model_constraints(m: MicroLpProblem) -> Seq<(nat, nat)>;

/// An assignment of one value per variable, each within its bound.
pub open spec fn spec_vals_within(vals: Seq<usize>, bounds: Seq<nat>) -> bool {
    &&& vals.len() == bounds.len()
    &&& forall|i: int| 0 <= i < vals.len() ==> #[trigger] vals[i] <= bounds[i]
}

/// The program has some in-bounds assignment meeting every constraint.
pub open spec fn spec_ilp_satisfiable(bounds: Seq<nat>, constraints: Seq<(nat, nat)>) -> bool {
    exists|vals: Seq<usize>|
        spec_vals_within(vals, bounds) && #[trigger] spec_vals_satisfy(vals, constraints)
}

/// The total span an assignment gives the objective's terms.
pub open spec fn spec_span_total(vals: Seq<usize>, objective: Seq<(nat, nat)>) -> int
    decreases objective.len(),
{
    if objective.len() == 0 {
        0
    } else {
        spec_span_total(vals, objective.drop_last()) + vals[objective.last().0 as int]
            - vals[objective.last().1 as int]
    }
}

/// No in-bounds assignment meeting every constraint has a smaller total
/// span.
pub open spec fn spec_span_minimal(
    vals: Seq<usize>,
    bounds: Seq<nat>,
    objective: Seq<(nat, nat)>,
    constraints: Seq<(nat, nat)>,
) -> bool {
    forall|other: Seq<usize>|
        spec_vals_within(other, bounds) && #[trigger] spec_vals_satisfy(other, constraints)
            ==> spec_span_total(vals, objective) <= spec_span_total(other, objective)
}

/// What the solver returns for the integer program with the given variable
/// bounds, objective and constraints: the value of each variable, or
/// nothing when the solver reports no solution (an infeasible program;
/// bounds are kept within the backend's integer range by the wrappers).
pub uninterp spec fn ilp_layers(
    bounds: Seq<nat>,
    objective: Seq<(nat, nat)>,
    constraints: Seq<(nat, nat)>,
) -> Option<Seq<usize>>;

/// Relies on good_lp's ProblemVariables::new: an empty variable collection.
#[verifier::external_body]
fn lp_new_vars() -> (p: ProblemVariables)
    ensures
        vars_bounds(p) == Seq::<nat>::empty(),
{
    ProblemVariables::new()
}

/// Relies on good_lp's ProblemVariables::add: appends one integer variable
/// bounded to 0..=max and hands back its handle. The bound must fit the
/// backend's signed 32-bit variable range, else the model is poisoned and
/// every solve fails.
#[verifier::external_body]
fn lp_add_layer_var(p: &mut ProblemVariables, max: u32) -> (v: Variable)
    requires
        max <= 0x7fff_ffff,
    ensures
        vars_bounds(*final(p)) == vars_bounds(*old(p)).push(max as nat),
        var_index(v) == vars_bounds(*old(p)).len(),
{
    p.add(variable().integer().min(0).max(max))
}

/// Relies on good_lp's Expression::default: the zero expression.
#[verifier::external_body]
fn lp_empty_expression() -> (e: Expression)
    ensures
        expr_spans(e) == Seq::<(nat, nat)>::empty(),
{
    Expression::default()
}

/// Relies on good_lp's expression arithmetic: adds the span term
/// (to_var - from_var) to the objective.
#[verifier::external_body]
fn lp_add_span(e: Expression, to_var: Variable, from_var: Variable) -> (r: Expression)
    ensures
        expr_spans(r) == expr_spans(e).push((var_index(to_var), var_index(from_var))),
{
    e + (to_var - from_var)
}

/// Relies on good_lp's ProblemVariables::minimise and the microlp backend:
/// a minimisation model over the given variables and objective, with no
/// constraints yet.
#[verifier::external_body]
fn lp_minimise(vars: ProblemVariables, objective: Expression) -> (m: MicroLpProblem)
    ensures
        model_bounds(m) == vars_bounds(vars),
        model_objective(m) == expr_spans(objective),
        model_constraints(m) == Seq::<(nat, nat)>::empty(),
{
    vars.minimise(objective).using(microlp)
}

/// Relies on good_lp's SolverModel::with: appends the constraint
/// (to_var - from_var) >= 1 to the model. Both handles must come from the
/// model's own variable collection: the translation indexes the model's
/// variable list by handle.
#[verifier::external_body]
fn lp_add_gap_constraint(m: MicroLpProblem, to_var: Variable, from_var: Variable) -> (r:
    MicroLpProblem)
    requires
        var_index(to_var) < model_bounds(m).len(),
        var_index(from_var) < model_bounds(m).len(),
    ensures
        model_bounds(r) == model_bounds(m),
        model_objective(r) == model_objective(m),
        model_constraints(r) == model_constraints(m).push(
            (var_index(to_var), var_index(from_var)),
        ),
{
    m.with((to_var - from_var).geq(1))
}

/// Relies on good_lp's SolverModel::solve, Solution::status and
/// Solution::value on the microlp backend: solves the model and reads
/// each listed variable's value, rounded to the nearest integer. microlp
/// is deterministic, so the outcome is the function `ilp_layers` of the
/// model alone. Values are handed out only for a solution the backend
/// proved optimal — then it is in bounds, meets every constraint and
/// minimises the objective. A failure tells a proven-infeasible program
/// (`Err(true)`) apart from every other outcome — an internal solver
/// failure, or an answer without an optimality proof (`Err(false)`) — and
/// only the former says anything about satisfiability.
#[verifier::external_body]
fn lp_solve(m: MicroLpProblem, vars: &Vec<Variable>) -> (r: Result<Vec<usize>, bool>)
    requires
        forall|i: int| 0 <= i < vars@.len() ==> var_index(#[trigger] vars@[i]) < model_bounds(m).len(),
    ensures
        ({
            let sol = ilp_layers(model_bounds(m), model_objective(m), model_constraints(m));
            match r {
                Ok(vals) => {
                    &&& sol matches Some(s)
                    &&& s.len() == model_bounds(m).len()
                    &&& spec_vals_within(sol->0, model_bounds(m))
                    &&& spec_vals_satisfy(sol->0, model_constraints(m))
                    &&& spec_span_minimal(
                        sol->0,
                        model_bounds(m),
                        model_objective(m),
                        model_constraints(m),
                    )
                    &&& vals@.len() == vars@.len()
                    &&& forall|i: int|
                        0 <= i < vars@.len() ==> #[trigger] vals@[i] == sol->0[var_index(
                            vars@[i],
                        ) as int]
                },
                Err(proven_infeasible) => sol is None && (proven_infeasible
                    ==> !spec_ilp_satisfiable(model_bounds(m), model_constraints(m))),
            }
        }),
{
    match m.solve() {
        Ok(sol) => match sol.status() {
            SolutionStatus::Optimal => Ok(
                vars.iter().map(|v| sol.value(*v).round() as usize).collect(),
            ),
            _ => Err(false),
        },
        Err(ResolutionError::Infeasible) => Err(true),
        Err(_) => Err(false),
    }
}

// ---------------------------------------------------------------------------
// Verified layer assignment.
// ---------------------------------------------------------------------------

/// The ids of a node sequence, in order.
pub open spec fn spec_ids_of(nodes: Seq<Node>) -> Seq<usize> {
    nodes.map_values(|n: Node| n.id)
}

/// The first position of `id` in `ids`; meaningful only when present.
pub open spec fn spec_first_index(ids: Seq<usize>, id: usize) -> int {
    match ids.index_of_first(id) {
        Some(i) => i,
        None => -1,
    }
}

/// The span pairs of a lane's integer program: one pair per edge whose two
/// endpoint ids both occur in `ids`, in edge order, each pair holding the
/// first position of the edge's head and of its tail.
pub open spec fn spec_span_pairs(edges: Seq<Edge>, ids: Seq<usize>) -> Seq<(nat, nat)>
    decreases edges.len(),
{
    if edges.len() == 0 {
        Seq::empty()
    } else {
        let rest = spec_span_pairs(edges.drop_last(), ids);
        let e = edges.last();
        if ids.contains(e.from) && ids.contains(e.to) {
            rest.push(
                (spec_first_index(ids, e.to) as nat, spec_first_index(ids, e.from) as nat),
            )
        } else {
            rest
        }
    }
}

/// A solution satisfies the lane program when every span pair strictly
/// increases from tail to head.
pub open spec fn spec_vals_satisfy(vals: Seq<usize>, pairs: Seq<(nat, nat)>) -> bool {
    forall|k: int|
        0 <= k < pairs.len() ==> vals[(#[trigger] pairs[k]).1 as int] < vals[pairs[k].0 as int]
}

/// The least value of a non-empty sequence.
pub open spec fn spec_seq_min(vals: Seq<usize>) -> usize
    decreases vals.len(),
{
    if vals.len() <= 1 {
        if vals.len() == 1 {
            vals[0]
        } else {
            0
        }
    } else {
        let rest = spec_seq_min(vals.drop_last());
        if vals.last() < rest {
            vals.last()
        } else {
            rest
        }
    }
}

/// The variable bounds of a lane's program: one variable per node, each
/// bounded by the lane's highest possible layer — one less than its node
/// count (a chain through n nodes needs at most the layers 0..n-1).
pub open spec fn spec_lane_bounds(ids: Seq<usize>) -> Seq<nat> {
    Seq::<nat>::new(
        ids.len(),
        |i: int|
            if ids.len() == 0 {
                0nat
            } else {
                (ids.len() - 1) as nat
            },
    )
}

/// The lane's program admits some in-bounds assignment meeting every
/// span constraint.
pub open spec fn spec_lane_satisfiable(ids: Seq<usize>, edges: Seq<Edge>) -> bool {
    spec_ilp_satisfiable(spec_lane_bounds(ids), spec_span_pairs(edges, ids))
}

/// The layer values a lane receives, as a function of its node ids and the
/// edge list. A lane without any span constraint takes the trivial
/// solution, every node at layer zero. Otherwise it takes the solver's
/// answer, shifted so the least layer is zero — or nothing, when the
/// solver reports no optimal solution or its answer fails the re-check of
/// the constraints.
pub open spec fn spec_lane_layer_vals(ids: Seq<usize>, edges: Seq<Edge>) -> Option<Seq<usize>> {
    let pairs = spec_span_pairs(edges, ids);
    let bounds = spec_lane_bounds(ids);
    if pairs.len() == 0 {
        Some(Seq::new(ids.len(), |i: int| 0usize))
    } else {
        match ilp_layers(bounds, pairs, pairs) {
            Some(s) => if s.len() == ids.len() && spec_vals_satisfy(s, pairs) {
                if ids.len() == 0 {
                    Some(s)
                } else {
                    Some(Seq::new(s.len(), |i: int| (s[i] - spec_seq_min(s)) as usize))
                }
            } else {
                None
            },
            None => None,
        }
    }
}

/// The nodes of `pre`, each given its layer value from `vals`.
pub open spec fn spec_with_layers(pre: Seq<Node>, vals: Seq<usize>) -> Seq<Node> {
    Seq::new(pre.len(), |i: int| (Node { layer_id: Some(vals[i]), ..pre[i] }))
}

/// Solves the layer program of one lane: each node becomes an integer
/// variable, each edge inside the lane demands a strictly larger layer for
/// its head, and the total layer span is minimised (a lane without any
/// such edge takes the trivial all-zero solution directly). On success
/// the lane's nodes carry the zero-based layer values — each below the
/// lane's node count — and are sorted by them; otherwise the lane is left
/// untouched, a proven-infeasible program is reported as such, and any
/// other solver outcome as a solver failure, either naming the lane.
#[verifier::rlimit(100)]
#[verifier::spinoff_prover]
pub fn solve_layers(edges: &Vec<Edge>, lane: &mut Lane) -> (r: Result<(), LayoutError>)
    requires
        old(lane).layers@.len() <= 0x7fff_ffff,
    ensures
        r is Ok ==> spec_span_minimal(
            spec_lane_layer_vals(spec_ids_of(old(lane).layers@), edges@)->0,
            spec_lane_bounds(spec_ids_of(old(lane).layers@)),
            spec_span_pairs(edges@, spec_ids_of(old(lane).layers@)),
            spec_span_pairs(edges@, spec_ids_of(old(lane).layers@)),
        ),
        match r {
            Ok(()) => {
                &&& spec_lane_layer_vals(spec_ids_of(old(lane).layers@), edges@) matches Some(vals)
                &&& final(lane).layers@.to_multiset() == spec_with_layers(
                    old(lane).layers@,
                    vals,
                ).to_multiset()
                &&& final(lane).layers@.len() == old(lane).layers@.len()
                &&& spec_sorted_by_layer(final(lane).layers@)
                &&& forall|i: int| 0 <= i < vals.len() ==> #[trigger] vals[i] < old(
                    lane,
                ).layers@.len()
            },
            Err(e) => {
                &&& spec_lane_layer_vals(spec_ids_of(old(lane).layers@), edges@) is None
                &&& *final(lane) == *old(lane)
                &&& match e {
                    LayoutError::InfeasibleLane(nm) => nm@ == old(lane).lane@
                        && !spec_lane_satisfiable(spec_ids_of(old(lane).layers@), edges@),
                    LayoutError::SolverFailed(nm) => nm@ == old(lane).lane@,
                    _ => false,
                }
            },
        },
        final(lane).lane@ == old(lane).lane@,
        final(lane).x == old(lane).x,
        final(lane).y == old(lane).y,
        final(lane).width == old(lane).width,
        final(lane).height == old(lane).height,
{
    let n = lane.layers.len();
    let ghost ids = spec_ids_of(lane.layers@);
    let mut vars = lp_new_vars();
    let mut layer_vars: Vec<(usize, Variable)> = Vec::new();
    let mut i: usize = 0;
    while i < n
        invariant
            n == lane.layers@.len(),
            n <= 0x7fff_ffff,
            0 <= i <= n,
            *lane == *old(lane),
            ids == spec_ids_of(lane.layers@),
            layer_vars@.len() == i,
            vars_bounds(vars) == Seq::<nat>::new(i as nat, |k: int| (n - 1) as nat),
            forall|k: int| 0 <= k < i ==> var_index((#[trigger] layer_vars@[k]).1) == k,
            forall|k: int| 0 <= k < i ==> (#[trigger] layer_vars@[k]).0 == ids[k],
        decreases n - i,
    {
        let v = lp_add_layer_var(&mut vars, (n - 1) as u32);
        layer_vars.push((lane.layers[i].id, v));
        proof {
            assert(vars_bounds(vars) =~= Seq::<nat>::new((i + 1) as nat, |k: int| (n - 1) as nat));
            assert(ids[i as int] == lane.layers@[i as int].id);
        }
        i += 1;
    }

    let mut objective = lp_empty_expression();
    let ne = edges.len();
    let mut k: usize = 0;
    while k < ne
        invariant
            n == lane.layers@.len(),
            ne == edges@.len(),
            0 <= k <= ne,
            *lane == *old(lane),
            ids == spec_ids_of(lane.layers@),
            layer_vars@.len() == n,
            forall|q: int| 0 <= q < n ==> var_index((#[trigger] layer_vars@[q]).1) == q,
            forall|q: int| 0 <= q < n ==> (#[trigger] layer_vars@[q]).0 == ids[q],
            expr_spans(objective) == spec_span_pairs(edges@.take(k as int), ids),
        decreases ne - k,
    {
        let from_idx = find_var_index(&layer_vars, edges[k].from);
        let to_idx = find_var_index(&layer_vars, edges[k].to);
        proof {
            assert(edges@.take(k as int + 1).drop_last() =~= edges@.take(k as int));
            assert(edges@.take(k as int + 1).last() == edges@[k as int]);
            assert(ids.contains(edges@[k as int].from) <==> from_idx is Some) by {
                lemma_ids_contains(layer_vars@, ids, edges@[k as int].from);
            }
            assert(ids.contains(edges@[k as int].to) <==> to_idx is Some) by {
                lemma_ids_contains(layer_vars@, ids, edges@[k as int].to);
            }
        }
        if let (Some(fi), Some(ti)) = (from_idx, to_idx) {
            let from_var = layer_vars[fi].1;
            let to_var = layer_vars[ti].1;
            proof {
                lemma_first_index_agrees(layer_vars@, ids, edges@[k as int].from, fi as int);
                lemma_first_index_agrees(layer_vars@, ids, edges@[k as int].to, ti as int);
            }
            objective = lp_add_span(objective, to_var, from_var);
        }
        k += 1;
    }
    proof {
        assert(edges@.take(ne as int) =~= edges@);
    }

    proof {
        lemma_span_pairs_in_range(edges@, ids);
    }
    let mut problem = lp_minimise(vars, objective);
    let mut npairs: usize = 0;
    let mut k2: usize = 0;
    while k2 < ne
        invariant
            n == lane.layers@.len(),
            ne == edges@.len(),
            0 <= k2 <= ne,
            *lane == *old(lane),
            ids == spec_ids_of(lane.layers@),
            layer_vars@.len() == n,
            forall|q: int| 0 <= q < n ==> var_index((#[trigger] layer_vars@[q]).1) == q,
            forall|q: int| 0 <= q < n ==> (#[trigger] layer_vars@[q]).0 == ids[q],
            model_bounds(problem) == Seq::<nat>::new(n as nat, |q: int| (n - 1) as nat),
            model_objective(problem) == spec_span_pairs(edges@, ids),
            model_constraints(problem) == spec_span_pairs(edges@.take(k2 as int), ids),
            npairs == model_constraints(problem).len(),
            npairs <= k2,
        decreases ne - k2,
    {
        let from_idx = find_var_index(&layer_vars, edges[k2].from);
        let to_idx = find_var_index(&layer_vars, edges[k2].to);
        proof {
            assert(edges@.take(k2 as int + 1).drop_last() =~= edges@.take(k2 as int));
            assert(edges@.take(k2 as int + 1).last() == edges@[k2 as int]);
            assert(ids.contains(edges@[k2 as int].from) <==> from_idx is Some) by {
                lemma_ids_contains(layer_vars@, ids, edges@[k2 as int].from);
            }
            assert(ids.contains(edges@[k2 as int].to) <==> to_idx is Some) by {
                lemma_ids_contains(layer_vars@, ids, edges@[k2 as int].to);
            }
        }
        if let (Some(fi), Some(ti)) = (from_idx, to_idx) {
            let from_var = layer_vars[fi].1;
            let to_var = layer_vars[ti].1;
            proof {
                lemma_first_index_agrees(layer_vars@, ids, edges@[k2 as int].from, fi as int);
                lemma_first_index_agrees(layer_vars@, ids, edges@[k2 as int].to, ti as int);
            }
            problem = lp_add_gap_constraint(problem, to_var, from_var);
            npairs = npairs + 1;
        }
        k2 += 1;
    }
    proof {
        assert(edges@.take(ne as int) =~= edges@);
    }

    let mut var_handles: Vec<Variable> = Vec::new();
    let mut k3: usize = 0;
    while k3 < n
        invariant
            0 <= k3 <= n,
            layer_vars@.len() == n,
            forall|q: int| 0 <= q < n ==> var_index((#[trigger] layer_vars@[q]).1) == q,
            var_handles@.len() == k3,
            forall|q: int| 0 <= q < k3 ==> var_handles@[q] == (#[trigger] layer_vars@[q]).1,
        decreases n - k3,
    {
        var_handles.push(layer_vars[k3].1);
        k3 += 1;
    }

    let ghost pairs = spec_span_pairs(edges@, ids);
    if npairs == 0 {
        // no span constraint joins two nodes of this lane: take the
        // trivial solution, every node at layer zero
        let ghost zeros = Seq::<usize>::new(ids.len(), |q: int| 0usize);
        let mut ni0: usize = 0;
        while ni0 < n
            invariant
                n == lane.layers@.len(),
                0 <= ni0 <= n,
                old(lane).layers@.len() == n,
                lane.lane@ == old(lane).lane@,
                lane.x == old(lane).x,
                lane.y == old(lane).y,
                lane.width == old(lane).width,
                lane.height == old(lane).height,
                forall|q: int| ni0 <= q < n ==> #[trigger] lane.layers@[q] == old(lane).layers@[q],
                forall|q: int| 0 <= q < ni0 ==> #[trigger] lane.layers@[q] == (Node {
                    layer_id: Some(0usize),
                    ..old(lane).layers@[q]
                }),
            decreases n - ni0,
        {
            lane.layers[ni0].layer_id = Some(0);
            ni0 += 1;
        }
        proof {
            assert(pairs.len() == 0);
            assert(spec_lane_layer_vals(ids, edges@) matches Some(v2) && v2 == zeros);
            assert(lane.layers@ =~= spec_with_layers(old(lane).layers@, zeros));
            assert(spec_span_minimal(zeros, spec_lane_bounds(ids), pairs, pairs));
        }
        lane.sort_nodes_by_layer_id();
        return Ok(());
    }
    proof {
        assert(model_bounds(problem).len() == n);
        assert(pairs.len() > 0);
        assert forall|q: int| 0 <= q < var_handles@.len() implies var_index(
            #[trigger] var_handles@[q],
        ) < model_bounds(problem).len() by {
            assert(var_handles@[q] == layer_vars@[q].1);
            assert(var_index(layer_vars@[q].1) == q);
        }
    }
    let solved = lp_solve(problem, &var_handles);
    match solved {
        Err(proven_infeasible) => {
            proof {
                assert(model_bounds(problem) =~= spec_lane_bounds(ids));
                assert(model_constraints(problem) == pairs);
                assert(spec_lane_layer_vals(ids, edges@) is None);
            }
            let name = lane.get_lane().clone();
            if proven_infeasible {
                proof {
                    assert(!spec_lane_satisfiable(ids, edges@));
                }
                Err(LayoutError::InfeasibleLane(name))
            } else {
                Err(LayoutError::SolverFailed(name))
            }
        },
        Ok(vals) => {
            proof {
                let sol = ilp_layers(
                    model_bounds(problem),
                    model_objective(problem),
                    model_constraints(problem),
                );
                assert forall|q: int| 0 <= q < n implies #[trigger] vals@[q] == sol->0[q] by {
                    assert(var_handles@[q] == layer_vars@[q].1);
                    assert(var_index(layer_vars@[q].1) == q);
                    assert(vals@[q] == sol->0[var_index(var_handles@[q]) as int]);
                }
                assert(vals@ =~= sol->0);
                assert(spec_ids_of_pairs(layer_vars@) =~= ids);
                assert(model_bounds(problem) =~= spec_lane_bounds(ids));
                assert(model_objective(problem) == pairs);
                assert(model_constraints(problem) == pairs);
                assert(spec_vals_satisfy(vals@, pairs));
                assert(spec_span_minimal(vals@, spec_lane_bounds(ids), pairs, pairs));
            }
            // re-check every constraint against the returned values
            let ok = check_vals(&vals, edges, &layer_vars);
            if !ok {
                // the solver's feasibility clause makes this unreachable;
                // the check stays as a runtime guard on that trust
                proof {
                    assert(!spec_vals_satisfy(
                        vals@,
                        spec_span_pairs(edges@, spec_ids_of_pairs(layer_vars@)),
                    ));
                    assert(false);
                }
                let name = lane.get_lane().clone();
                return Err(LayoutError::SolverFailed(name));
            }
            proof {
                // a span pair exists, so the lane has nodes
                assert(pairs[0].0 < ids.len());
            }
            let least = vec_min(&vals);
            let mut ni: usize = 0;
            while ni < n
                invariant
                    n == lane.layers@.len(),
                    n >= 1,
                    0 <= ni <= n,
                    vals@.len() == n,
                    least == spec_seq_min(vals@),
                    forall|q: int| 0 <= q < vals@.len() ==> least <= #[trigger] vals@[q],
                    lane.lane@ == old(lane).lane@,
                    lane.x == old(lane).x,
                    lane.y == old(lane).y,
                    lane.width == old(lane).width,
                    lane.height == old(lane).height,
                    forall|q: int| ni <= q < n ==> #[trigger] lane.layers@[q] == old(lane).layers@[q],
                    forall|q: int| 0 <= q < ni ==> #[trigger] lane.layers@[q] == (Node {
                        layer_id: Some((vals@[q] - least) as usize),
                        ..old(lane).layers@[q]
                    }),
                decreases n - ni,
            {
                let nv = vals[ni] - least;
                lane.layers[ni].layer_id = Some(nv);
                ni += 1;
            }
            proof {
                let shifted = Seq::<usize>::new(vals@.len(), |q: int| (vals@[q] - least) as usize);
                assert(spec_lane_layer_vals(ids, edges@) matches Some(v2) && v2 =~= shifted);
                assert(lane.layers@ =~= spec_with_layers(old(lane).layers@, shifted));
                // shifting every value by the least one keeps each span
                // term, so the zero-based assignment is still minimal
                lemma_span_pairs_in_range(edges@, ids);
                lemma_span_total_shift(vals@, shifted, least as int, pairs);
                assert forall|other: Seq<usize>|
                    spec_vals_within(other, spec_lane_bounds(ids)) && #[trigger] spec_vals_satisfy(
                        other,
                        pairs,
                    ) implies spec_span_total(shifted, pairs) <= spec_span_total(other, pairs) by {
                    assert(spec_span_total(vals@, pairs) <= spec_span_total(other, pairs));
                }
                assert(spec_span_minimal(shifted, spec_lane_bounds(ids), pairs, pairs));
                assert forall|i: int| 0 <= i < shifted.len() implies #[trigger] shifted[i]
                    < old(lane).layers@.len() by {
                    assert(vals@[i] <= spec_lane_bounds(ids)[i]);
                }
            }
            lane.sort_nodes_by_layer_id();
            Ok(())
        },
    }
}


/// Every pair of `spec_span_pairs` indexes into `ids`.
proof fn lemma_span_pairs_in_range(edges: Seq<Edge>, ids: Seq<usize>)
    ensures
        forall|k: int|
            0 <= k < spec_span_pairs(edges, ids).len() ==> (#[trigger] spec_span_pairs(
                edges,
                ids,
            )[k]).0 < ids.len() && spec_span_pairs(edges, ids)[k].1 < ids.len(),
    decreases edges.len(),
{
    if edges.len() > 0 {
        lemma_span_pairs_in_range(edges.drop_last(), ids);
        let e = edges.last();
        if ids.contains(e.from) && ids.contains(e.to) {
            ids.index_of_first_ensures(e.from);
            ids.index_of_first_ensures(e.to);
            let pre = spec_span_pairs(edges.drop_last(), ids);
            let post = spec_span_pairs(edges, ids);
            assert forall|k: int| 0 <= k < post.len() implies (#[trigger] post[k]).0 < ids.len()
                && post[k].1 < ids.len() by {
                if k < pre.len() {
                    assert(post[k] == pre[k]);
                }
            }
        }
    }
}

/// Shifting every value down by a common amount keeps every span term.
proof fn lemma_span_total_shift(vals: Seq<usize>, shifted: Seq<usize>, m: int, pairs: Seq<(nat, nat)>)
    requires
        shifted.len() == vals.len(),
        0 <= m,
        forall|i: int| 0 <= i < vals.len() ==> m <= #[trigger] vals[i] && shifted[i] == vals[i] - m,
        forall|k: int|
            0 <= k < pairs.len() ==> (#[trigger] pairs[k]).0 < vals.len() && pairs[k].1 < vals.len(),
    ensures
        spec_span_total(shifted, pairs) == spec_span_total(vals, pairs),
    decreases pairs.len(),
{
    if pairs.len() > 0 {
        lemma_span_total_shift(vals, shifted, m, pairs.drop_last());
    }
}

/// When the id column of `layer_vars` equals `ids`, the first match found
/// by a linear scan is the sequence's first index of that id.
proof fn lemma_first_index_agrees(lv: Seq<(usize, Variable)>, ids: Seq<usize>, id: usize, fi: int)
    requires
        lv.len() == ids.len(),
        forall|q: int| 0 <= q < lv.len() ==> (#[trigger] lv[q]).0 == ids[q],
        0 <= fi < lv.len(),
        lv[fi].0 == id,
        forall|q: int| 0 <= q < fi ==> (#[trigger] lv[q]).0 != id,
    ensures
        spec_first_index(ids, id) == fi,
{
    assert(ids[fi] == id);
    assert(ids.contains(id));
    ids.index_of_first_ensures(id);
    let found = ids.index_of_first(id);
    assert(found is Some);
    let i = found->0;
    if i < fi {
        assert(lv[i].0 == ids[i]);
        assert(false);
    } else if i > fi {
        assert(ids[fi] == id);
        assert(false);
    }
}

/// The first position in `layer_vars` holding the given node id.
fn find_var_index(layer_vars: &Vec<(usize, Variable)>, id: usize) -> (r: Option<usize>)
    ensures
        match r {
            Some(j) => 0 <= j < layer_vars@.len() && layer_vars@[j as int].0 == id && forall|q: int|
                0 <= q < j ==> (#[trigger] layer_vars@[q]).0 != id,
            None => forall|q: int| 0 <= q < layer_vars@.len() ==> (#[trigger] layer_vars@[q]).0 != id,
        },
{
    let m = layer_vars.len();
    let mut j: usize = 0;
    while j < m
        invariant
            m == layer_vars@.len(),
            0 <= j <= m,
            forall|q: int| 0 <= q < j ==> (#[trigger] layer_vars@[q]).0 != id,
        decreases m - j,
    {
        if layer_vars[j].0 == id {
            return Some(j);
        }
        j += 1;
    }
    None
}

/// When the id column of `layer_vars` equals `ids`, a first-position search
/// in one agrees with membership in the other.
proof fn lemma_ids_contains(lv: Seq<(usize, Variable)>, ids: Seq<usize>, id: usize)
    requires
        lv.len() == ids.len(),
        forall|q: int| 0 <= q < lv.len() ==> (#[trigger] lv[q]).0 == ids[q],
    ensures
        (exists|q: int| 0 <= q < lv.len() && (#[trigger] lv[q]).0 == id) <==> ids.contains(id),
{
    if exists|q: int| 0 <= q < lv.len() && (#[trigger] lv[q]).0 == id {
        let q = choose|q: int| 0 <= q < lv.len() && (#[trigger] lv[q]).0 == id;
        assert(ids[q] == id);
    }
    if ids.contains(id) {
        let q = choose|q: int| 0 <= q < ids.len() && ids[q] == id;
        assert(lv[q].0 == id);
    }
}

/// Checks the returned values against every span pair: each edge inside
/// the lane must strictly increase.
fn check_vals(vals: &Vec<usize>, edges: &Vec<Edge>, layer_vars: &Vec<(usize, Variable)>) -> (ok:
    bool)
    requires
        vals@.len() == layer_vars@.len(),
    ensures
        ok == spec_vals_satisfy(vals@, spec_span_pairs(edges@, spec_ids_of_pairs(layer_vars@))),
{
    let ghost ids = spec_ids_of_pairs(layer_vars@);
    let ne = edges.len();
    let mut k: usize = 0;
    while k < ne
        invariant
            ne == edges@.len(),
            0 <= k <= ne,
            ids == spec_ids_of_pairs(layer_vars@),
            vals@.len() == layer_vars@.len(),
            forall|q: int| 0 <= q < layer_vars@.len() ==> (#[trigger] layer_vars@[q]).0 == ids[q],
            spec_vals_satisfy(vals@, spec_span_pairs(edges@.take(k as int), ids)),
        decreases ne - k,
    {
        let from_idx = find_var_index(layer_vars, edges[k].from);
        let to_idx = find_var_index(layer_vars, edges[k].to);
        proof {
            assert(edges@.take(k as int + 1).drop_last() =~= edges@.take(k as int));
            assert(edges@.take(k as int + 1).last() == edges@[k as int]);
            assert(ids.contains(edges@[k as int].from) <==> from_idx is Some) by {
                lemma_ids_contains_v(layer_vars@, ids, edges@[k as int].from);
            }
            assert(ids.contains(edges@[k as int].to) <==> to_idx is Some) by {
                lemma_ids_contains_v(layer_vars@, ids, edges@[k as int].to);
            }
        }
        if let (Some(fi), Some(ti)) = (from_idx, to_idx) {
            proof {
                lemma_first_index_agrees(layer_vars@, ids, edges@[k as int].from, fi as int);
                lemma_first_index_agrees(layer_vars@, ids, edges@[k as int].to, ti as int);
            }
            if !(vals[fi] < vals[ti]) {
                proof {
                    let pre_pairs = spec_span_pairs(edges@.take(k as int), ids);
                    let pairs = spec_span_pairs(edges@.take(k as int + 1), ids);
                    let p = ((ti as nat, fi as nat));
                    assert(pairs == pre_pairs.push(p));
                    assert(pairs.last() == p);
                    assert(pairs.contains(p));
                    lemma_span_pairs_prefix(edges@, ids, k as int + 1);
                    assert(spec_span_pairs(edges@, ids).contains(p));
                    let j = choose|j: int|
                        0 <= j < spec_span_pairs(edges@, ids).len() && spec_span_pairs(edges@, ids)[j] == p;
                    assert(!spec_vals_satisfy(vals@, spec_span_pairs(edges@, ids)));
                }
                return false;
            }
        }
        k += 1;
    }
    proof {
        assert(edges@.take(ne as int) =~= edges@);
    }
    true
}

/// The id column of a (id, variable) list.
pub open spec fn spec_ids_of_pairs(lv: Seq<(usize, Variable)>) -> Seq<usize> {
    lv.map_values(|p: (usize, Variable)| p.0)
}

/// Same as `lemma_ids_contains`, phrased over the id column itself.
proof fn lemma_ids_contains_v(lv: Seq<(usize, Variable)>, ids: Seq<usize>, id: usize)
    requires
        ids == spec_ids_of_pairs(lv),
    ensures
        (exists|q: int| 0 <= q < lv.len() && (#[trigger] lv[q]).0 == id) <==> ids.contains(id),
{
    if exists|q: int| 0 <= q < lv.len() && (#[trigger] lv[q]).0 == id {
        let q = choose|q: int| 0 <= q < lv.len() && (#[trigger] lv[q]).0 == id;
        assert(ids[q] == id);
    }
    if ids.contains(id) {
        let q = choose|q: int| 0 <= q < ids.len() && ids[q] == id;
        assert(lv[q].0 == id);
    }
}

/// A violated pair in a prefix of the edge list is violated in the whole
/// list.
proof fn lemma_span_pairs_prefix(edges: Seq<Edge>, ids: Seq<usize>, k: int)
    requires
        0 <= k <= edges.len(),
    ensures
        forall|p: (nat, nat)|
            spec_span_pairs(edges.take(k), ids).contains(p) ==> #[trigger] spec_span_pairs(
                edges,
                ids,
            ).contains(p),
    decreases edges.len() - k,
{
    if k < edges.len() {
        lemma_span_pairs_prefix(edges, ids, k + 1);
        assert(edges.take(k + 1).drop_last() =~= edges.take(k));
        assert(edges.take(k + 1).last() == edges[k]);
        assert forall|p: (nat, nat)| spec_span_pairs(edges.take(k), ids).contains(p) implies
            #[trigger] spec_span_pairs(edges.take(k + 1), ids).contains(p) by {
            let pre = spec_span_pairs(edges.take(k), ids);
            let post = spec_span_pairs(edges.take(k + 1), ids);
            let j = choose|j: int| 0 <= j < pre.len() && pre[j] == p;
            assert(post[j] == p);
        }
    } else {
        assert(edges.take(k) =~= edges);
    }
}

/// The least element of a non-empty vector.
fn vec_min(vals: &Vec<usize>) -> (least: usize)
    requires
        vals@.len() >= 1,
    ensures
        least == spec_seq_min(vals@),
        forall|q: int| 0 <= q < vals@.len() ==> least <= #[trigger] vals@[q],
{
    let n = vals.len();
    let mut least = vals[0];
    let mut i: usize = 1;
    proof {
        assert(vals@.take(1) =~= seq![vals@[0]]);
    }
    while i < n
        invariant
            n == vals@.len(),
            1 <= i <= n,
            least == spec_seq_min(vals@.take(i as int)),
            forall|q: int| 0 <= q < i ==> least <= #[trigger] vals@[q],
        decreases n - i,
    {
        proof {
            assert(vals@.take(i as int + 1).drop_last() =~= vals@.take(i as int));
            assert(vals@.take(i as int + 1).last() == vals@[i as int]);
        }
        if vals[i] < least {
            least = vals[i];
        }
        i += 1;
    }
    proof {
        assert(vals@.take(n as int) =~= vals@);
    }
    least
}


// ---------------------------------------------------------------------------
// Lane-crossing marks.
// ---------------------------------------------------------------------------

/// Every node of a pool, in lane order then lane-internal order.
pub open spec fn spec_pool_nodes(pool: Pool) -> Seq<Node> {
    pool.lanes@.map_values(|l: Lane| l.layers@).flatten()
}

/// The last node carrying the given id, if any; mirrors a lookup in a map
/// that was filled in node order, where a later entry overwrites an
/// earlier one.
pub open spec fn spec_last_with_id(nodes: Seq<Node>, id: usize) -> Option<Node>
    decreases nodes.len(),
{
    if nodes.len() == 0 {
        None
    } else if nodes.last().id == id {
        Some(nodes.last())
    } else {
        spec_last_with_id(nodes.drop_last(), id)
    }
}

/// Whether a node's first outgoing edge (in edge order) leaves its lane:
/// the edge's target either resolves to a pool node in another lane, or to
/// no node of the pool at all. Yields that target id along with the flag.
pub open spec fn spec_find_crossing(
    pool_nodes: Seq<Node>,
    edges: Seq<Edge>,
    node: Node,
) -> (bool, Option<usize>)
    decreases edges.len(),
{
    if edges.len() == 0 {
        (false, None)
    } else {
        let e = edges.first();
        if e.from == node.id {
            match spec_last_with_id(pool_nodes, e.to) {
                Some(t) => if !spec_opt_str_like(t.lane, node.lane) {
                    (true, Some(e.to))
                } else {
                    spec_find_crossing(pool_nodes, edges.drop_first(), node)
                },
                None => (true, Some(e.to)),
            }
        } else {
            spec_find_crossing(pool_nodes, edges.drop_first(), node)
        }
    }
}

/// A node with its lane-crossing marks filled in.
pub open spec fn spec_cross_marked(pool_nodes: Seq<Node>, edges: Seq<Edge>, node: Node) -> Node {
    let r = spec_find_crossing(pool_nodes, edges, node);
    Node { crosses_lanes: r.0, to_node_id: r.1, ..node }
}

/// Looks up the last node of the pool carrying the given id.
fn pool_last_node_with_id<'a>(lanes: &'a Vec<Lane>, id: usize) -> (found: Option<&'a Node>)
    ensures
        match found {
            Some(n) => spec_last_with_id(lanes@.map_values(|l: Lane| l.layers@).flatten(), id)
                == Some(*n),
            None => spec_last_with_id(lanes@.map_values(|l: Lane| l.layers@).flatten(), id) is None,
        },
{
    let ghost all = lanes@.map_values(|l: Lane| l.layers@).flatten();
    let nl = lanes.len();
    let mut best: Option<&Node> = None;
    let mut li: usize = 0;
    proof {
        lemma_flatten_prefix(lanes@, 0);
        assert(lanes@.map_values(|l: Lane| l.layers@).take(0) =~= Seq::<Seq<Node>>::empty());
        assert(Seq::<Seq<Node>>::empty().flatten() =~= Seq::<Node>::empty());
    }
    while li < nl
        invariant
            nl == lanes@.len(),
            0 <= li <= nl,
            match best {
                Some(n) => spec_last_with_id(
                    lanes@.map_values(|l: Lane| l.layers@).take(li as int).flatten(),
                    id,
                ) == Some(*n),
                None => spec_last_with_id(
                    lanes@.map_values(|l: Lane| l.layers@).take(li as int).flatten(),
                    id,
                ) is None,
            },
        decreases nl - li,
    {
        let nn = lanes[li].layers.len();
        let mut ni: usize = 0;
        while ni < nn
            invariant
                nl == lanes@.len(),
                0 <= li < nl,
                nn == lanes@[li as int].layers@.len(),
                0 <= ni <= nn,
                match best {
                    Some(n) => spec_last_with_id(
                        lanes@.map_values(|l: Lane| l.layers@).take(li as int).flatten()
                            + lanes@[li as int].layers@.take(ni as int),
                        id,
                    ) == Some(*n),
                    None => spec_last_with_id(
                        lanes@.map_values(|l: Lane| l.layers@).take(li as int).flatten()
                            + lanes@[li as int].layers@.take(ni as int),
                        id,
                    ) is None,
                },
            decreases nn - ni,
        {
            proof {
                let pre = lanes@.map_values(|l: Lane| l.layers@).take(li as int).flatten()
                    + lanes@[li as int].layers@.take(ni as int);
                let post = lanes@.map_values(|l: Lane| l.layers@).take(li as int).flatten()
                    + lanes@[li as int].layers@.take(ni as int + 1);
                assert(post =~= pre.push(lanes@[li as int].layers@[ni as int]));
                assert(post.drop_last() =~= pre);
            }
            if lanes[li].layers[ni].id == id {
                best = Some(&lanes[li].layers[ni]);
            }
            ni += 1;
        }
        proof {
            lemma_flatten_prefix(lanes@, li as int + 1);
            assert(lanes@.map_values(|l: Lane| l.layers@).take(li as int).flatten()
                + lanes@[li as int].layers@.take(nn as int) =~= lanes@.map_values(
                |l: Lane| l.layers@,
            ).take(li as int + 1).flatten());
        }
        li += 1;
    }
    proof {
        assert(lanes@.map_values(|l: Lane| l.layers@).take(nl as int) =~= lanes@.map_values(
            |l: Lane| l.layers@,
        ));
    }
    best
}

/// Flattening a prefix of lane node lists appends lane by lane.
proof fn lemma_flatten_prefix(lanes: Seq<Lane>, k: int)
    requires
        0 <= k <= lanes.len(),
    ensures
        k > 0 ==> lanes.map_values(|l: Lane| l.layers@).take(k).flatten() == lanes.map_values(
            |l: Lane| l.layers@,
        ).take(k - 1).flatten() + lanes[k - 1].layers@,
{
    if k > 0 {
        let m = lanes.map_values(|l: Lane| l.layers@);
        assert(m.take(k) =~= m.take(k - 1).push(lanes[k - 1].layers@));
        m.take(k - 1).lemma_flatten_and_flatten_alt_are_equivalent();
        m.take(k).lemma_flatten_and_flatten_alt_are_equivalent();
        lemma_flatten_alt_push(m.take(k - 1), lanes[k - 1].layers@);
    }
}

/// flatten_alt of a push appends the pushed sequence at the end.
proof fn lemma_flatten_alt_push(ss: Seq<Seq<Node>>, t: Seq<Node>)
    ensures
        ss.push(t).flatten_alt() == ss.flatten_alt() + t,
{
    assert(ss.push(t).drop_last() =~= ss);
    assert(ss.push(t).last() == t);
}

/// Computes, for every node of every pool, whether its first outgoing edge
/// leaves its lane, and marks the node with the flag and the target id.
/// Nothing else changes.
pub fn find_crossings(edges: &Vec<Edge>, pools: &mut Vec<Pool>)
    ensures
        final(pools)@.len() == old(pools)@.len(),
        forall|pi: int| 0 <= pi < old(pools)@.len() ==> spec_pool_cross_marked(
            old(pools)@[pi],
            #[trigger] final(pools)@[pi],
            edges@,
        ),
{
    let np = pools.len();
    let mut pi: usize = 0;
    while pi < np
        invariant
            np == pools@.len(),
            0 <= pi <= np,
            forall|q: int| pi <= q < np ==> #[trigger] pools@[q] == old(pools)@[q],
            forall|q: int| 0 <= q < pi ==> spec_pool_cross_marked(
                old(pools)@[q],
                #[trigger] pools@[q],
                edges@,
            ),
        decreases np - pi,
    {
        let ghost old_pool = pools@[pi as int];
        let ghost pool_nodes = spec_pool_nodes(old_pool);
        // first compute every node's marks against the untouched pool
        let mut marks: Vec<Vec<(bool, Option<usize>)>> = Vec::new();
        let nl = pools[pi].lanes.len();
        let mut li: usize = 0;
        while li < nl
            invariant
                np == pools@.len(),
                0 <= pi < np,
                pools@[pi as int] == old_pool,
                pool_nodes == spec_pool_nodes(old_pool),
                nl == old_pool.lanes@.len(),
                0 <= li <= nl,
                marks@.len() == li,
                forall|a: int, b: int|
                    0 <= a < li && 0 <= b < (#[trigger] marks@[a])@.len() ==> #[trigger] marks@[a]@[b]
                        == spec_find_crossing(pool_nodes, edges@, old_pool.lanes@[a].layers@[b]),
                forall|a: int| 0 <= a < li ==> (#[trigger] marks@[a])@.len()
                    == old_pool.lanes@[a].layers@.len(),
            decreases nl - li,
        {
            let mut lane_marks: Vec<(bool, Option<usize>)> = Vec::new();
            let nn = pools[pi].lanes[li].layers.len();
            let mut ni: usize = 0;
            while ni < nn
                invariant
                    np == pools@.len(),
                    0 <= pi < np,
                    pools@[pi as int] == old_pool,
                    pool_nodes == spec_pool_nodes(old_pool),
                    nl == old_pool.lanes@.len(),
                    0 <= li < nl,
                    nn == old_pool.lanes@[li as int].layers@.len(),
                    0 <= ni <= nn,
                    lane_marks@.len() == ni,
                    forall|b: int| 0 <= b < ni ==> #[trigger] lane_marks@[b] == spec_find_crossing(
                        pool_nodes,
                        edges@,
                        old_pool.lanes@[li as int].layers@[b],
                    ),
                decreases nn - ni,
            {
                let node_ref = &pools[pi].lanes[li].layers[ni];
                let mark = find_crossing_of(&pools[pi].lanes, edges, node_ref);
                lane_marks.push(mark);
                ni += 1;
            }
            marks.push(lane_marks);
            li += 1;
        }
        // then write the marks back
        let mut li2: usize = 0;
        while li2 < nl
            invariant
                np == pools@.len(),
                0 <= pi < np,
                pool_nodes == spec_pool_nodes(old_pool),
                nl == old_pool.lanes@.len(),
                0 <= li2 <= nl,
                marks@.len() == nl,
                forall|a: int, b: int|
                    0 <= a < nl && 0 <= b < (#[trigger] marks@[a])@.len() ==> #[trigger] marks@[a]@[b]
                        == spec_find_crossing(pool_nodes, edges@, old_pool.lanes@[a].layers@[b]),
                forall|a: int| 0 <= a < nl ==> (#[trigger] marks@[a])@.len()
                    == old_pool.lanes@[a].layers@.len(),
                forall|q: int| 0 <= q < np && q != pi ==> #[trigger] pools@[q] == old(pools)@[q]
                    || spec_pool_cross_marked(old(pools)@[q], pools@[q], edges@),
                forall|q: int| pi < q < np ==> #[trigger] pools@[q] == old(pools)@[q],
                forall|q: int| 0 <= q < pi ==> spec_pool_cross_marked(
                    old(pools)@[q],
                    #[trigger] pools@[q],
                    edges@,
                ),
                pools@[pi as int].pool_name@ == old_pool.pool_name@,
                pools@[pi as int].x == old_pool.x,
                pools@[pi as int].y == old_pool.y,
                pools@[pi as int].width == old_pool.width,
                pools@[pi as int].height == old_pool.height,
                pools@[pi as int].lanes@.len() == nl,
                forall|a: int| li2 <= a < nl ==> #[trigger] pools@[pi as int].lanes@[a]
                    == old_pool.lanes@[a],
                forall|a: int| 0 <= a < li2 ==> spec_lane_cross_marked(
                    old_pool,
                    #[trigger] pools@[pi as int].lanes@[a],
                    a,
                    edges@,
                ),
            decreases nl - li2,
        {
            let nn = pools[pi].lanes[li2].layers.len();
            let mut ni2: usize = 0;
            while ni2 < nn
                invariant
                    np == pools@.len(),
                    0 <= pi < np,
                    pool_nodes == spec_pool_nodes(old_pool),
                    nl == old_pool.lanes@.len(),
                    0 <= li2 < nl,
                    nn == old_pool.lanes@[li2 as int].layers@.len(),
                    0 <= ni2 <= nn,
                    marks@.len() == nl,
                    forall|a: int, b: int|
                        0 <= a < nl && 0 <= b < (#[trigger] marks@[a])@.len() ==> #[trigger] marks@[a]@[b]
                            == spec_find_crossing(pool_nodes, edges@, old_pool.lanes@[a].layers@[b]),
                    forall|a: int| 0 <= a < nl ==> (#[trigger] marks@[a])@.len()
                        == old_pool.lanes@[a].layers@.len(),
                    forall|q: int| pi < q < np ==> #[trigger] pools@[q] == old(pools)@[q],
                    forall|q: int| 0 <= q < pi ==> spec_pool_cross_marked(
                        old(pools)@[q],
                        #[trigger] pools@[q],
                        edges@,
                    ),
                    pools@[pi as int].pool_name@ == old_pool.pool_name@,
                    pools@[pi as int].x == old_pool.x,
                    pools@[pi as int].y == old_pool.y,
                    pools@[pi as int].width == old_pool.width,
                    pools@[pi as int].height == old_pool.height,
                    pools@[pi as int].lanes@.len() == nl,
                    forall|a: int| li2 < a < nl ==> #[trigger] pools@[pi as int].lanes@[a]
                        == old_pool.lanes@[a],
                    forall|a: int| 0 <= a < li2 ==> spec_lane_cross_marked(
                        old_pool,
                        #[trigger] pools@[pi as int].lanes@[a],
                        a,
                        edges@,
                    ),
                    pools@[pi as int].lanes@[li2 as int].lane@ == old_pool.lanes@[li2 as int].lane@,
                    pools@[pi as int].lanes@[li2 as int].x == old_pool.lanes@[li2 as int].x,
                    pools@[pi as int].lanes@[li2 as int].y == old_pool.lanes@[li2 as int].y,
                    pools@[pi as int].lanes@[li2 as int].width == old_pool.lanes@[li2 as int].width,
                    pools@[pi as int].lanes@[li2 as int].height == old_pool.lanes@[li2 as int].height,
                    pools@[pi as int].lanes@[li2 as int].layers@.len() == nn,
                    forall|b: int| ni2 <= b < nn ==> #[trigger] pools@[pi as int].lanes@[li2 as int].layers@[b]
                        == old_pool.lanes@[li2 as int].layers@[b],
                    forall|b: int| 0 <= b < ni2 ==> #[trigger] pools@[pi as int].lanes@[li2 as int].layers@[b]
                        == spec_cross_marked(pool_nodes, edges@, old_pool.lanes@[li2 as int].layers@[b]),
                decreases nn - ni2,
            {
                let mark = marks[li2][ni2];
                let pool_ref = &mut pools[pi];
                let lane_ref = &mut pool_ref.lanes[li2];
                lane_ref.layers[ni2].crosses_lanes = mark.0;
                lane_ref.layers[ni2].to_node_id = mark.1;
                ni2 += 1;
            }
            li2 += 1;
        }
        proof {
            assert(spec_pool_cross_marked(old(pools)@[pi as int], pools@[pi as int], edges@));
        }
        pi += 1;
    }
}

/// Relates one lane before and after marking, within its pool.
pub open spec fn spec_lane_cross_marked(
    old_pool: Pool,
    post: Lane,
    li: int,
    edges: Seq<Edge>,
) -> bool {
    let pre = old_pool.lanes@[li];
    &&& post.lane@ == pre.lane@
    &&& post.x == pre.x
    &&& post.y == pre.y
    &&& post.width == pre.width
    &&& post.height == pre.height
    &&& post.layers@.len() == pre.layers@.len()
    &&& forall|b: int| 0 <= b < pre.layers@.len() ==> #[trigger] post.layers@[b]
        == spec_cross_marked(spec_pool_nodes(old_pool), edges, pre.layers@[b])
}

/// Relates a pool before and after marking.
pub open spec fn spec_pool_cross_marked(pre: Pool, post: Pool, edges: Seq<Edge>) -> bool {
    &&& post.pool_name@ == pre.pool_name@
    &&& post.x == pre.x
    &&& post.y == pre.y
    &&& post.width == pre.width
    &&& post.height == pre.height
    &&& post.lanes@.len() == pre.lanes@.len()
    &&& forall|a: int| 0 <= a < pre.lanes@.len() ==> spec_lane_cross_marked(
        pre,
        #[trigger] post.lanes@[a],
        a,
        edges,
    )
}

/// Computes one node's lane-crossing mark against the pool's lanes.
fn find_crossing_of(lanes: &Vec<Lane>, edges: &Vec<Edge>, node: &Node) -> (r: (bool, Option<usize>))
    ensures
        r == spec_find_crossing(
            lanes@.map_values(|l: Lane| l.layers@).flatten(),
            edges@,
            *node,
        ),
{
    let ghost pool_nodes = lanes@.map_values(|l: Lane| l.layers@).flatten();
    let ne = edges.len();
    let mut k: usize = 0;
    proof {
        assert(edges@.skip(0) =~= edges@);
    }
    while k < ne
        invariant
            ne == edges@.len(),
            0 <= k <= ne,
            pool_nodes == lanes@.map_values(|l: Lane| l.layers@).flatten(),
            spec_find_crossing(pool_nodes, edges@, *node) == spec_find_crossing(
                pool_nodes,
                edges@.skip(k as int),
                *node,
            ),
        decreases ne - k,
    {
        proof {
            assert(edges@.skip(k as int).first() == edges@[k as int]);
            assert(edges@.skip(k as int).drop_first() =~= edges@.skip(k as int + 1));
        }
        if edges[k].from == node.id {
            let target = pool_last_node_with_id(lanes, edges[k].to);
            match target {
                Some(t) => {
                    let same = opt_str_eq(&t.lane, &node.lane);
                    if !same {
                        return (true, Some(edges[k].to));
                    }
                },
                None => {
                    return (true, Some(edges[k].to));
                },
            }
        }
        k += 1;
    }
    proof {
        assert(edges@.skip(ne as int) =~= Seq::<Edge>::empty());
    }
    (false, None)
}

/// Compares two optional strings for equal text.
fn opt_str_eq(a: &Option<String>, b: &Option<String>) -> (r: bool)
    ensures
        r == spec_opt_str_like(*a, *b),
{
    match (a, b) {
        (Option::None, Option::None) => true,
        (Option::Some(x), Option::Some(y)) => x.eq(y),
        _ => false,
    }
}


// ---------------------------------------------------------------------------
// The public stage: marks crossings, then solves every lane's program.
// ---------------------------------------------------------------------------

/// The nodes of one lane after crossing marking, in lane order.
pub open spec fn spec_marked_nodes(old_pool: Pool, li: int, edges: Seq<Edge>) -> Seq<Node> {
    Seq::new(
        old_pool.lanes@[li].layers@.len(),
        |b: int| spec_cross_marked(spec_pool_nodes(old_pool), edges, old_pool.lanes@[li].layers@[b]),
    )
}

/// The lane's program has a solution.
pub open spec fn spec_lane_feasible(old_pool: Pool, li: int, edges: Seq<Edge>) -> bool {
    spec_lane_layer_vals(spec_ids_of(spec_marked_nodes(old_pool, li, edges)), edges) is Some
}

/// What one reported layer-assignment error tells: an infeasibility
/// error names a lane whose program is provably unsatisfiable; a solver
/// failure names a lane whose program went unsolved.
pub open spec fn spec_layer_error_named(pools: Seq<Pool>, edges: Seq<Edge>, e: LayoutError) -> bool {
    match e {
        LayoutError::InfeasibleLane(nm) => exists|pi: int, li: int|
            0 <= pi < pools.len() && 0 <= li < pools[pi].lanes@.len() && !(
            #[trigger] spec_lane_satisfiable(
                spec_ids_of(spec_marked_nodes(pools[pi], li, edges)),
                edges,
            )) && !spec_lane_feasible(pools[pi], li, edges) && nm@ == pools[pi].lanes@[li].lane@,
        LayoutError::SolverFailed(nm) => exists|pi: int, li: int|
            0 <= pi < pools.len() && 0 <= li < pools[pi].lanes@.len() && !(
            #[trigger] spec_lane_feasible(pools[pi], li, edges)) && nm@
                == pools[pi].lanes@[li].lane@,
        _ => false,
    }
}

/// Relates one lane of a pool before and after the whole stage: its nodes
/// carry the crossing marks, and — when the lane's program is feasible —
/// the zero-based layer values, sorted by layer; an infeasible lane keeps
/// its order and no layers.
pub open spec fn spec_lane_assigned(old_pool: Pool, post: Lane, li: int, edges: Seq<Edge>) -> bool {
    let marked = spec_marked_nodes(old_pool, li, edges);
    let pre = old_pool.lanes@[li];
    &&& post.lane@ == pre.lane@
    &&& post.x == pre.x
    &&& post.y == pre.y
    &&& post.width == pre.width
    &&& post.height == pre.height
    &&& match spec_lane_layer_vals(spec_ids_of(marked), edges) {
        Some(vals) => {
            &&& post.layers@.to_multiset() == spec_with_layers(marked, vals).to_multiset()
            &&& post.layers@.len() == marked.len()
            &&& spec_sorted_by_layer(post.layers@)
            &&& spec_span_minimal(
                vals,
                spec_lane_bounds(spec_ids_of(marked)),
                spec_span_pairs(edges, spec_ids_of(marked)),
                spec_span_pairs(edges, spec_ids_of(marked)),
            )
            &&& forall|i: int| 0 <= i < vals.len() ==> #[trigger] vals[i] < marked.len()
        },
        None => post.layers@ == marked,
    }
}

/// Relates a pool before and after the whole stage.
pub open spec fn spec_pool_assigned(pre: Pool, post: Pool, edges: Seq<Edge>) -> bool {
    &&& post.pool_name@ == pre.pool_name@
    &&& post.x == pre.x
    &&& post.y == pre.y
    &&& post.width == pre.width
    &&& post.height == pre.height
    &&& post.lanes@.len() == pre.lanes@.len()
    &&& forall|li: int| 0 <= li < pre.lanes@.len() ==> spec_lane_assigned(
        pre,
        #[trigger] post.lanes@[li],
        li,
        edges,
    )
}

/// Marks every node's lane crossings, then assigns each node a
/// non-negative integer layer, lane by lane: every edge inside a lane
/// strictly increases the layer from tail to head, the total span is
/// minimised by the solver, and the lane is sorted by layer. Infeasible
/// lanes (an intra-lane cycle) are left unassigned and reported by name,
/// one error each; the other lanes still complete.
pub fn solve_layer_assignment(graph: &mut Graph) -> (errors: Vec<LayoutError>)
    requires
        forall|pi: int, li: int|
            0 <= pi < old(graph).pools@.len() && 0 <= li < (#[trigger] old(graph).pools@[pi]).lanes@.len()
                ==> (#[trigger] old(graph).pools@[pi].lanes@[li]).layers@.len() <= 0x7fff_ffff,
    ensures
        final(graph).edges == old(graph).edges,
        final(graph).last_node_id == old(graph).last_node_id,
        final(graph).pools@.len() == old(graph).pools@.len(),
        forall|pi: int| 0 <= pi < old(graph).pools@.len() ==> spec_pool_assigned(
            old(graph).pools@[pi],
            #[trigger] final(graph).pools@[pi],
            old(graph).edges@,
        ),
        (errors@.len() == 0) <==> (forall|pi: int, li: int|
            0 <= pi < old(graph).pools@.len() && 0 <= li < old(graph).pools@[pi].lanes@.len()
                ==> #[trigger] spec_lane_feasible(old(graph).pools@[pi], li, old(graph).edges@)),
        forall|k: int|
            0 <= k < errors@.len() ==> spec_layer_error_named(
                old(graph).pools@,
                old(graph).edges@,
                #[trigger] errors@[k],
            ),
{
    let mut errors: Vec<LayoutError> = Vec::new();
    find_crossings(&graph.edges, &mut graph.pools);
    let np = graph.pools.len();
    let mut pi: usize = 0;
    while pi < np
        invariant
            np == graph.pools@.len(),
            np == old(graph).pools@.len(),
            0 <= pi <= np,
            graph.edges == old(graph).edges,
            graph.last_node_id == old(graph).last_node_id,
            forall|q: int, li: int|
                0 <= q < np && 0 <= li < (#[trigger] old(graph).pools@[q]).lanes@.len()
                    ==> (#[trigger] old(graph).pools@[q].lanes@[li]).layers@.len() <= 0x7fff_ffff,
            forall|q: int| 0 <= q < pi ==> spec_pool_assigned(
                old(graph).pools@[q],
                #[trigger] graph.pools@[q],
                old(graph).edges@,
            ),
            forall|q: int| pi <= q < np ==> spec_pool_cross_marked(
                old(graph).pools@[q],
                #[trigger] graph.pools@[q],
                old(graph).edges@,
            ),
            (errors@.len() == 0) <==> (forall|q: int, li: int|
                0 <= q < pi && 0 <= li < old(graph).pools@[q].lanes@.len()
                    ==> #[trigger] spec_lane_feasible(old(graph).pools@[q], li, old(graph).edges@)),
            forall|k: int|
                0 <= k < errors@.len() ==> spec_layer_error_named(
                    old(graph).pools@,
                    old(graph).edges@,
                    #[trigger] errors@[k],
                ),
        decreases np - pi,
    {
        let ghost old_pool = old(graph).pools@[pi as int];
        let nl = graph.pools[pi].lanes.len();
        let mut li: usize = 0;
        while li < nl
            invariant
                np == graph.pools@.len(),
                np == old(graph).pools@.len(),
                0 <= pi < np,
                old_pool == old(graph).pools@[pi as int],
                nl == old_pool.lanes@.len(),
                0 <= li <= nl,
                graph.edges == old(graph).edges,
                graph.last_node_id == old(graph).last_node_id,
                forall|q: int, ql: int|
                    0 <= q < np && 0 <= ql < (#[trigger] old(graph).pools@[q]).lanes@.len()
                        ==> (#[trigger] old(graph).pools@[q].lanes@[ql]).layers@.len() <= 0x7fff_ffff,
                forall|q: int| 0 <= q < pi ==> spec_pool_assigned(
                    old(graph).pools@[q],
                    #[trigger] graph.pools@[q],
                    old(graph).edges@,
                ),
                forall|q: int| pi < q < np ==> spec_pool_cross_marked(
                    old(graph).pools@[q],
                    #[trigger] graph.pools@[q],
                    old(graph).edges@,
                ),
                graph.pools@[pi as int].pool_name@ == old_pool.pool_name@,
                graph.pools@[pi as int].x == old_pool.x,
                graph.pools@[pi as int].y == old_pool.y,
                graph.pools@[pi as int].width == old_pool.width,
                graph.pools@[pi as int].height == old_pool.height,
                graph.pools@[pi as int].lanes@.len() == nl,
                forall|a: int| 0 <= a < li ==> spec_lane_assigned(
                    old_pool,
                    #[trigger] graph.pools@[pi as int].lanes@[a],
                    a,
                    old(graph).edges@,
                ),
                forall|a: int| li <= a < nl ==> spec_lane_cross_marked(
                    old_pool,
                    #[trigger] graph.pools@[pi as int].lanes@[a],
                    a,
                    old(graph).edges@,
                ),
                (errors@.len() == 0) <==> ((forall|q: int, ql: int|
                    0 <= q < pi && 0 <= ql < old(graph).pools@[q].lanes@.len()
                        ==> #[trigger] spec_lane_feasible(old(graph).pools@[q], ql, old(graph).edges@))
                    && (forall|ql: int|
                    0 <= ql < li ==> #[trigger] spec_lane_feasible(old_pool, ql, old(graph).edges@))),
                forall|k: int|
                    0 <= k < errors@.len() ==> spec_layer_error_named(
                        old(graph).pools@,
                        old(graph).edges@,
                        #[trigger] errors@[k],
                    ),
            decreases nl - li,
        {
            let ghost marked = spec_marked_nodes(old_pool, li as int, old(graph).edges@);
            let ghost mid_lane = graph.pools@[pi as int].lanes@[li as int];
            proof {
                assert(mid_lane.layers@ =~= marked);
                assert(spec_ids_of(mid_lane.layers@) == spec_ids_of(marked));
            }
            let r = {
                let lane_ref = &mut graph.pools[pi].lanes[li];
                solve_layers(&graph.edges, lane_ref)
            };
            match r {
                Ok(()) => {
                    proof {
                        assert(spec_with_layers(mid_lane.layers@, spec_lane_layer_vals(
                            spec_ids_of(marked),
                            old(graph).edges@,
                        )->0) =~= spec_with_layers(marked, spec_lane_layer_vals(
                            spec_ids_of(marked),
                            old(graph).edges@,
                        )->0));
                        assert(spec_lane_assigned(
                            old_pool,
                            graph.pools@[pi as int].lanes@[li as int],
                            li as int,
                            old(graph).edges@,
                        ));
                    }
                },
                Err(e) => {
                    proof {
                        assert(!spec_lane_feasible(old_pool, li as int, old(graph).edges@));
                        assert(graph.pools@[pi as int].lanes@[li as int] == mid_lane);
                        assert(spec_lane_assigned(
                            old_pool,
                            graph.pools@[pi as int].lanes@[li as int],
                            li as int,
                            old(graph).edges@,
                        ));
                        assert(old_pool == old(graph).pools@[pi as int]);
                        assert(spec_layer_error_named(old(graph).pools@, old(graph).edges@, e));
                    }
                    errors.push(e);
                },
            }
            li += 1;
        }
        proof {
            assert(spec_pool_assigned(
                old(graph).pools@[pi as int],
                graph.pools@[pi as int],
                old(graph).edges@,
            ));
        }
        pi += 1;
    }
    errors
}


// ---------------------------------------------------------------------------
// Laws of layer assignment.
// ---------------------------------------------------------------------------

/// Law: a lane whose program has no span constraint — no edge joins two
/// of its nodes — always receives layers, and every node of it takes the
/// trivial layer zero.
pub proof fn lemma_edgeless_lane_layers(ids: Seq<usize>, edges: Seq<Edge>)
    requires
        spec_span_pairs(edges, ids).len() == 0,
    ensures
        spec_lane_layer_vals(ids, edges) matches Some(vals) && vals == Seq::new(
            ids.len(),
            |i: int| 0usize,
        ),
{
}

/// Pairwise-distinct ids.
pub open spec fn spec_ids_distinct(ids: Seq<usize>) -> bool {
    forall|p: int, q: int| 0 <= p < q < ids.len() ==> ids[p] != ids[q]
}

/// The least value of a non-empty sequence bounds every element.
proof fn lemma_seq_min_le(vals: Seq<usize>, q: int)
    requires
        0 <= q < vals.len(),
    ensures
        spec_seq_min(vals) <= vals[q],
    decreases vals.len(),
{
    if vals.len() > 1 {
        if q < vals.len() - 1 {
            lemma_seq_min_le(vals.drop_last(), q);
        }
    }
}

/// Every edge with both endpoint ids present contributes its span pair.
proof fn lemma_span_pairs_has_edge(edges: Seq<Edge>, ids: Seq<usize>, k: int)
    requires
        0 <= k < edges.len(),
        ids.contains(edges[k].from),
        ids.contains(edges[k].to),
    ensures
        spec_span_pairs(edges, ids).contains(
            (
                spec_first_index(ids, edges[k].to) as nat,
                spec_first_index(ids, edges[k].from) as nat,
            ),
        ),
    decreases edges.len(),
{
    let p = (
        spec_first_index(ids, edges[k].to) as nat,
        spec_first_index(ids, edges[k].from) as nat,
    );
    if k == edges.len() - 1 {
        let pairs = spec_span_pairs(edges, ids);
        assert(pairs.last() == p);
        assert(pairs.contains(p));
    } else {
        lemma_span_pairs_has_edge(edges.drop_last(), ids, k);
        let pre = spec_span_pairs(edges.drop_last(), ids);
        let post = spec_span_pairs(edges, ids);
        let m = choose|m: int| 0 <= m < pre.len() && pre[m] == p;
        assert(post[m] == p);
        assert(post.contains(p));
    }
}

/// In a duplicate-free id sequence, each id's first position is its own.
proof fn lemma_distinct_first_index(ids: Seq<usize>, i: int)
    requires
        spec_ids_distinct(ids),
        0 <= i < ids.len(),
    ensures
        spec_first_index(ids, ids[i]) == i,
{
    ids.index_of_first_ensures(ids[i]);
    assert(ids.contains(ids[i]));
}

/// Law: after layer assignment succeeds for a lane whose node ids are
/// pairwise distinct, every edge with both endpoints in the lane goes from
/// a strictly lower layer at its tail to a strictly higher layer at its
/// head. `pre` is the lane's node sequence when the stage ran, `post` any
/// reordering (such as the sorted lane) carrying the assigned layers.
pub proof fn lemma_edges_increase_within_lane(
    pre: Seq<Node>,
    edges: Seq<Edge>,
    post: Seq<Node>,
    k: int,
    i: int,
    j: int,
)
    requires
        spec_ids_distinct(spec_ids_of(pre)),
        spec_lane_layer_vals(spec_ids_of(pre), edges) is Some,
        post.to_multiset() == spec_with_layers(
            pre,
            spec_lane_layer_vals(spec_ids_of(pre), edges)->0,
        ).to_multiset(),
        0 <= k < edges.len(),
        0 <= i < post.len(),
        0 <= j < post.len(),
        post[i].id == edges[k].from,
        post[j].id == edges[k].to,
    ensures
        post[i].layer_id is Some,
        post[j].layer_id is Some,
        post[i].layer_id->0 < post[j].layer_id->0,
{
    let ids = spec_ids_of(pre);
    let norm = spec_lane_layer_vals(ids, edges)->0;
    let withl = spec_with_layers(pre, norm);
    let pairs = spec_span_pairs(edges, ids);
    post.to_multiset_ensures();
    withl.to_multiset_ensures();
    assert(post.contains(post[i]));
    assert(post.contains(post[j]));
    assert(withl.to_multiset().contains(post[i]));
    assert(withl.to_multiset().contains(post[j]));
    assert(withl.contains(post[i]));
    assert(withl.contains(post[j]));
    let qi = choose|q: int| 0 <= q < withl.len() && withl[q] == post[i];
    let qj = choose|q: int| 0 <= q < withl.len() && withl[q] == post[j];
    assert(ids[qi] == edges[k].from);
    assert(ids[qj] == edges[k].to);
    assert(ids.contains(edges[k].from));
    assert(ids.contains(edges[k].to));
    lemma_distinct_first_index(ids, qi);
    lemma_distinct_first_index(ids, qj);
    lemma_span_pairs_has_edge(edges, ids, k);
    let p = (qj as nat, qi as nat);
    let m = choose|m: int| 0 <= m < pairs.len() && pairs[m] == p;
    // the edge contributes a span pair, so the lane's program went
    // through the solver
    assert(pairs.len() > 0);
    let s = ilp_layers(spec_lane_bounds(ids), pairs, pairs)->0;
    assert(spec_vals_satisfy(s, pairs));
    assert(s[qi] < s[qj]);
    lemma_seq_min_le(s, qi);
    lemma_seq_min_le(s, qj);
    assert(norm[qi] < norm[qj]);
    assert(post[i].layer_id == Some(norm[qi] as usize));
    assert(post[j].layer_id == Some(norm[qj] as usize));
}

/// Law: layer assignment is deterministic. Two runs of the stage on the
/// same lane contents and the same edge list carry the same layer values:
/// the laid-out node collections are equal as multisets, so every node id
/// receives the same layer in both runs.
pub proof fn lemma_layer_assignment_deterministic(
    pre: Seq<Node>,
    edges: Seq<Edge>,
    a: Seq<Node>,
    b: Seq<Node>,
)
    requires
        spec_lane_layer_vals(spec_ids_of(pre), edges) is Some,
        a.to_multiset() == spec_with_layers(
            pre,
            spec_lane_layer_vals(spec_ids_of(pre), edges)->0,
        ).to_multiset(),
        b.to_multiset() == spec_with_layers(
            pre,
            spec_lane_layer_vals(spec_ids_of(pre), edges)->0,
        ).to_multiset(),
    ensures
        a.to_multiset() == b.to_multiset(),
{
}

} // verus!
