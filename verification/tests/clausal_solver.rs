use limiga::cdcl::assignment::Assignment;
use limiga::cdcl::brancher::Brancher;
use limiga::cdcl::domains::Conflict;
use limiga::cdcl::propagation::{Context, Explanation, LocalId, PropagatorVar, Reason};
use limiga::cdcl::integer::interval_domain::IntInterval;
use limiga::cdcl::lit::{Lit, Var};
use limiga::cdcl::solver::{SolveResult, Solver};
use limiga::cdcl::termination::{Indefinite, TimeBudget, Terminator};
use std::time::{Duration, Instant};
use limiga::constraints::bool_lin_leq::LinearBool;
use limiga::constraints::{bool_and, bool_lin_eq, bool_lin_leq};

/// Decides the first unassigned variable, in the order the variables were created, to false.
struct FirstUnassigned {
    vars: Vec<Var>,
}

impl FirstUnassigned {
    fn new() -> FirstUnassigned {
        FirstUnassigned { vars: Vec::new() }
    }
}

impl Brancher for FirstUnassigned {
    fn on_new_var(&mut self, var: Var) {
        self.vars.push(var);
    }

    fn on_variable_activated(&mut self, _var: Var) {}

    fn on_conflict(&mut self) {}

    fn on_variable_unassigned(&mut self, _var: Var) {}

    fn next_decision(&mut self, assignment: &Assignment) -> Option<Lit> {
        self.vars
            .iter()
            .map(|&var| Lit::negative(var))
            .find(|&lit| assignment.value(lit).is_none())
    }
}

fn values(result: SolveResult<'_>, lits: &[Lit]) -> Option<Vec<bool>> {
    match result {
        SolveResult::Satisfiable(solution) => Some(
            lits.iter()
                .map(|lit| solution.value(lit.var()) == lit.is_positive())
                .collect(),
        ),
        _ => None,
    }
}

#[test]
fn a_satisfiable_formula_gets_a_solution_satisfying_every_clause() {
    let mut solver: Solver<LinearBool> = Solver::new();
    let lits = solver.new_lits(3);
    let (a, b, c) = (lits[0], lits[1], lits[2]);
    solver.add_clause(&[a, b]);
    solver.add_clause(&[!a]);
    solver.add_clause(&[!b, c, !c]);
    solver.add_clause(&[!c, !b]);

    let result = solver.solve(Indefinite, FirstUnassigned::new());
    assert_eq!(Some(vec![false, true, false]), values(result, &[a, b, c]));
}

#[test]
fn a_unit_clause_and_its_negation_are_unsatisfiable() {
    let mut solver: Solver<LinearBool> = Solver::new();
    let a = solver.new_lit();
    solver.add_clause(&[a]);
    solver.add_clause(&[!a]);

    assert!(matches!(
        solver.solve(Indefinite, FirstUnassigned::new()),
        SolveResult::Unsatisfiable
    ));
}

#[test]
fn the_empty_clause_is_unsatisfiable() {
    let mut solver: Solver<LinearBool> = Solver::new();
    let _ = solver.new_lit();
    solver.add_clause(&[]);

    assert!(matches!(
        solver.solve(Indefinite, FirstUnassigned::new()),
        SolveResult::Unsatisfiable
    ));
}

#[test]
fn conflicts_are_learned_from_and_the_search_goes_on() {
    // Every assignment of a and b is excluded but a = true, b = true; the decisions try false first.
    let mut solver: Solver<LinearBool> = Solver::new();
    let lits = solver.new_lits(2);
    let (a, b) = (lits[0], lits[1]);
    solver.add_clause(&[a, b]);
    solver.add_clause(&[a, !b]);
    solver.add_clause(&[!a, b]);

    let result = solver.solve(Indefinite, FirstUnassigned::new());
    assert_eq!(Some(vec![true, true]), values(result, &[a, b]));
}

#[test]
fn pigeons_do_not_fit_in_fewer_holes() {
    // Three pigeons, two holes: p[i][h] says that pigeon i sits in hole h.
    let mut solver: Solver<LinearBool> = Solver::new();
    let lits = solver.new_lits(6);
    let p = |i: usize, h: usize| lits[2 * i + h];
    for i in 0..3 {
        solver.add_clause(&[p(i, 0), p(i, 1)]);
    }
    for h in 0..2 {
        for i in 0..3 {
            for j in (i + 1)..3 {
                solver.add_clause(&[!p(i, h), !p(j, h)]);
            }
        }
    }

    assert!(matches!(
        solver.solve(Indefinite, FirstUnassigned::new()),
        SolveResult::Unsatisfiable
    ));
}

#[test]
fn new_lits_are_positive_and_fresh() {
    let mut solver: Solver<LinearBool> = Solver::new();
    let lits = solver.new_lits(3);
    assert_eq!(3, solver.num_vars_exec());
    for (code, lit) in lits.iter().enumerate() {
        assert!(lit.is_positive());
        assert_eq!(code as u32, lit.var().code());
    }
}

#[test]
fn bool_and_makes_the_result_the_conjunction() {
    let mut solver: Solver<LinearBool> = Solver::new();
    let lits = solver.new_lits(3);
    let (a, b, r) = (lits[0], lits[1], lits[2]);
    assert!(bool_and(&mut solver, a, b, r));
    solver.add_clause(&[r]);

    let result = solver.solve(Indefinite, FirstUnassigned::new());
    assert_eq!(Some(vec![true, true, true]), values(result, &[a, b, r]));
}

#[test]
fn an_interval_domain_orders_its_literals() {
    let mut solver: Solver<LinearBool> = Solver::new();
    let y = solver.new_domain(IntInterval::factory(0, 3));
    assert_eq!(5, solver.num_vars_exec());
    let domain = solver.domain(y);
    let at_least: Vec<Lit> = (0..5).map(|v| domain.lower_bound_lit(v)).collect();
    solver.add_clause(&[at_least[2]]);

    // [y >= 2] makes [y >= 1] and [y >= 0] true; [y >= 4] is false; [y >= 3] is decided false.
    let result = solver.solve(Indefinite, FirstUnassigned::new());
    assert_eq!(
        Some(vec![true, true, true, false, false]),
        values(result, &at_least)
    );
}

#[test]
fn the_sum_of_true_literals_bounds_the_domain_from_below() {
    let mut solver: Solver<LinearBool> = Solver::new();
    let x = solver.new_lits(3);
    let y = solver.new_domain(IntInterval::factory(0, 3));
    let at_least: Vec<Lit> = (0..5).map(|v| solver.domain(y).lower_bound_lit(v)).collect();
    assert!(bool_lin_leq(&mut solver, x.clone(), y));
    solver.add_clause(&[x[0]]);
    solver.add_clause(&[x[1]]);

    // Deciding x[2] false wakes the propagator up: two literals are true, so y >= 2.
    let result = solver.solve(Indefinite, FirstUnassigned::new());
    assert_eq!(
        Some(vec![true, true, false, true, true, true, false, false]),
        values(result, &[x[0], x[1], x[2], at_least[0], at_least[1], at_least[2], at_least[3], at_least[4]])
    );
}

#[test]
fn a_sum_above_the_upper_bound_is_a_conflict() {
    // x[1] is true and one of x[0], x[2] is true: the sum is at least 2, above the upper bound 1.
    let mut solver: Solver<LinearBool> = Solver::new();
    let x = solver.new_lits(3);
    let y = solver.new_domain(IntInterval::factory(0, 1));
    assert!(bool_lin_leq(&mut solver, x.clone(), y));
    solver.add_clause(&[x[1]]);
    solver.add_clause(&[x[0], x[2]]);

    assert!(matches!(
        solver.solve(Indefinite, FirstUnassigned::new()),
        SolveResult::Unsatisfiable
    ));
}

#[test]
fn a_sum_that_reaches_the_upper_bound_fixes_the_other_literals_to_false() {
    let mut solver: Solver<LinearBool> = Solver::new();
    let x = solver.new_lits(3);
    let y = solver.new_domain(IntInterval::factory(0, 1));
    let at_least_one = solver.domain(y).lower_bound_lit(1);
    assert!(bool_lin_leq(&mut solver, x.clone(), y));
    solver.add_clause(&[x[1]]);

    // Deciding x[0] false wakes the propagator up: one literal is true, which is the upper bound.
    let result = solver.solve(Indefinite, FirstUnassigned::new());
    assert_eq!(
        Some(vec![false, true, false, true]),
        values(result, &[x[0], x[1], x[2], at_least_one])
    );
}

#[test]
fn a_domain_below_zero_is_raised_to_zero_by_an_empty_sum() {
    let mut solver: Solver<LinearBool> = Solver::new();
    let x = solver.new_lits(2);
    let y = solver.new_domain(IntInterval::factory(-2, 2));
    let at_least_zero = solver.domain(y).lower_bound_lit(0);
    assert!(bool_lin_leq(&mut solver, x.clone(), y));

    let result = solver.solve(Indefinite, FirstUnassigned::new());
    assert_eq!(Some(vec![true]), values(result, &[at_least_zero]));
}

#[test]
fn bool_lin_eq_posts_two_propagators() {
    let mut solver: Solver<LinearBool> = Solver::new();
    let x = solver.new_lits(2);
    let y = solver.new_domain(IntInterval::factory(0, 2));
    assert!(bool_lin_eq(&mut solver, x.clone(), y));
    assert!(matches!(
        solver.solve(Indefinite, FirstUnassigned::new()),
        SolveResult::Satisfiable(_)
    ));
}

#[test]
fn set_min_makes_the_bound_literal_true_or_reports_the_conflict() {
    let mut ctx = Context::new();
    for code in 0..5 {
        ctx.add_var(Var::new_unchecked(code));
    }
    let reason = Lit::positive(Var::new_unchecked(4));
    assert!(ctx.enqueue(reason, Reason::Decision));
    // [y >= 0], [y >= 1], [y >= 2], [y >= 3] for y in 0..=2.
    let lits: Vec<Lit> = (0..4).map(|code| Lit::positive(Var::new_unchecked(code))).collect();
    let mut domain = IntInterval::from_literals(0, 2, lits.clone());
    let id = LocalId::from(0);

    // A bound not above the lower bound changes nothing.
    assert!(domain.set_min(0, Explanation::new(vec![reason]), &mut ctx, id).is_ok());
    assert_eq!(None, ctx.lit_value(lits[0]));

    assert!(domain.set_min(1, Explanation::new(vec![reason]), &mut ctx, id).is_ok());
    assert_eq!(Some(true), ctx.lit_value(lits[1]));
    assert_eq!(1, domain.min());
    assert_eq!(2, domain.max());

    let above = PropagatorVar { variable: lits[3], local_id: id };
    assert!(ctx.assign(above, false, Explanation::new(vec![reason])).is_ok());
    match domain.set_min(5, Explanation::new(vec![reason]), &mut ctx, id) {
        Err(Conflict::Propagator { lit, explanation }) => {
            assert_eq!(lits[3], lit);
            assert_eq!(&[reason][..], explanation.lits());
        }
        _ => panic!("raising the bound above the upper bound is a conflict"),
    }
}

#[test]
fn an_infinite_budget_never_runs_out() {
    let budget = TimeBudget::infinite();
    assert!(!budget.should_stop());
    assert!(!budget.has_passed_at(&(Instant::now() + Duration::from_secs(3600))));
}

#[test]
fn a_time_budget_runs_out_after_its_duration() {
    let budget = TimeBudget::starting_now(Duration::from_secs(60));
    assert!(!budget.should_stop());
    assert!(!budget.has_passed_at(&Instant::now()));
    assert!(budget.has_passed_at(&(Instant::now() + Duration::from_secs(120))));
}

/// Always proposes the same literal.
struct Stubborn {
    lit: Lit,
}

impl Brancher for Stubborn {
    fn on_new_var(&mut self, _var: Var) {}

    fn on_variable_activated(&mut self, _var: Var) {}

    fn on_conflict(&mut self) {}

    fn on_variable_unassigned(&mut self, _var: Var) {}

    fn next_decision(&mut self, _assignment: &Assignment) -> Option<Lit> {
        Some(self.lit)
    }
}

/// Stops the search before it starts.
struct StopAtOnce;

impl Terminator for StopAtOnce {
    fn should_stop(&self) -> bool {
        true
    }
}

#[test]
fn a_decision_on_an_assigned_literal_gives_unknown() {
    let mut solver: Solver<LinearBool> = Solver::new();
    let lits = solver.new_lits(2);
    let (a, b) = (lits[0], lits[1]);
    solver.add_clause(&[a, b]);

    assert!(matches!(
        solver.solve(Indefinite, Stubborn { lit: a }),
        SolveResult::Unknown
    ));
}

#[test]
fn a_terminator_that_stops_at_once_gives_unknown() {
    let mut solver: Solver<LinearBool> = Solver::new();
    let lits = solver.new_lits(2);
    solver.add_clause(&[lits[0], lits[1]]);

    assert!(matches!(
        solver.solve(StopAtOnce, FirstUnassigned::new()),
        SolveResult::Unknown
    ));
}

#[test]
fn a_solver_without_variables_is_satisfiable_at_once() {
    let mut solver: Solver<LinearBool> = Solver::new();
    assert!(matches!(solver.solve(StopAtOnce, FirstUnassigned::new()), SolveResult::Satisfiable(_)));
}
