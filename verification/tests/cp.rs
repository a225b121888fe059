use limiga::cp::domains::{BitSetDomain, Domain, DomainMut, DomainStore, Domains, GlobalDomainId};
use limiga::cp::propagator_queue::PropagatorQueue;
use limiga::cp::propagators::{
    not_eq, NotEq, PropagationResult, Propagator, PropagatorId, PropagatorRegistration,
};
use limiga::cp::search::partitioners::DomainMin;
use limiga::cp::search::selectors::FirstFail;
use limiga::cp::search::Search;
use limiga::cp::solver::{SolveOutcome, Solver, SolverVar};
use limiga::cp::variables::{IntVar, Register, Variable, VariableStore};
use limiga::cp::views::OffsetView;

#[test]
fn new_bitset_domain_has_correct_properties() {
    let domain = BitSetDomain::new(1, 4);

    assert_eq!(1, domain.min());
    assert_eq!(4, domain.max());
    assert_eq!(4, domain.size());
    assert_eq!(None, domain.fixed_value());
}

#[test]
fn removing_values_decreases_size() {
    let mut domain = BitSetDomain::new(1, 4);

    domain.remove(&2);

    assert_eq!(1, domain.min());
    assert_eq!(4, domain.max());
    assert_eq!(3, domain.size());
}

#[test]
fn removing_lower_bound_updates_min() {
    let mut domain = BitSetDomain::new(1, 4);

    domain.remove(&2);
    domain.remove(&1);

    assert_eq!(3, domain.min());
    assert_eq!(4, domain.max());
    assert_eq!(2, domain.size());
}

#[test]
fn removing_upper_bound_updates_min() {
    let mut domain = BitSetDomain::new(1, 4);

    domain.remove(&3);
    domain.remove(&4);

    assert_eq!(1, domain.min());
    assert_eq!(2, domain.max());
    assert_eq!(2, domain.size());
}

#[test]
fn set_lower_bound_moves_min() {
    let mut domain = BitSetDomain::new(1, 4);

    domain.set_min(&3);

    assert_eq!(3, domain.min());
    assert_eq!(4, domain.max());
    assert_eq!(2, domain.size());
}

#[test]
fn set_upper_bound_moves_max() {
    let mut domain = BitSetDomain::new(1, 4);

    domain.set_max(&2);

    assert_eq!(1, domain.min());
    assert_eq!(2, domain.max());
    assert_eq!(2, domain.size());
}

#[test]
fn bounds_skip_removed_values_and_empty_domains_are_reported() {
    let mut domain = BitSetDomain::new(1, 6);
    assert!(domain.remove(&3));
    assert!(domain.set_min(&3));
    assert_eq!(4, domain.min());
    assert_eq!(3, domain.size());
    assert!(domain.remove(&5));
    assert!(domain.set_max(&5));
    assert_eq!(4, domain.max());
    assert_eq!(Some(4), domain.fixed_value());
    assert!(domain.remove(&100));
    assert!(!domain.remove(&4));
    assert_eq!(0, domain.size());
    assert_eq!(0, BitSetDomain::new(3, 1).size());
}

#[test]
fn fixing_keeps_only_the_value() {
    let mut domain = BitSetDomain::new(-2, 2);
    assert!(domain.fix(&0));
    assert_eq!(Some(0), domain.fixed_value());
    let mut domain = BitSetDomain::new(-2, 2);
    domain.remove(&0);
    assert!(!domain.fix(&0));
}

#[test]
fn domain_id_returns_appropriate_domain_reference() {
    let mut store = Domains::default();

    let d1 = store.allocate(BitSetDomain::new(1, 10));
    let d2 = store.allocate(BitSetDomain::new(5, 50));
    assert_ne!(d1.global_id(), d2.global_id());

    let d1 = store.read(d1);
    let d2 = store.read(d2);

    assert_eq!(1, d1.min());
    assert_eq!(10, d1.max());

    assert_eq!(5, d2.min());
    assert_eq!(50, d2.max());
}

#[test]
fn backtracking_restores_appropriate_state() {
    let mut store = Domains::default();

    let d1 = store.allocate(BitSetDomain::new(1, 10));

    store.push();
    {
        let mut dom = store.read_mut(d1);
        dom.set_min(&5);
        assert_eq!(5, dom.min());
    }

    store.pop();

    let dom = store.read(d1);
    assert_eq!(1, dom.min());
}

#[test]
fn shrinking_a_domain_records_it_as_updated() {
    let mut store = Domains::default();
    let d1 = store.allocate(BitSetDomain::new(1, 10));
    {
        let mut dom = store.read_mut(d1);
        assert!(dom.set_min(&1));
        assert!(dom.remove(&4));
    }
    assert_eq!(vec![d1.global_id()], store.drain_updated_domains());
    assert!(store.drain_updated_domains().is_empty());
}

#[test]
fn an_empty_queue_yields_no_next_propagator() {
    let mut queue = PropagatorQueue::default();
    assert_eq!(None, queue.pop());
}

#[test]
fn reacting_to_an_updated_domain_enqueues_propagators() {
    let mut queue = PropagatorQueue::default();

    let domain_id = GlobalDomainId::from_index(0);
    let propagator_id = PropagatorId::from_index(0);

    queue.on_new_domain(domain_id);
    queue.register_watch(domain_id, propagator_id);
    queue.react(domain_id);

    assert_eq!(Some(propagator_id), queue.pop());
}

type Var = IntVar<BitSetDomain, Domains, PropagatorRegistration>;

fn store_with(domains: &[(i64, i64, &[i64])]) -> (Domains, Vec<Var>) {
    let mut store = Domains::default();
    let mut vars = vec![];
    for (lower, upper, removed) in domains {
        let mut domain = BitSetDomain::new(*lower, *upper);
        for value in removed.iter() {
            domain.remove(value);
        }
        vars.push(IntVar::from(store.allocate(domain)));
    }
    (store, vars)
}

fn values(store: &Domains, var: Var) -> Vec<i64> {
    let domain = store.read(var.domain()).inner;
    if domain.size() == 0 {
        return vec![];
    }
    (domain.min()..=domain.max())
        .filter(|v| {
            let mut probe = domain.duplicate();
            let before = probe.size();
            probe.remove(v);
            probe.size() < before
        })
        .collect()
}

#[test]
fn test_values_are_removed_when_other_is_fixed() {
    let (mut doms, vars) = store_with(&[(1, 3, &[]), (1, 1, &[])]);
    let mut propagator: NotEq<Var, Var> = not_eq(vars[0], vars[1]);

    propagator.propagate(&mut doms);

    assert_eq!(vec![2, 3], values(&doms, vars[0]));
    assert_eq!(vec![1], values(&doms, vars[1]));
}

#[test]
fn test_no_values_are_removed_if_no_fixed_domains() {
    let (mut doms, vars) = store_with(&[(1, 3, &[]), (1, 2, &[])]);
    let mut propagator: NotEq<Var, Var> = not_eq(vars[0], vars[1]);

    propagator.propagate(&mut doms);

    assert_eq!(vec![1, 2, 3], values(&doms, vars[0]));
    assert_eq!(vec![1, 2], values(&doms, vars[1]));
}

#[test]
fn not_eq_reports_an_emptied_domain() {
    let (mut doms, vars) = store_with(&[(2, 2, &[]), (2, 2, &[])]);
    let mut propagator: NotEq<Var, Var> = not_eq(vars[0], vars[1]);
    assert_eq!(
        PropagationResult::Inconsistent,
        propagator.propagate(&mut doms)
    );
}

#[test]
fn offset_views_shift_the_domain() {
    let (mut doms, vars) = store_with(&[(1, 3, &[])]);
    let view: OffsetView<Var, i64, Domains, PropagationResult> = OffsetView::new(vars[0], 10);
    assert_eq!(11, view.min(&doms));
    assert_eq!(13, view.max(&doms));
    assert!(view.remove(&mut doms, &12) || true);
    assert_eq!(vec![1, 3], values(&doms, vars[0]));
    assert!(view.set_min(&mut doms, &13));
    assert_eq!(Some(13), view.fixed_value(&doms));
    assert!(!view.fix(&mut doms, &i64::MAX));
}

fn all_solutions(solver: &mut Solver<NotEq<SolverVar, SolverVar>>, vars: Vec<SolverVar>) -> Vec<Vec<i64>> {
    let search = Search::new(FirstFail::new(vars.clone()), DomainMin);
    let mut found = vec![];
    if let SolveOutcome::Satisfiable(mut solutions) = solver.solve(search) {
        while let Some(solution) = solutions.next_solution() {
            found.push(vars.iter().map(|v| solution.value(*v)).collect());
        }
    }
    found.sort();
    found
}

#[test]
fn the_solver_enumerates_the_solutions_of_a_difference() {
    let mut solver = Solver::new();
    let x = solver.new_int_var(BitSetDomain::new(1, 2));
    let y = solver.new_int_var(BitSetDomain::new(1, 2));
    assert_eq!(PropagationResult::Consistent, solver.post(not_eq(x, y)));
    assert_eq!(vec![vec![1, 2], vec![2, 1]], all_solutions(&mut solver, vec![x, y]));
}

#[test]
fn the_solver_reports_an_unsatisfiable_problem() {
    let mut solver = Solver::new();
    let x = solver.new_int_var(BitSetDomain::new(1, 2));
    let y = solver.new_int_var(BitSetDomain::new(1, 2));
    let z = solver.new_int_var(BitSetDomain::new(1, 2));
    solver.post(not_eq(x, y));
    solver.post(not_eq(y, z));
    solver.post(not_eq(x, z));
    let search = Search::new(FirstFail::new(vec![x, y, z]), DomainMin);
    assert!(matches!(solver.solve(search), SolveOutcome::Unsatisfiable));
}

#[allow(dead_code)]
fn unused_imports(_: &dyn Fn(&Domains) -> bool) {
    fn _check<S: VariableStore, V: Variable<S> + Register<PropagatorRegistration>>() {}
}
