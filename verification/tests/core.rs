use limiga::cdcl::assignment::Assignment;
use limiga::cdcl::clause::LongClause;
use limiga::cdcl::lit::{Lit, Var, VarCodeTooBig, MAX_VAR_CODE};
use limiga::cdcl::preprocessor::{ClausePreProcessor, PreProcessedClause};
use limiga::cdcl::trail::Trail;

/// The literal with the given DIMACS code.
fn lit(code: i32) -> Lit {
    if code < 0 {
        Lit::negative(Var::new_unchecked((-code) as u32))
    } else {
        Lit::positive(Var::new_unchecked(code as u32))
    }
}

#[test]
fn a_long_clause_is_correctly_iterated() {
    let lits = [lit(1), lit(2), lit(-3)];
    let clause = LongClause::new(&lits);

    assert_eq!(lits.to_vec(), clause.iter().copied().collect::<Vec<_>>());
}

#[test]
fn var_construction() {
    let var = Var::try_from(0);
    assert_eq!(Ok(Var::new_unchecked(0)), var);

    let var = Var::try_from(MAX_VAR_CODE + 1);
    assert_eq!(Err(VarCodeTooBig(MAX_VAR_CODE + 1)), var);
}

#[test]
fn literal_construction() {
    let positive = Lit::positive(Var::new_unchecked(0));
    let negative = Lit::negative(Var::new_unchecked(1));

    assert!(positive.is_positive());
    assert!(negative.is_negative());

    assert_eq!(Var::new_unchecked(0), positive.var());
    assert_eq!(Var::new_unchecked(1), negative.var());
}

#[test]
fn literal_macro() {
    let positive = lit(1);
    let negative = lit(-1);

    assert_eq!(positive.var(), negative.var());
    assert!(positive.is_positive());
    assert!(negative.is_negative());
}

#[test]
fn negation_flips_the_sign_and_keeps_the_variable() {
    let positive = lit(7);
    assert_eq!(lit(-7), !positive);
    assert_eq!(positive, !!positive);
    assert_eq!(positive.var(), (!positive).var());
    assert_eq!(14, (!positive).code());
    assert_eq!(15, positive.code());
}

#[test]
fn len_of_trail_is_number_of_enqueued_lits() {
    let mut trail = Trail::default();
    assert_eq!(0, trail.len());

    trail.enqueue(lit(1));
    trail.enqueue(lit(2));

    assert_eq!(2, trail.len());
}

#[test]
fn backtracking_returns_iterator_with_removed_literals() {
    let mut trail = Trail::default();

    trail.enqueue(lit(1));
    trail.enqueue(lit(2));
    trail.enqueue(lit(3));
    trail.push();
    trail.enqueue(lit(4));
    trail.enqueue(lit(5));
    trail.enqueue(lit(6));
    trail.push();
    trail.enqueue(lit(7));
    trail.enqueue(lit(8));
    trail.enqueue(lit(9));

    let removed_lits = trail.backtrack_to(0);
    assert_eq!(
        vec![lit(9), lit(8), lit(7), lit(6), lit(5), lit(4)],
        removed_lits
    );
    assert_eq!(3, trail.len());
}

#[test]
fn backtracking_to_an_inner_level_keeps_the_outer_levels() {
    let mut trail = Trail::default();
    trail.enqueue(lit(1));
    trail.push();
    trail.enqueue(lit(2));
    trail.push();
    trail.enqueue(lit(3));
    trail.enqueue(lit(4));

    assert_eq!(vec![lit(4), lit(3)], trail.backtrack_to(1));
    assert_eq!(2, trail.len());
    assert_eq!(1, trail.num_levels());
    assert_eq!(Some(lit(2)), trail.pop());
}

#[test]
fn initially_literals_are_unassigned() {
    let mut assignment = Assignment::default();
    assignment.grow_to(Var::try_from(3).unwrap());

    for code in 0..=3 {
        let lit = Lit::positive(Var::try_from(code).unwrap());
        assert_eq!(None, assignment.value(lit));
        assert_eq!(None, assignment.value(!lit));
    }
}

#[test]
fn an_assignment_can_be_queried() {
    let mut assignment = Assignment::default();
    assignment.grow_to(Var::try_from(3).unwrap());

    let lit = Lit::positive(Var::try_from(1).unwrap());
    assignment.assign(lit);

    assert_eq!(Some(true), assignment.value(lit));
    assert_eq!(Some(false), assignment.value(!lit));
}

#[test]
fn unassigning_forgets_the_value() {
    let mut assignment = Assignment::default();
    assignment.grow_to(Var::try_from(2).unwrap());
    assignment.assign(lit(-2));
    assert_eq!(Some(true), assignment.value(lit(-2)));
    assignment.unassign(lit(-2));
    assert_eq!(None, assignment.value(lit(2)));
    assert_eq!(None, assignment.value(lit(1)));
}

#[test]
fn excluded_middle_preprocessed_to_true() {
    let mut preprocessor = ClausePreProcessor::default();
    let mut assignment = Assignment::default();
    assignment.grow_to(lit(1).var());

    let result = preprocessor.preprocess(&[lit(1), lit(-1)], &assignment);

    assert_eq!(PreProcessedClause::Satisfiable, result);
}

#[test]
fn duplicate_literals_are_removed() {
    let mut preprocessor = ClausePreProcessor::default();
    let mut assignment = Assignment::default();
    assignment.grow_to(lit(3).var());

    let result = preprocessor.preprocess(&[lit(1), lit(2), lit(3), lit(1)], &assignment);

    assert_eq!(PreProcessedClause::Lits(&[lit(1), lit(2), lit(3)]), result);
}

#[test]
fn clauses_with_a_true_literal() {
    let mut preprocessor = ClausePreProcessor::default();
    let mut assignment = Assignment::default();
    assignment.grow_to(lit(3).var());
    assignment.assign(lit(-2));

    let result = preprocessor.preprocess(&[lit(1), lit(-2), lit(3)], &assignment);

    assert_eq!(PreProcessedClause::Satisfiable, result);
}

#[test]
fn false_literals_are_kept_and_sorted_by_the_preprocessor() {
    let mut preprocessor = ClausePreProcessor::default();
    let mut assignment = Assignment::default();
    assignment.grow_to(lit(3).var());
    assignment.assign(lit(2));

    let result = preprocessor.preprocess(&[lit(3), lit(-2), lit(1)], &assignment);

    assert_eq!(PreProcessedClause::Lits(&[lit(1), lit(-2), lit(3)]), result);
}
