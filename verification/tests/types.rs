use dpll::formula::{Assignment, Clause, Literal};

#[test]
fn from_var_maps_positive_references() {
    let lit = Literal::from_var(3);
    assert_eq!(lit.id, 2);
    assert!(!lit.negated);
}

#[test]
fn from_var_maps_negative_references() {
    let lit = Literal::from_var(-42);
    assert_eq!(lit.id, 41);
    assert!(lit.negated);
}

#[test]
fn not_flips_polarity_only() {
    let lit = Literal::from_var(5);
    let neg = lit.not();
    assert_eq!(neg.id, lit.id);
    assert!(neg.negated);
    assert_eq!(neg.not(), lit);
}

#[test]
fn fresh_assignment_is_unassigned() {
    let assignment = Assignment::new(3);
    for id in 0..3 {
        assert!(!assignment.id_assigned(id));
    }
}

#[test]
fn assign_and_un_assign_one_variable() {
    let mut assignment = Assignment::new(2);
    let lit = Literal::from_var(-2);
    assignment.assign(lit);
    assert!(assignment.id_assigned(1));
    assert!(assignment.assigned(lit));
    assert!(!assignment.assigned(lit.not()));
    assert!(assignment.falsified(lit.not()));
    assignment.un_assign(lit);
    assert!(!assignment.id_assigned(1));
    assert!(!assignment.assigned(lit));
    assert!(!assignment.falsified(lit));
}

#[test]
fn clause_status_follows_the_assignment() {
    let mut clause = Clause::new();
    clause.add(Literal::from_var(1));
    clause.add(Literal::from_var(-2));
    let mut assignment = Assignment::new(2);
    assert!(!clause.solved(&assignment));
    assert!(!clause.unsolvable(&assignment));
    assert_eq!(clause.num_literals(&assignment), 2);

    assignment.assign(Literal::from_var(-1));
    assert!(!clause.solved(&assignment));
    assert_eq!(clause.num_literals(&assignment), 1);

    assignment.assign(Literal::from_var(2));
    assert!(!clause.solved(&assignment));
    assert!(clause.unsolvable(&assignment));
    assert_eq!(clause.num_literals(&assignment), 0);
}

#[test]
fn satisfied_clause_counts_live_literals() {
    let mut clause = Clause::new();
    clause.add(Literal::from_var(1));
    clause.add(Literal::from_var(2));
    let mut assignment = Assignment::new(2);
    assignment.assign(Literal::from_var(1));
    assert!(clause.solved(&assignment));
    assert_eq!(clause.num_literals(&assignment), 2);
}

#[test]
fn contains_complement_detects_the_pair() {
    let mut clause = Clause::new();
    clause.add(Literal::from_var(1));
    clause.add(Literal::from_var(-3));
    assert!(clause.contains_complement(Literal::from_var(-1)));
    assert!(clause.contains_complement(Literal::from_var(3)));
    assert!(!clause.contains_complement(Literal::from_var(1)));
    assert!(!clause.contains_complement(Literal::from_var(2)));
}

#[test]
fn clause_iter_yields_live_literals_in_order() {
    let mut clause = Clause::new();
    clause.add(Literal::from_var(1));
    clause.add(Literal::from_var(-2));
    clause.add(Literal::from_var(3));
    let mut assignment = Assignment::new(3);
    assignment.assign(Literal::from_var(2));
    let mut iter = clause.iter(&assignment);
    assert_eq!(iter.next(), Some(Literal::from_var(1)));
    assert_eq!(iter.next(), Some(Literal::from_var(3)));
    assert_eq!(iter.next(), None);
}
