use dpll::formula::{Formula, Literal};

fn parse(text: &str) -> Formula {
    Formula::parse_dimacs(&text.as_bytes().to_vec()).expect("input should parse")
}

#[test]
fn single_positive_unit_is_sat() {
    let formula = parse("p cnf 1 1\n1 0\n");
    let assignment = formula.solve().expect("satisfiable");
    assert!(assignment.assigned(Literal::from_var(1)));
}

#[test]
fn single_negative_unit_is_sat() {
    let formula = parse("p cnf 1 1\n-1 0\n");
    let assignment = formula.solve().expect("satisfiable");
    assert!(assignment.assigned(Literal::from_var(-1)));
    assert!(!assignment.assigned(Literal::from_var(1)));
}

#[test]
fn complementary_units_are_unsat() {
    let formula = parse("p cnf 1 2\n1 0\n-1 0\n");
    assert!(formula.solve().is_none());
}

#[test]
fn unit_propagation_derives_second_variable() {
    let formula = parse("p cnf 2 2\n1 2 0\n-1 2 0\n");
    let assignment = formula.solve().expect("satisfiable");
    assert!(assignment.assigned(Literal::from_var(2)));
}

#[test]
fn three_variable_formula_is_sat_and_sound() {
    let formula = parse("p cnf 3 3\n1 2 3 0\n-1 -2 0\n-1 -3 0\n");
    let assignment = formula.solve().expect("satisfiable");
    // every retained clause holds a literal assigned with matching polarity
    let clause1 = [1i64, 2, 3];
    let clause2 = [-1i64, -2];
    let clause3 = [-1i64, -3];
    for clause in [&clause1[..], &clause2[..], &clause3[..]] {
        assert!(clause.iter().any(|&v| assignment.assigned(Literal::from_var(v))));
    }
}

#[test]
fn empty_clause_set_is_trivially_sat() {
    let formula = parse("p cnf 2 0\n");
    assert!(formula.solve().is_some());
}

#[test]
fn empty_clause_is_unsat() {
    let formula = parse("p cnf 1 1\n0\n");
    assert!(formula.solve().is_none());
}

#[test]
fn full_truth_table_contradiction_is_unsat() {
    let formula = parse("p cnf 2 4\n1 2 0\n1 -2 0\n-1 2 0\n-1 -2 0\n");
    assert!(formula.solve().is_none());
}

#[test]
fn backtracking_finds_negative_branch() {
    // variable 1 must be false: trying it positively violates both binary
    // clauses together with the unit on variable 2
    let formula = parse("p cnf 2 3\n2 0\n-1 -2 0\n-1 2 0\n");
    let assignment = formula.solve().expect("satisfiable");
    assert!(assignment.assigned(Literal::from_var(-1)));
    assert!(assignment.assigned(Literal::from_var(2)));
}

#[test]
fn propagation_cascades_through_chain() {
    // 1 forces 2, 2 forces 3, 3 forces 4
    let formula = parse("p cnf 4 4\n1 0\n-1 2 0\n-2 3 0\n-3 4 0\n");
    let assignment = formula.solve().expect("satisfiable");
    for v in 1..=4i64 {
        assert!(assignment.assigned(Literal::from_var(v)));
    }
}

#[test]
fn assign_propagates_units_in_place() {
    let mut formula = parse("p cnf 2 2\n1 2 0\n-1 2 0\n");
    formula.assign(Literal::from_var(1));
    assert!(formula.assignment.assigned(Literal::from_var(1)));
    assert!(formula.assignment.assigned(Literal::from_var(2)));
    assert!(formula.solved());
    assert!(!formula.unsolvable());
}

#[test]
fn assign_then_un_assign_restores_state() {
    let mut formula = parse("p cnf 2 2\n1 2 0\n-1 2 0\n");
    let lit = Literal::from_var(1);
    formula.assign(lit);
    formula.un_assign(lit);
    assert!(!formula.assignment.id_assigned(0));
    assert!(!formula.assignment.id_assigned(1));
    assert!(!formula.solved());
    assert!(!formula.unsolvable());
}

#[test]
fn un_assign_restores_after_contradiction() {
    // assigning variable 1 positively forces 2 and violates the last clause
    let mut formula = parse("p cnf 2 3\n-1 2 0\n-1 -2 0\n1 0\n");
    let lit = Literal::from_var(1);
    formula.assign(lit);
    assert!(formula.unsolvable());
    formula.un_assign(lit);
    assert!(!formula.unsolvable());
    assert!(!formula.assignment.id_assigned(0));
    assert!(!formula.assignment.id_assigned(1));
}

#[test]
fn formula_iter_walks_unsatisfied_clauses() {
    let mut formula = parse("p cnf 2 2\n1 0\n2 0\n");
    formula.assign(Literal::from_var(1));
    let mut count = 0;
    let mut iter = formula.iter();
    while let Some(clause) = iter.next() {
        // only the clause over variable 2 is still unsatisfied
        assert_eq!(clause.num_literals(&formula.assignment), 1);
        count += 1;
    }
    assert_eq!(count, 1);
}

fn dimacs_for(num_vars: usize, clauses: &[Vec<i64>]) -> String {
    let mut text = format!("p cnf {} {}\n", num_vars, clauses.len());
    for clause in clauses {
        for v in clause {
            text.push_str(&format!("{} ", v));
        }
        text.push_str("0\n");
    }
    text
}

fn pigeonhole(pigeons: usize, holes: usize) -> (usize, Vec<Vec<i64>>) {
    let var = |p: usize, h: usize| (p * holes + h + 1) as i64;
    let mut clauses: Vec<Vec<i64>> = Vec::new();
    for p in 0..pigeons {
        clauses.push((0..holes).map(|h| var(p, h)).collect());
    }
    for h in 0..holes {
        for p1 in 0..pigeons {
            for p2 in (p1 + 1)..pigeons {
                clauses.push(vec![-var(p1, h), -var(p2, h)]);
            }
        }
    }
    (pigeons * holes, clauses)
}

#[test]
fn pigeonhole_with_enough_holes_is_sat() {
    let (num_vars, clauses) = pigeonhole(3, 3);
    let formula = parse(&dimacs_for(num_vars, &clauses));
    let assignment = formula.solve().expect("satisfiable");
    for clause in &clauses {
        assert!(clause.iter().any(|&v| assignment.assigned(Literal::from_var(v))));
    }
}

#[test]
fn pigeonhole_with_too_few_holes_is_unsat() {
    let (num_vars, clauses) = pigeonhole(4, 3);
    let formula = parse(&dimacs_for(num_vars, &clauses));
    assert!(formula.solve().is_none());
}

#[test]
fn matches_truth_table_on_all_two_variable_formulas() {
    let pool: [&[i64]; 8] = [
        &[1],
        &[-1],
        &[2],
        &[-2],
        &[1, 2],
        &[1, -2],
        &[-1, 2],
        &[-1, -2],
    ];
    for mask in 0u32..256 {
        let mut clauses: Vec<Vec<i64>> = Vec::new();
        for (ci, clause) in pool.iter().enumerate() {
            if mask & (1 << ci) != 0 {
                clauses.push(clause.to_vec());
            }
        }
        let text = dimacs_for(2, &clauses);
        let formula = parse(&text);
        let result = formula.solve();
        let mut satisfiable = false;
        for bits in 0..4u32 {
            let holds = |v: i64| {
                let idx = v.unsigned_abs() as u32 - 1;
                let positive = bits & (1 << idx) != 0;
                if v > 0 {
                    positive
                } else {
                    !positive
                }
            };
            if clauses.iter().all(|clause| clause.iter().any(|&v| holds(v))) {
                satisfiable = true;
            }
        }
        match result {
            Some(assignment) => {
                assert!(satisfiable, "a model was returned where none exists: {}", text);
                for clause in &clauses {
                    assert!(
                        clause.iter().any(|&v| assignment.assigned(Literal::from_var(v))),
                        "returned model violates a clause: {}",
                        text
                    );
                }
            },
            None => {
                assert!(!satisfiable, "a model was missed: {}", text);
            },
        }
    }
}

#[test]
fn solve_continues_from_a_decision() {
    let mut formula = parse("p cnf 2 2\n-1 2 0\n1 2 0\n");
    formula.assign(Literal::from_var(-1));
    let assignment = formula.solve().expect("satisfiable");
    assert!(assignment.assigned(Literal::from_var(-1)));
    assert!(assignment.assigned(Literal::from_var(2)));
}

#[test]
fn lowest_variable_is_tried_positively_first() {
    // deciding variable 1 positively forces variable 2 false; any other
    // decision order or polarity would leave variable 2 true
    let formula = parse("p cnf 2 2\n1 2 0\n-1 -2 0\n");
    let assignment = formula.solve().expect("satisfiable");
    assert!(assignment.assigned(Literal::from_var(1)));
    assert!(assignment.assigned(Literal::from_var(-2)));
}

#[test]
fn returned_assignment_is_complete() {
    // the clause set leaves variable 2 untouched; the result still gives
    // it a polarity
    let formula = parse("p cnf 3 1\n1 0\n");
    let assignment = formula.solve().expect("satisfiable");
    for id in 0..3 {
        assert!(assignment.id_assigned(id));
    }
    // untouched variables come back with the positive polarity, keeping the
    // result first in the search order
    assert!(assignment.assigned(Literal::from_var(2)));
    assert!(assignment.assigned(Literal::from_var(3)));
}
