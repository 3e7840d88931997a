use dpll::formula::{Formula, Literal};
use dpll::parser::ParseError;

fn parse_err(text: &str) -> ParseError {
    Formula::parse_dimacs(&text.as_bytes().to_vec()).expect_err("input should be rejected")
}

#[test]
fn empty_input_misses_problem_line() {
    assert_eq!(parse_err(""), ParseError::MissingProblemLine);
}

#[test]
fn comments_only_misses_problem_line() {
    assert_eq!(parse_err("c a comment\nc another\n"), ParseError::MissingProblemLine);
}

#[test]
fn three_token_problem_line_is_rejected() {
    assert_eq!(parse_err("p cnf 1\n"), ParseError::WrongParameterCount);
}

#[test]
fn five_token_problem_line_is_rejected() {
    assert_eq!(parse_err("p cnf 1 1 1\n1 0\n"), ParseError::WrongParameterCount);
}

#[test]
fn problem_line_must_start_with_p() {
    assert_eq!(parse_err("q cnf 1 1\n1 0\n"), ParseError::NotProblemLine);
}

#[test]
fn only_cnf_format_is_supported() {
    assert_eq!(parse_err("p dnf 1 1\n1 0\n"), ParseError::UnsupportedFormat);
}

#[test]
fn variable_count_must_be_numeric() {
    assert_eq!(parse_err("p cnf x 1\n1 0\n"), ParseError::BadVariableCount);
}

#[test]
fn clause_count_must_be_numeric() {
    assert_eq!(parse_err("p cnf 1 y\n1 0\n"), ParseError::BadClauseCount);
}

#[test]
fn clause_token_must_be_an_integer() {
    assert_eq!(parse_err("p cnf 1 1\nz 0\n"), ParseError::IllegalVariable);
}

#[test]
fn negative_zero_is_rejected() {
    assert_eq!(parse_err("p cnf 1 1\n-0 0\n"), ParseError::IllegalVariable);
}

#[test]
fn variable_past_declared_count_is_rejected() {
    assert_eq!(parse_err("p cnf 1 1\n2 0\n"), ParseError::VariableOutOfRange);
}

#[test]
fn missing_terminator_means_not_enough_clauses() {
    assert_eq!(parse_err("p cnf 1 2\n1 0\n"), ParseError::NotEnoughClauses);
}

#[test]
fn unterminated_clause_means_not_enough_clauses() {
    assert_eq!(parse_err("p cnf 1 1\n1\n"), ParseError::NotEnoughClauses);
}

#[test]
fn extra_clause_means_too_many_clauses() {
    assert_eq!(parse_err("p cnf 1 1\n1 0 1 0\n"), ParseError::TooManyClauses);
}

#[test]
fn trailing_garbage_means_too_many_clauses() {
    assert_eq!(parse_err("p cnf 1 1\n1 0 x\n"), ParseError::TooManyClauses);
}

#[test]
fn comments_before_problem_line_are_skipped() {
    let formula = Formula::parse_dimacs(&b"c header\nc more\np cnf 1 1\n1 0\n".to_vec())
        .expect("input should parse");
    assert!(formula.solve().is_some());
}

#[test]
fn trailing_whitespace_is_accepted() {
    let formula = Formula::parse_dimacs(&b"p cnf 1 1\n1 0\n   \n\t\n".to_vec())
        .expect("input should parse");
    assert!(formula.solve().is_some());
}

#[test]
fn tautological_clause_is_dropped() {
    // a clause with both 1 and -1 never constrains the result
    let formula = Formula::parse_dimacs(&b"p cnf 2 2\n1 -1 0\n2 -2 1 -1 0\n".to_vec())
        .expect("input should parse");
    // only tautologies were declared, so nothing remains to satisfy
    assert!(formula.solved());
    assert!(formula.solve().is_some());
}

#[test]
fn tautology_before_real_clauses_keeps_index_exact() {
    // the dropped clause must not shift the reverse index of the survivors
    let formula = Formula::parse_dimacs(&b"p cnf 2 3\n1 -1 0\n2 0\n-2 1 0\n".to_vec())
        .expect("input should parse");
    let assignment = formula.solve().expect("satisfiable");
    assert!(assignment.assigned(Literal::from_var(2)));
    assert!(assignment.assigned(Literal::from_var(1)));
}

#[test]
fn error_messages_describe_the_failure() {
    assert_eq!(ParseError::MissingProblemLine.message(), "Missing problem line");
    assert_eq!(ParseError::NotEnoughClauses.message(), "Not enough clauses");
    assert_eq!(ParseError::TooManyClauses.message(), "Too many clauses");
}

#[test]
fn zero_variable_count_is_rejected() {
    assert_eq!(parse_err("p cnf 0 0\n"), ParseError::BadVariableCount);
}

#[test]
fn zero_clause_count_is_accepted() {
    assert!(Formula::parse_dimacs(&b"p cnf 2 0\n".to_vec()).is_ok());
}
