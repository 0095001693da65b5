use while_lang::ast::Program;
use while_lang::{Interpreter, Lexer, Outcome, Parser, Stop, SyntaxError, Token};

fn tree(source: &str) -> Program {
    let tokens = Lexer::new(source).lex().expect("the text lexes");
    Parser::new(tokens).parse().expect("the tokens parse")
}

fn run(source: &str, values: &[u64]) -> Outcome {
    Interpreter::new(values).run(tree(source))
}

#[test]
fn result_register_is_not_an_input() {
    let outcome = run("x1 := x1 + 1", &[0]);
    assert_eq!(outcome.result, Ok(0));
    assert_eq!(outcome.output, Vec::<u64>::new());
}

#[test]
fn two_increments_in_sequence() {
    let outcome = run("x0 := x1 + 1;x0 := x0 + 1", &[5]);
    assert_eq!(outcome.result, Ok(7));
}

#[test]
fn loop_counts_down_and_ends() {
    let outcome = run("WHILE x1 != 0 DO x0 := x0 + 1;x1 := x1 - 1 END", &[4]);
    assert_eq!(outcome.result, Ok(4));
}

#[test]
fn loop_uses_one_unit_of_fuel_for_each_iteration() {
    let source = "WHILE x1 != 0 DO x0 := x0 + 1;x1 := x1 - 1 END";
    let tree = tree(source);
    assert_eq!(Interpreter::new(&[4]).run_with_fuel(&tree, 4).result, Ok(4));
    assert_eq!(
        Interpreter::new(&[4]).run_with_fuel(&tree, 3).result,
        Err(Stop::OutOfFuel)
    );
}

#[test]
fn equality_assignment_gives_one_or_zero() {
    assert_eq!(run("x0 := [x1 = x2]", &[3, 3]).result, Ok(1));
    assert_eq!(run("x0 := [x1 = x2]", &[3, 4]).result, Ok(0));
}

#[test]
fn missing_constant_is_a_syntax_error() {
    let tokens = Lexer::new("x1 := x2 +").lex().expect("the text lexes");
    assert_eq!(
        tokens,
        vec![Token::Var(1), Token::Assign, Token::Var(2), Token::Plus, Token::Eof]
    );
    let result: Result<Program, SyntaxError> = Parser::new(tokens).parse();
    assert_eq!(
        result,
        Err(SyntaxError::InvalidConstant { found: Token::Eof })
    );
}

#[test]
fn increment_stops_at_the_maximum() {
    assert_eq!(run("x0 := x1 + 1", &[u64::MAX]).result, Ok(u64::MAX));
    assert_eq!(run("x0 := x1 + 1", &[u64::MAX - 1]).result, Ok(u64::MAX));
    assert_eq!(run("x0 := x1 + 0", &[u64::MAX]).result, Ok(u64::MAX));
}

#[test]
fn decrement_stops_at_zero() {
    assert_eq!(run("x0 := x1 - 1", &[0]).result, Ok(0));
    assert_eq!(run("x0 := x1 - 1", &[1]).result, Ok(0));
    assert_eq!(run("x0 := x1 - 1", &[7]).result, Ok(6));
    assert_eq!(run("x0 := x1 - 0", &[7]).result, Ok(7));
}

#[test]
fn unset_variable_reads_as_zero() {
    assert_eq!(run("x0 := x9", &[1, 2]).result, Ok(0));
    assert_eq!(run("x0 := [x7 = x8]", &[]).result, Ok(1));
    let outcome = run("?x5; ; x0 := x5 + 1", &[3]);
    assert_eq!(outcome.output, vec![0]);
    assert_eq!(outcome.result, Ok(1));
}

#[test]
fn variable_zero_starts_at_zero_whatever_is_supplied() {
    assert_eq!(run("x1 := x1", &[9, 8, 7]).result, Ok(0));
    assert_eq!(run("x0 := x3", &[9, 8, 7]).result, Ok(7));
}

#[test]
fn conditional_runs_twice_while_its_variable_stays_zero() {
    let twice = "IF x1 = 0 THEN x2 := x2 + 1 END; IF x1 = 0 THEN x2 := x2 + 1 END; x0 := x2";
    assert_eq!(run(twice, &[0, 5]).result, Ok(7));
    assert_eq!(run(twice, &[1, 5]).result, Ok(5));
}

#[test]
fn conditional_on_one_compares_with_one() {
    let source = "IF x1 = 1 THEN x0 := x0 + 1 END";
    assert_eq!(run(source, &[1]).result, Ok(1));
    assert_eq!(run(source, &[0]).result, Ok(0));
    assert_eq!(run(source, &[2]).result, Ok(0));
}

#[test]
fn printed_lines_come_in_order() {
    let outcome = run(
        "WHILE x1 != 0 DO ?x1; ; x1 := x1 - 1 END; ?x0; ; x0 := x2",
        &[3, 11],
    );
    assert_eq!(outcome.output, vec![3, 2, 1, 0]);
    assert_eq!(outcome.result, Ok(11));
}

#[test]
fn program_without_loop_needs_no_fuel() {
    let source = "x0 := x1 + 1; IF x0 = 1 THEN ?x0; END; x0 := x0 + 1";
    let outcome = Interpreter::new(&[0]).run_with_fuel(&tree(source), 0);
    assert_eq!(outcome.output, vec![1]);
    assert_eq!(outcome.result, Ok(2));
    let again = Interpreter::new(&[0]).run(tree(source));
    assert_eq!(again, outcome);
}

#[test]
fn endless_loop_runs_out_of_fuel() {
    let tree = tree("x1 := x1 + 1; WHILE x1 != 0 DO ?x1; END");
    let outcome = Interpreter::new(&[]).run_with_fuel(&tree, 1000);
    assert_eq!(outcome.result, Err(Stop::OutOfFuel));
    assert_eq!(outcome.output, vec![1; 1000]);
    let longer = Interpreter::new(&[]).run_with_fuel(&tree, 1500);
    assert_eq!(longer.result, Err(Stop::OutOfFuel));
    assert_eq!(longer.output, vec![1; 1500]);
}

#[test]
fn nested_loops_multiply() {
    let source = "WHILE x1 != 0 DO \
                    x3 := x2; \
                    WHILE x3 != 0 DO x0 := x0 + 1; x3 := x3 - 1 END; \
                    x1 := x1 - 1 \
                  END";
    assert_eq!(run(source, &[6, 7]).result, Ok(42));
}

#[test]
fn comment_and_blank_lines_are_skipped() {
    let source = "// adds one\n\tx0 := x1 + 1 // to the input\r\n\n// done";
    assert_eq!(run(source, &[41]).result, Ok(42));
}
