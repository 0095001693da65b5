use while_lang::ast::{Assignment, If, Program, Statement, While};
use while_lang::{Interpreter, Stop};

fn arithmetic(lhs: u64, rhs_var: u64, rhs_const: i8) -> Statement {
    Statement::Assignment(Assignment {
        uses_equality: false,
        lhs,
        rhs_var,
        rhs_var2: 0,
        rhs_const,
    })
}

fn equality(lhs: u64, rhs_var: u64, rhs_var2: u64) -> Statement {
    Statement::Assignment(Assignment {
        uses_equality: true,
        lhs,
        rhs_var,
        rhs_var2,
        rhs_const: 0,
    })
}

fn result(values: &[u64], tree: Program) -> Result<u64, Stop> {
    Interpreter::new(values).run(tree).result
}

#[test]
fn empty_program_yields_zero() {
    let outcome = Interpreter::new(&[4, 5]).run_with_fuel(&vec![], 0);
    assert_eq!(outcome.result, Ok(0));
    assert_eq!(outcome.output, Vec::<u64>::new());
}

#[test]
fn write_far_past_the_store_fills_the_gap_with_zeros() {
    let tree = vec![
        arithmetic(1000, 1, 1),
        Statement::Print(1000),
        Statement::Print(999),
        Statement::Print(3),
        Statement::Print(1001),
        arithmetic(0, 2, 0),
    ];
    let outcome = Interpreter::new(&[7, 8]).run_with_fuel(&tree, 0);
    assert_eq!(outcome.output, vec![8, 0, 0, 0]);
    assert_eq!(outcome.result, Ok(8));
}

#[test]
fn write_within_the_store_changes_one_variable() {
    let tree = vec![
        arithmetic(2, 1, 0),
        Statement::Print(1),
        Statement::Print(2),
        Statement::Print(3),
    ];
    let outcome = Interpreter::new(&[7, 8, 9]).run_with_fuel(&tree, 0);
    assert_eq!(outcome.output, vec![7, 7, 9]);
}

#[test]
fn write_at_the_store_limit_stops_the_run() {
    let tree = vec![
        Statement::Print(1),
        arithmetic(u64::MAX, 1, 0),
        Statement::Print(1),
        arithmetic(0, 1, 0),
    ];
    let outcome = Interpreter::new(&[5]).run_with_fuel(&tree, 0);
    assert_eq!(outcome.result, Err(Stop::StoreLimit));
    assert_eq!(outcome.output, vec![5]);
}

#[test]
fn read_of_the_largest_index_yields_zero() {
    assert_eq!(result(&[5], vec![arithmetic(0, u64::MAX, 1)]), Ok(1));
}

#[test]
fn equality_compares_unset_variables_as_zero() {
    assert_eq!(result(&[0], vec![equality(0, 1, 50)]), Ok(1));
    assert_eq!(result(&[3], vec![equality(0, 1, 50)]), Ok(0));
    assert_eq!(result(&[3], vec![equality(0, 1, 1)]), Ok(1));
}

#[test]
fn constant_of_a_conditional_other_than_zero_means_one() {
    let tree = |condition_const: i8| {
        vec![Statement::If(If {
            condition_var: 1,
            condition_const,
            program: vec![arithmetic(0, 0, 1)],
        })]
    };
    assert_eq!(result(&[1], tree(1)), Ok(1));
    assert_eq!(result(&[1], tree(5)), Ok(1));
    assert_eq!(result(&[1], tree(-1)), Ok(1));
    assert_eq!(result(&[5], tree(5)), Ok(0));
    assert_eq!(result(&[0], tree(0)), Ok(1));
    assert_eq!(result(&[1], tree(0)), Ok(0));
}

#[test]
fn constant_of_an_assignment_is_added_as_an_unsigned_number() {
    assert_eq!(result(&[10], vec![arithmetic(0, 1, 5)]), Ok(15));
    assert_eq!(result(&[u64::MAX - 2], vec![arithmetic(0, 1, 5)]), Ok(u64::MAX));
    assert_eq!(result(&[0], vec![arithmetic(0, 1, -2)]), Ok(u64::MAX - 1));
    assert_eq!(result(&[1], vec![arithmetic(0, 1, -2)]), Ok(u64::MAX));
    assert_eq!(result(&[9], vec![arithmetic(0, 1, -2)]), Ok(u64::MAX));
    assert_eq!(result(&[0], vec![arithmetic(0, 1, -128)]), Ok(u64::MAX - 127));
}

#[test]
fn loop_tests_its_variable_before_the_first_iteration() {
    let tree = vec![Statement::While(While {
        condition: 1,
        program: vec![arithmetic(0, 0, 1)],
    })];
    let outcome = Interpreter::new(&[0]).run_with_fuel(&tree, 0);
    assert_eq!(outcome.result, Ok(0));
}

#[test]
fn fuel_counts_the_iterations_of_all_loops_together() {
    let tree = || {
        vec![Statement::While(While {
            condition: 1,
            program: vec![
                arithmetic(2, 3, 0),
                Statement::While(While {
                    condition: 2,
                    program: vec![arithmetic(0, 0, 1), arithmetic(2, 2, -1)],
                }),
                arithmetic(1, 1, -1),
            ],
        })]
    };
    assert_eq!(Interpreter::new(&[2, 0, 3]).run_with_fuel(&tree(), 8).result, Ok(6));
    assert_eq!(
        Interpreter::new(&[2, 0, 3]).run_with_fuel(&tree(), 7).result,
        Err(Stop::OutOfFuel)
    );
}

#[test]
fn run_stopped_for_fuel_keeps_what_was_printed() {
    let tree = vec![
        Statement::Print(1),
        Statement::While(While {
            condition: 1,
            program: vec![Statement::Print(2), arithmetic(2, 2, 1)],
        }),
        Statement::Print(1),
    ];
    let outcome = Interpreter::new(&[1]).run_with_fuel(&tree, 3);
    assert_eq!(outcome.result, Err(Stop::OutOfFuel));
    assert_eq!(outcome.output, vec![1, 0, 1, 2]);
}

#[test]
fn same_run_twice_gives_the_same_outcome() {
    let tree = || {
        vec![
            Statement::While(While {
                condition: 1,
                program: vec![Statement::Print(1), arithmetic(1, 1, -1)],
            }),
            equality(0, 1, 2),
        ]
    };
    let first = Interpreter::new(&[3]).run_with_fuel(&tree(), 10);
    let second = Interpreter::new(&[3]).run_with_fuel(&tree(), 10);
    assert_eq!(first, second);
    assert_eq!(first.output, vec![3, 2, 1]);
    assert_eq!(first.result, Ok(1));
}

#[test]
fn run_with_enough_fuel_goes_as_a_run_with_more() {
    let tree = vec![
        Statement::While(While {
            condition: 1,
            program: vec![Statement::Print(1), arithmetic(1, 1, -1), arithmetic(0, 0, 1)],
        }),
        Statement::Print(0),
    ];
    let exact = Interpreter::new(&[5]).run_with_fuel(&tree, 5);
    assert_eq!(exact.output, vec![5, 4, 3, 2, 1, 5]);
    assert_eq!(exact.result, Ok(5));
    assert_eq!(Interpreter::new(&[5]).run_with_fuel(&tree, 6), exact);
    assert_eq!(Interpreter::new(&[5]).run_with_fuel(&tree, u64::MAX), exact);
    let short = Interpreter::new(&[5]).run_with_fuel(&tree, 2);
    assert_eq!(short.result, Err(Stop::OutOfFuel));
    assert_eq!(short.output, vec![5, 4]);
    assert_eq!(Interpreter::new(&[5]).run(tree), exact);
}
