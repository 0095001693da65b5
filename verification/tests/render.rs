use while_lang::ast::{Assignment, If, Program, Statement, While};
use while_lang::{render_text, Interpreter, Lexer, Parser};

fn arithmetic(lhs: u64, rhs_var: u64, rhs_var2: u64, rhs_const: i8) -> Statement {
    Statement::Assignment(Assignment {
        uses_equality: false,
        lhs,
        rhs_var,
        rhs_var2,
        rhs_const,
    })
}

fn equality(lhs: u64, rhs_var: u64, rhs_var2: u64, rhs_const: i8) -> Statement {
    Statement::Assignment(Assignment {
        uses_equality: true,
        lhs,
        rhs_var,
        rhs_var2,
        rhs_const,
    })
}

fn sample(unused: u64, unused_const: i8, condition_const: i8) -> Program {
    vec![
        Statement::Print(1),
        arithmetic(2, 1, unused, 0),
        Statement::While(While {
            condition: 2,
            program: vec![
                arithmetic(0, 0, unused, 1),
                Statement::If(If {
                    condition_var: 3,
                    condition_const,
                    program: vec![
                        Statement::Print(0),
                        equality(3, 3, 4, unused_const),
                    ],
                }),
                arithmetic(2, 2, unused, -1),
                Statement::Print(2),
            ],
        }),
        equality(10, 0, 1, unused_const),
        Statement::Print(10),
        Statement::Print(18446744073709551615),
    ]
}

fn read(text: &str) -> Program {
    let tokens = Lexer::new(text).lex().expect("the text lexes");
    Parser::new(tokens).parse().expect("the tokens parse")
}

#[test]
fn text_has_one_space_after_each_token() {
    let tree = vec![
        arithmetic(0, 1, 0, 1),
        Statement::While(While {
            condition: 12,
            program: vec![arithmetic(12, 12, 0, -1), Statement::Print(0)],
        }),
        Statement::If(If {
            condition_var: 305,
            condition_const: 1,
            program: vec![equality(0, 1, 2, 0)],
        }),
        arithmetic(7, 8, 0, 0),
    ];
    assert_eq!(
        render_text(&tree),
        "x0 := x1 + 1 ; WHILE x12 != 0 DO x12 := x12 - 1 ; ? x0 ; END ; \
         IF x305 = 1 THEN x0 := [ x1 = x2 ] END ; x7 := x8 "
    );
}

#[test]
fn text_of_an_index_has_all_its_digits() {
    let text = |index: u64| render_text(&vec![Statement::Print(index)]);
    assert_eq!(text(0), "? x0 ; ");
    assert_eq!(text(9), "? x9 ; ");
    assert_eq!(text(10), "? x10 ; ");
    assert_eq!(text(1002003), "? x1002003 ; ");
    assert_eq!(text(u64::MAX), "? x18446744073709551615 ; ");
}

#[test]
fn text_of_the_empty_program_is_empty() {
    assert_eq!(render_text(&vec![]), "");
}

#[test]
fn grammatical_tree_is_read_back_unchanged() {
    let tree = sample(0, 0, 1);
    assert_eq!(read(&render_text(&tree)), tree);
    let tree = sample(0, 0, 0);
    assert_eq!(read(&render_text(&tree)), tree);
}

#[test]
fn tree_is_read_back_in_canonical_form() {
    assert_eq!(read(&render_text(&sample(77, 9, -3))), sample(0, 0, 1));
    assert_eq!(read(&render_text(&sample(1, -1, 0))), sample(0, 0, 0));
}

#[test]
fn tree_read_back_runs_as_the_tree_does() {
    for values in [vec![], vec![3], vec![2, 0, 1], vec![4, 9, 0, 0]] {
        for fuel in [0, 2, 100] {
            let tree = sample(77, 9, -3);
            let direct = Interpreter::new(&values).run_with_fuel(&tree, fuel);
            let reread = Interpreter::new(&values).run_with_fuel(&read(&render_text(&tree)), fuel);
            assert_eq!(direct, reread);
        }
    }
    let outcome = Interpreter::new(&[2, 0, 1]).run(sample(0, 0, 1));
    assert_eq!(outcome.output, vec![2, 1, 1, 0, 1, 0]);
    assert_eq!(outcome.result, Ok(2));
}
