//! The syntax tree of a program, and its mathematical form.
use vstd::prelude::*;

verus! {

/// A statement list in execution order.
pub type Program = Vec<Statement>;

/// One statement of a program.
#[derive(Debug, PartialEq, Eq)]
pub enum Statement {
    While(While),
    Assignment(Assignment),
    Print(u64),
    If(If),
}

/// A loop that runs its body as long as a variable is not zero.
#[derive(Debug, PartialEq, Eq)]
pub struct While {
    pub condition: u64,
    pub program: Program,
}

/// A conditional that runs its body once if a variable equals a constant.
#[derive(Debug, PartialEq, Eq)]
pub struct If {
    pub condition_var: u64,
    pub condition_const: i8,
    pub program: Program,
}

/// An assignment, either of an equality test between two variables or
/// of a variable plus a constant.
#[derive(Debug, PartialEq, Eq)]
pub struct Assignment {
    pub uses_equality: bool,
    pub lhs: u64,
    pub rhs_var: u64,
    pub rhs_var2: u64,
    pub rhs_const: i8,
}

/// A request to emit the value of one variable.
#[derive(Debug, PartialEq, Eq)]
pub struct Print {
    pub var: u64,
}

/// The mathematical form of a [`Statement`]: the same tree with
/// sequences in place of vectors.
pub enum Stmt {
    While { condition: u64, body: Seq<Stmt> },
    If { condition_var: u64, condition_const: i8, body: Seq<Stmt> },
    Assignment { uses_equality: bool, lhs: u64, rhs_var: u64, rhs_var2: u64, rhs_const: i8 },
    Print { var: u64 },
}

/// The mathematical form of one statement.
pub open spec fn statement_view(s: Statement) -> Stmt
    decreases s,
{
    match s {
        Statement::While(w) => Stmt::While {
            condition: w.condition,
            body: program_view(w.program@),
        },
        Statement::If(f) => Stmt::If {
            condition_var: f.condition_var,
            condition_const: f.condition_const,
            body: program_view(f.program@),
        },
        Statement::Assignment(a) => Stmt::Assignment {
            uses_equality: a.uses_equality,
            lhs: a.lhs,
            rhs_var: a.rhs_var,
            rhs_var2: a.rhs_var2,
            rhs_const: a.rhs_const,
        },
        Statement::Print(var) => Stmt::Print { var },
    }
}

/// The mathematical form of a statement list: the form of each
/// statement, in the same order.
pub open spec fn program_view(p: Seq<Statement>) -> Seq<Stmt>
    decreases p,
{
    Seq::new(
        p.len(),
        |i: int|
            if 0 <= i < p.len() {
                statement_view(p[i])
            } else {
                arbitrary()
            },
    )
}

impl View for Statement {
    type V = Stmt;

    open spec fn view(&self) -> Stmt {
        statement_view(*self)
    }
}

/// Whether the grammar can produce this statement: the constant of a
/// conditional is 0 or 1, the constant of an arithmetic assignment is
/// -1, 0 or 1, the field that a form of assignment does not use is 0,
/// and every body is a grammatical program.
pub open spec fn grammatical(s: Stmt) -> bool
    decreases s,
{
    match s {
        Stmt::While { condition, body } => grammatical_program(body),
        Stmt::If { condition_var, condition_const, body } => {
            &&& (condition_const == 0 || condition_const == 1)
            &&& grammatical_program(body)
        },
        Stmt::Assignment { uses_equality, lhs, rhs_var, rhs_var2, rhs_const } => {
            if uses_equality {
                rhs_const == 0
            } else {
                rhs_var2 == 0 && -1 <= rhs_const <= 1
            }
        },
        Stmt::Print { var } => true,
    }
}

/// Whether the grammar can produce this statement list: it is not
/// empty and each of its statements is grammatical.
pub open spec fn grammatical_program(p: Seq<Stmt>) -> bool
    decreases p,
{
    &&& p.len() > 0
    &&& forall|i: int| 0 <= i < p.len() ==> grammatical(#[trigger] p[i])
}

} // verus!
