//! Execution of a program on a store of unsigned 64-bit variables.
use vstd::prelude::*;
use crate::ast::{program_view, statement_view, Assignment, If, Program, Statement, Stmt, While};

verus! {

/// Why a run ended before the end of the program.
#[derive(Debug, Clone, Copy, PartialEq, Eq, Structural)]
pub enum Stop {
    /// A loop was about to begin one iteration more than the run's
    /// fuel allows.
    OutOfFuel,
    /// An assignment addressed a variable that the store cannot grow
    /// to.
    StoreLimit,
}

/// What a run yields: the lines that it printed, in order, and the
/// final value of variable 0 or the reason why the run was stopped.
#[derive(Debug, PartialEq, Eq)]
pub struct Outcome {
    pub output: Vec<u64>,
    pub result: Result<u64, Stop>,
}

/// The state of a run: the store, the values printed so far, the
/// number of loop iterations that may still begin, and whether and
/// why the run has been stopped.
pub struct Machine {
    pub vars: Seq<u64>,
    pub output: Seq<u64>,
    pub fuel: nat,
    pub stop: Option<Stop>,
}

/// The number of variables that a store can hold: the largest count
/// of 8-byte values that one allocation can have.
pub open spec fn store_limit() -> nat {
    (usize::MAX / 16) as nat
}

/// The value of variable `index`: what the store holds for it, and 0
/// past the end of the store.
pub open spec fn load(vars: Seq<u64>, index: u64) -> u64 {
    if index < vars.len() {
        vars[index as int]
    } else {
        0
    }
}

/// The store after `value` is written to variable `index`: changed in
/// place within the store, else grown up to `index`, with zeros in
/// the gap.
pub open spec fn store(vars: Seq<u64>, index: u64, value: u64) -> Seq<u64> {
    if index < vars.len() {
        vars.update(index as int, value)
    } else {
        vars + Seq::new((index - vars.len()) as nat, |i: int| 0u64) + seq![value]
    }
}

/// `value` plus the constant of an arithmetic assignment, saturating:
/// -1 decrements and stops at 0; any other constant is added as the
/// unsigned 64-bit number with the same bits, and the sum stops at
/// `u64::MAX`.
pub open spec fn offset(value: u64, constant: i8) -> u64 {
    if constant == -1 {
        if value == 0 {
            0
        } else {
            (value - 1) as u64
        }
    } else {
        let addend: int = if constant >= 0 {
            constant as int
        } else {
            0x1_0000_0000_0000_0000 + constant
        };
        if value + addend > u64::MAX {
            u64::MAX
        } else {
            (value + addend) as u64
        }
    }
}

/// The number that the constant of a conditional stands for: 0 for 0
/// and 1 for anything else.
pub open spec fn condition_value(constant: i8) -> u64 {
    if constant == 0 {
        0
    } else {
        1
    }
}

/// The value that an assignment writes, given the store it reads.
pub open spec fn assigned(
    vars: Seq<u64>,
    uses_equality: bool,
    rhs_var: u64,
    rhs_var2: u64,
    rhs_const: i8,
) -> u64 {
    if uses_equality {
        if load(vars, rhs_var) == load(vars, rhs_var2) {
            1
        } else {
            0
        }
    } else {
        offset(load(vars, rhs_var), rhs_const)
    }
}

/// The machine after `value` is written to variable `index`. A write
/// past the end of the store, at or above [`store_limit`], stops the
/// run instead.
pub open spec fn write(m: Machine, index: u64, value: u64) -> Machine {
    if index >= m.vars.len() && index >= store_limit() {
        Machine { stop: Some(Stop::StoreLimit), ..m }
    } else {
        Machine { vars: store(m.vars, index, value), ..m }
    }
}

/// The machine after one statement. A stopped machine stays as it
/// is. A loop tests its variable before every iteration, and each
/// iteration that begins takes one unit of fuel; with none left the
/// run stops. (The test `after.fuel < m.fuel` always holds: see
/// [`lemma_fuel_never_grows`].)
pub open spec fn run_statement(s: Stmt, m: Machine) -> Machine
    decreases s, m.fuel,
{
    if m.stop is Some {
        m
    } else {
        match s {
            Stmt::Print { var } => Machine { output: m.output.push(load(m.vars, var)), ..m },
            Stmt::Assignment { uses_equality, lhs, rhs_var, rhs_var2, rhs_const } => write(
                m,
                lhs,
                assigned(m.vars, uses_equality, rhs_var, rhs_var2, rhs_const),
            ),
            Stmt::If { condition_var, condition_const, body } => {
                if load(m.vars, condition_var) == condition_value(condition_const) {
                    run_program(body, m)
                } else {
                    m
                }
            },
            Stmt::While { condition, body } => {
                if load(m.vars, condition) == 0 {
                    m
                } else if m.fuel == 0 {
                    Machine { stop: Some(Stop::OutOfFuel), ..m }
                } else {
                    let after = run_program(body, Machine { fuel: (m.fuel - 1) as nat, ..m });
                    if after.fuel < m.fuel {
                        run_statement(s, after)
                    } else {
                        after
                    }
                }
            },
        }
    }
}

/// The machine after the statements of `p`, in order.
pub open spec fn run_program(p: Seq<Stmt>, m: Machine) -> Machine
    decreases p, m.fuel,
{
    if p.len() == 0 {
        m
    } else {
        run_program(p.drop_first(), run_statement(p[0], m))
    }
}

/// The machine on which a run begins: nothing printed, not stopped.
pub open spec fn start(vars: Seq<u64>, fuel: nat) -> Machine {
    Machine { vars, output: Seq::empty(), fuel, stop: None }
}

/// What a run yields of the machine on which it ended.
pub open spec fn result_of(m: Machine) -> Result<u64, Stop> {
    match m.stop {
        None => Ok(load(m.vars, 0)),
        Some(stop) => Err(stop),
    }
}

/// Running a statement never adds fuel.
pub proof fn lemma_fuel_never_grows(s: Stmt, m: Machine)
    ensures
        run_statement(s, m).fuel <= m.fuel,
    decreases s, m.fuel,
{
    if m.stop is None {
        match s {
            Stmt::If { condition_var, condition_const, body } => {
                lemma_program_fuel_never_grows(body, m);
            },
            Stmt::While { condition, body } => {
                if load(m.vars, condition) != 0 && m.fuel != 0 {
                    let inside = Machine { fuel: (m.fuel - 1) as nat, ..m };
                    lemma_program_fuel_never_grows(body, inside);
                    lemma_fuel_never_grows(s, run_program(body, inside));
                }
            },
            _ => {},
        }
    }
}

/// Running a statement list never adds fuel.
pub proof fn lemma_program_fuel_never_grows(p: Seq<Stmt>, m: Machine)
    ensures
        run_program(p, m).fuel <= m.fuel,
    decreases p, m.fuel,
{
    if p.len() > 0 {
        lemma_fuel_never_grows(p[0], m);
        lemma_program_fuel_never_grows(p.drop_first(), run_statement(p[0], m));
    }
}


/// An interpreter: the store of a run, variable 0 first.
pub struct Interpreter {
    variables: Vec<u64>,
    output: Vec<u64>,
    fuel: u64,
    stop: Option<Stop>,
}

impl View for Interpreter {
    type V = Machine;

    closed spec fn view(&self) -> Machine {
        Machine {
            vars: self.variables@,
            output: self.output@,
            fuel: self.fuel as nat,
            stop: self.stop,
        }
    }
}

impl Interpreter {
    /// The store: the value of variable 0, of variable 1 and so on.
    pub closed spec fn variables(&self) -> Seq<u64> {
        self.variables@
    }

    /// An interpreter whose variable 0 is 0 and whose variables from
    /// 1 on hold `start_variables`.
    pub fn new(start_variables: &[u64]) -> (interpreter: Self)
        ensures
            interpreter.variables() == seq![0u64] + start_variables@,
    {
        let mut variables: Vec<u64> = Vec::new();
        variables.push(0);
        variables.extend_from_slice(start_variables);
        assert(variables@ == seq![0u64] + start_variables@);
        Interpreter { variables, output: Vec::new(), fuel: 0, stop: None }
    }

    /// Runs `tree` on the store. Loops may begin `u64::MAX`
    /// iterations, all together; a run that needs fewer goes as it
    /// would without any limit.
    pub fn run(self, tree: Program) -> (outcome: Outcome)
        ensures
            outcome.output@ == run_program(
                program_view(tree@),
                start(self.variables(), u64::MAX as nat),
            ).output,
            outcome.result == result_of(
                run_program(program_view(tree@), start(self.variables(), u64::MAX as nat)),
            ),
    {
        self.run_with_fuel(&tree, u64::MAX)
    }

    /// Runs `tree` on the store, with `fuel` as the number of loop
    /// iterations that may begin, all loops together.
    pub fn run_with_fuel(self, tree: &Program, fuel: u64) -> (outcome: Outcome)
        ensures
            outcome.output@ == run_program(
                program_view(tree@),
                start(self.variables(), fuel as nat),
            ).output,
            outcome.result == result_of(
                run_program(program_view(tree@), start(self.variables(), fuel as nat)),
            ),
    {
        let mut interpreter = self;
        interpreter.output = Vec::new();
        interpreter.fuel = fuel;
        interpreter.stop = None;
        interpreter.visit_program(tree);
        let result = match interpreter.stop {
            None => Ok(interpreter.get_var(0)),
            Some(stop) => Err(stop),
        };
        Outcome { output: interpreter.output, result }
    }

    /// Reads a variable; one past the end of the store reads as 0.
    fn get_var(&self, index: u64) -> (value: u64)
        ensures
            value == load(self@.vars, index),
    {
        if index < self.variables.len() as u64 {
            self.variables[index as usize]
        } else {
            0
        }
    }

    /// Writes a variable, growing the store up to it where needed;
    /// stops the run where the store cannot grow that far.
    fn set_var(&mut self, index: u64, value: u64)
        ensures
            final(self)@ == write(old(self)@, index, value),
    {
        if index < self.variables.len() as u64 {
            self.variables[index as usize] = value;
        } else if index >= (usize::MAX / 16) as u64 {
            self.stop = Some(Stop::StoreLimit);
        } else {
            self.variables.resize(index as usize, 0);
            self.variables.push(value);
            assert(self.variables@ == store(old(self).variables@, index, value));
        }
    }

    /// Runs the statements of a list in order.
    fn visit_program(&mut self, node: &Program)
        ensures
            final(self)@ == run_program(program_view(node@), old(self)@),
        decreases node,
    {
        let ghost p = program_view(node@);
        let mut i: usize = 0;
        assert(p.skip(0) == p);
        while i < node.len()
            invariant
                i <= node.len(),
                p == program_view(node@),
                run_program(p.skip(i as int), self@) == run_program(p, old(self)@),
            decreases node.len() - i,
        {
            assert(p.skip(i as int).drop_first() == p.skip(i + 1));
            self.visit_statement(&node[i]);
            i = i + 1;
        }
    }

    /// Runs one statement, unless the run has been stopped.
    fn visit_statement(&mut self, node: &Statement)
        ensures
            final(self)@ == run_statement(node@, old(self)@),
        decreases node,
    {
        if self.stop.is_some() {
            return ;
        }
        match node {
            Statement::While(node) => self.visit_while(node),
            Statement::Assignment(node) => self.visit_assignment(node),
            Statement::If(node) => self.visit_if(node),
            Statement::Print(var) => {
                let value = self.get_var(*var);
                self.output.push(value);
            },
        }
    }

    /// Runs a loop: its body as long as its variable is not 0 and
    /// fuel is left.
    fn visit_while(&mut self, node: &While)
        requires
            old(self)@.stop is None,
        ensures
            final(self)@ == run_statement(statement_view(Statement::While(*node)), old(self)@),
        decreases node,
    {
        let ghost s = statement_view(Statement::While(*node));
        while self.stop.is_none() && self.get_var(node.condition) != 0
            invariant
                s == statement_view(Statement::While(*node)),
                run_statement(s, self@) == run_statement(s, old(self)@),
            decreases self.fuel,
        {
            if self.fuel == 0 {
                self.stop = Some(Stop::OutOfFuel);
                return ;
            }
            self.fuel = self.fuel - 1;
            proof {
                lemma_program_fuel_never_grows(program_view(node.program@), self@);
            }
            self.visit_program(&node.program);
        }
    }

    /// Runs a conditional: its body once if its variable equals its
    /// constant.
    fn visit_if(&mut self, node: &If)
        requires
            old(self)@.stop is None,
        ensures
            final(self)@ == run_statement(statement_view(Statement::If(*node)), old(self)@),
        decreases node,
    {
        if self.get_var(node.condition_var) == match node.condition_const {
            0 => 0,
            _ => 1,
        } {
            self.visit_program(&node.program);
        }
    }

    /// Runs an assignment.
    fn visit_assignment(&mut self, node: &Assignment)
        requires
            old(self)@.stop is None,
        ensures
            final(self)@ == run_statement(
                statement_view(Statement::Assignment(*node)),
                old(self)@,
            ),
    {
        self.set_var(
            node.lhs,
            if node.uses_equality {
                if self.get_var(node.rhs_var) == self.get_var(node.rhs_var2) {
                    1
                } else {
                    0
                }
            } else {
                match node.rhs_const {
                    -1 => self.get_var(node.rhs_var).saturating_sub(1),
                    val => self.get_var(node.rhs_var).saturating_add(
                        if val >= 0 {
                            val as u64
                        } else {
                            u64::MAX - ((-(val + 1)) as u64)
                        },
                    ),
                }
            },
        );
    }
}


/// The machine with `extra` more fuel.
pub open spec fn refuel(m: Machine, extra: nat) -> Machine {
    Machine { fuel: m.fuel + extra, ..m }
}

/// A stopped machine stays as it is through any statement list.
pub proof fn lemma_stopped_stays(p: Seq<Stmt>, m: Machine)
    requires
        m.stop is Some,
    ensures
        run_program(p, m) == m,
    decreases p.len(),
{
    if p.len() > 0 {
        assert(run_statement(p[0], m) == m);
        lemma_stopped_stays(p.drop_first(), m);
    }
}

/// A statement that is not stopped for want of fuel runs alike with
/// more fuel, and leaves as much more.
pub proof fn lemma_more_fuel(s: Stmt, m: Machine, extra: nat)
    requires
        run_statement(s, m).stop != Some(Stop::OutOfFuel),
    ensures
        run_statement(s, refuel(m, extra)) == refuel(run_statement(s, m), extra),
    decreases s, m.fuel,
{
    if m.stop is None {
        match s {
            Stmt::If { condition_var, condition_const, body } => {
                if load(m.vars, condition_var) == condition_value(condition_const) {
                    lemma_program_more_fuel(body, m, extra);
                }
            },
            Stmt::While { condition, body } => {
                if load(m.vars, condition) != 0 {
                    let inside = Machine { fuel: (m.fuel - 1) as nat, ..m };
                    let after = run_program(body, inside);
                    lemma_program_fuel_never_grows(body, inside);
                    assert(run_statement(s, m) == run_statement(s, after));
                    if after.stop is Some {
                        assert(run_statement(s, after) == after);
                    }
                    assert(refuel(inside, extra) == Machine {
                        fuel: (refuel(m, extra).fuel - 1) as nat,
                        ..refuel(m, extra)
                    });
                    lemma_program_more_fuel(body, inside, extra);
                    lemma_more_fuel(s, after, extra);
                }
            },
            _ => {},
        }
    }
}

/// A run that is not stopped for want of fuel goes alike with more
/// fuel: it prints the same, ends with the same store and the same
/// result, and leaves as much more fuel.
pub proof fn lemma_program_more_fuel(p: Seq<Stmt>, m: Machine, extra: nat)
    requires
        run_program(p, m).stop != Some(Stop::OutOfFuel),
    ensures
        run_program(p, refuel(m, extra)) == refuel(run_program(p, m), extra),
    decreases p, m.fuel,
{
    if p.len() > 0 {
        let next = run_statement(p[0], m);
        if next.stop is Some {
            lemma_stopped_stays(p.drop_first(), next);
        }
        lemma_more_fuel(p[0], m, extra);
        lemma_program_more_fuel(p.drop_first(), next, extra);
    }
}

/// A prefix of a prefix is a prefix.
proof fn lemma_prefix_of_prefix(a: Seq<u64>, b: Seq<u64>, c: Seq<u64>)
    requires
        a.is_prefix_of(b),
        b.is_prefix_of(c),
    ensures
        a.is_prefix_of(c),
{
    assert forall|i: int| 0 <= i < a.len() implies a[i] == c.subrange(0, a.len() as int)[i] by {
        assert(a[i] == b.subrange(0, a.len() as int)[i]);
        assert(b[i] == c.subrange(0, b.len() as int)[i]);
    }
}

/// A statement only adds to what has been printed.
pub proof fn lemma_output_grows(s: Stmt, m: Machine)
    ensures
        m.output.is_prefix_of(run_statement(s, m).output),
    decreases s, m.fuel,
{
    if m.stop is None {
        match s {
            Stmt::If { condition_var, condition_const, body } => {
                lemma_program_output_grows(body, m);
            },
            Stmt::While { condition, body } => {
                if load(m.vars, condition) != 0 && m.fuel != 0 {
                    let inside = Machine { fuel: (m.fuel - 1) as nat, ..m };
                    let after = run_program(body, inside);
                    lemma_program_output_grows(body, inside);
                    if after.fuel < m.fuel {
                        lemma_output_grows(s, after);
                    }
                }
            },
            _ => {},
        }
    }
}

/// A run only adds to what has been printed: lines come out in
/// order, and none is taken back.
pub proof fn lemma_program_output_grows(p: Seq<Stmt>, m: Machine)
    ensures
        m.output.is_prefix_of(run_program(p, m).output),
    decreases p, m.fuel,
{
    if p.len() > 0 {
        lemma_output_grows(p[0], m);
        lemma_program_output_grows(p.drop_first(), run_statement(p[0], m));
    }
}

/// What a statement prints with some fuel, it prints first with
/// more.
pub proof fn lemma_more_fuel_prints_more(s: Stmt, m: Machine, extra: nat)
    ensures
        run_statement(s, m).output.is_prefix_of(run_statement(s, refuel(m, extra)).output),
    decreases s, m.fuel,
{
    if run_statement(s, m).stop != Some(Stop::OutOfFuel) {
        lemma_more_fuel(s, m, extra);
    } else if m.stop is None {
        match s {
            Stmt::If { condition_var, condition_const, body } => {
                lemma_program_more_fuel_prints_more(body, m, extra);
            },
            Stmt::While { condition, body } => {
                if m.fuel != 0 {
                    let inside = Machine { fuel: (m.fuel - 1) as nat, ..m };
                    let after = run_program(body, inside);
                    let more = refuel(m, extra);
                    let inside_more = Machine { fuel: (more.fuel - 1) as nat, ..more };
                    let after_more = run_program(body, inside_more);
                    assert(inside_more == refuel(inside, extra));
                    lemma_program_fuel_never_grows(body, inside);
                    lemma_program_fuel_never_grows(body, inside_more);
                    if after.stop == Some(Stop::OutOfFuel) {
                        lemma_program_more_fuel_prints_more(body, inside, extra);
                        lemma_output_grows(s, after_more);
                        assert(run_statement(s, m) == after);
                        assert(run_statement(s, more) == run_statement(s, after_more));
                        lemma_prefix_of_prefix(
                            after.output,
                            after_more.output,
                            run_statement(s, after_more).output,
                        );
                    } else {
                        lemma_program_more_fuel(body, inside, extra);
                        assert(run_statement(s, m) == run_statement(s, after));
                        assert(run_statement(s, more) == run_statement(s, refuel(after, extra)));
                        lemma_more_fuel_prints_more(s, after, extra);
                    }
                } else {
                    lemma_output_grows(s, refuel(m, extra));
                }
            },
            _ => {},
        }
    }
}

/// What a run prints with some fuel, it prints first with more:
/// fuel decides how far a run goes, not what it does.
pub proof fn lemma_program_more_fuel_prints_more(p: Seq<Stmt>, m: Machine, extra: nat)
    ensures
        run_program(p, m).output.is_prefix_of(run_program(p, refuel(m, extra)).output),
    decreases p, m.fuel,
{
    if p.len() > 0 {
        let next = run_statement(p[0], m);
        let next_more = run_statement(p[0], refuel(m, extra));
        if next.stop == Some(Stop::OutOfFuel) {
            lemma_stopped_stays(p.drop_first(), next);
            lemma_more_fuel_prints_more(p[0], m, extra);
            lemma_program_output_grows(p.drop_first(), next_more);
            lemma_prefix_of_prefix(
                next.output,
                next_more.output,
                run_program(p.drop_first(), next_more).output,
            );
        } else {
            lemma_more_fuel(p[0], m, extra);
            lemma_program_more_fuel_prints_more(p.drop_first(), next, extra);
        }
    }
}

/// Whether a statement holds no loop, at any depth.
pub open spec fn loop_free(s: Stmt) -> bool
    decreases s,
{
    match s {
        Stmt::While { condition, body } => false,
        Stmt::If { condition_var, condition_const, body } => loop_free_program(body),
        _ => true,
    }
}

/// Whether a statement list holds no loop, at any depth.
pub open spec fn loop_free_program(p: Seq<Stmt>) -> bool
    decreases p,
{
    forall|i: int| 0 <= i < p.len() ==> loop_free(#[trigger] p[i])
}

/// Whether no assignment in a statement, at any depth, writes to
/// variable `index`.
pub open spec fn leaves(s: Stmt, index: u64) -> bool
    decreases s,
{
    match s {
        Stmt::While { condition, body } => program_leaves(body, index),
        Stmt::If { condition_var, condition_const, body } => program_leaves(body, index),
        Stmt::Assignment { uses_equality, lhs, rhs_var, rhs_var2, rhs_const } => lhs != index,
        Stmt::Print { var } => true,
    }
}

/// Whether no assignment in a statement list, at any depth, writes to
/// variable `index`.
pub open spec fn program_leaves(p: Seq<Stmt>, index: u64) -> bool
    decreases p,
{
    forall|i: int| 0 <= i < p.len() ==> leaves(#[trigger] p[i], index)
}

/// Whether every assignment in a statement, at any depth, writes
/// below [`store_limit`].
pub open spec fn within_store(s: Stmt) -> bool
    decreases s,
{
    match s {
        Stmt::While { condition, body } => program_within_store(body),
        Stmt::If { condition_var, condition_const, body } => program_within_store(body),
        Stmt::Assignment { uses_equality, lhs, rhs_var, rhs_var2, rhs_const } => lhs
            < store_limit(),
        Stmt::Print { var } => true,
    }
}

/// Whether every assignment in a statement list, at any depth, writes
/// below [`store_limit`].
pub open spec fn program_within_store(p: Seq<Stmt>) -> bool
    decreases p,
{
    forall|i: int| 0 <= i < p.len() ==> within_store(#[trigger] p[i])
}

/// Arithmetic saturates: adding 1 gives the successor, except that
/// `u64::MAX` stays; subtracting 1 gives the predecessor, except
/// that 0 stays; adding 0 changes nothing.
pub proof fn lemma_offset_saturates(value: u64)
    ensures
        offset(value, 1) == if value == u64::MAX {
            u64::MAX
        } else {
            (value + 1) as u64
        },
        offset(value, -1i8) == if value == 0 {
            0
        } else {
            (value - 1) as u64
        },
        offset(value, 0) == value,
        offset(u64::MAX, 1) == u64::MAX,
        offset(0, -1i8) == 0,
{
}

/// A variable past the end of the store reads as 0.
pub proof fn lemma_load_past_end(vars: Seq<u64>, index: u64)
    requires
        index >= vars.len(),
    ensures
        load(vars, index) == 0,
{
}

/// After a write, the written variable reads as the value written
/// and every other variable reads as before, whether or not the
/// store grew.
pub proof fn lemma_load_after_store(vars: Seq<u64>, written: u64, value: u64, index: u64)
    ensures
        load(store(vars, written, value), index) == if index == written {
            value
        } else {
            load(vars, index)
        },
{
}

/// A variable that no assignment of a statement writes to reads the
/// same after the statement as before it, on any machine.
pub proof fn lemma_unwritten_variable(s: Stmt, m: Machine, index: u64)
    requires
        leaves(s, index),
    ensures
        load(run_statement(s, m).vars, index) == load(m.vars, index),
    decreases s, m.fuel,
{
    if m.stop is None {
        match s {
            Stmt::Assignment { uses_equality, lhs, rhs_var, rhs_var2, rhs_const } => {
                lemma_load_after_store(
                    m.vars,
                    lhs,
                    assigned(m.vars, uses_equality, rhs_var, rhs_var2, rhs_const),
                    index,
                );
            },
            Stmt::If { condition_var, condition_const, body } => {
                lemma_program_unwritten_variable(body, m, index);
            },
            Stmt::While { condition, body } => {
                if load(m.vars, condition) != 0 && m.fuel != 0 {
                    let inside = Machine { fuel: (m.fuel - 1) as nat, ..m };
                    let after = run_program(body, inside);
                    lemma_program_unwritten_variable(body, inside, index);
                    if after.fuel < m.fuel {
                        lemma_unwritten_variable(s, after, index);
                    }
                }
            },
            Stmt::Print { var } => {},
        }
    }
}

/// A variable that no assignment of a program writes to reads the
/// same after the program as before it; so one that was never set
/// reads as 0 throughout.
pub proof fn lemma_program_unwritten_variable(p: Seq<Stmt>, m: Machine, index: u64)
    requires
        program_leaves(p, index),
    ensures
        load(run_program(p, m).vars, index) == load(m.vars, index),
    decreases p, m.fuel,
{
    if p.len() > 0 {
        lemma_unwritten_variable(p[0], m, index);
        assert forall|i: int| 0 <= i < p.drop_first().len() implies leaves(
            #[trigger] p.drop_first()[i],
            index,
        ) by {
            assert(p.drop_first()[i] == p[i + 1]);
        }
        lemma_program_unwritten_variable(p.drop_first(), run_statement(p[0], m), index);
    }
}

/// A statement without a loop uses no fuel and is never stopped for
/// want of it; where all its assignments write below the store
/// limit, it is not stopped at all.
pub proof fn lemma_loop_free(s: Stmt, m: Machine)
    requires
        loop_free(s),
    ensures
        run_statement(s, m).fuel == m.fuel,
        m.stop != Some(Stop::OutOfFuel) ==> run_statement(s, m).stop != Some(Stop::OutOfFuel),
        m.stop is None && within_store(s) ==> run_statement(s, m).stop is None,
    decreases s,
{
    if m.stop is None {
        match s {
            Stmt::If { condition_var, condition_const, body } => {
                lemma_loop_free_program(body, m);
            },
            _ => {},
        }
    }
}

/// A program without a loop runs to its end on any fuel, even none:
/// it uses no fuel and is never stopped for want of it. Where all
/// its assignments write below the store limit, it is not stopped at
/// all, and so yields a final value.
pub proof fn lemma_loop_free_program(p: Seq<Stmt>, m: Machine)
    requires
        loop_free_program(p),
    ensures
        run_program(p, m).fuel == m.fuel,
        m.stop != Some(Stop::OutOfFuel) ==> run_program(p, m).stop != Some(Stop::OutOfFuel),
        m.stop is None && program_within_store(p) ==> run_program(p, m).stop is None,
    decreases p,
{
    if p.len() > 0 {
        lemma_loop_free(p[0], m);
        assert forall|i: int| 0 <= i < p.drop_first().len() implies loop_free(
            #[trigger] p.drop_first()[i],
        ) by {
            assert(p.drop_first()[i] == p[i + 1]);
        }
        assert(program_within_store(p) ==> program_within_store(p.drop_first())) by {
            if program_within_store(p) {
                assert forall|i: int| 0 <= i < p.drop_first().len() implies within_store(
                    #[trigger] p.drop_first()[i],
                ) by {
                    assert(p.drop_first()[i] == p[i + 1]);
                }
            }
        }
        lemma_loop_free_program(p.drop_first(), run_statement(p[0], m));
    }
}

} // verus!
