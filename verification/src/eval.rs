//! Tree-walking evaluator.
//!
//! The evaluator owns a flat, global environment: one mapping from variable
//! names to values and one from function names to statement bodies. There is
//! no lexical scoping and no call-frame isolation: a variable assigned
//! inside a function body mutates the same global mapping that is visible
//! everywhere, and declaring a function under an existing name replaces the
//! previous body.
//!
//! The whole behaviour is pinned down by the spec functions [`eval_expr_s`],
//! [`eval_stmt_s`] and [`eval_block_s`], a big-step semantics over the
//! abstract syntax. Function calls may recurse through the environment, so
//! the semantics carries a fuel: each call frame costs one unit, and a
//! program that nests calls deeper than [`CALL_DEPTH_LIMIT`] fails with
//! [`CompilerErr::StackOverflow`] instead of exhausting the host stack.

use vstd::prelude::*;

use crate::parse::{CompilerErr, Expr, ExprS, Op, Statement, StmtS};
use crate::parse::{Value, block_size, expr_size, stmt_size, stmts_view, lemma_stmts_view};
use vstd::arithmetic::power::pow;

verus! {

/// How deep function calls may nest before evaluation fails with
/// [`CompilerErr::StackOverflow`].
pub const CALL_DEPTH_LIMIT: u64 = 64;

/// The abstract evaluator state: variable bindings and declared functions,
/// both keyed by name.
pub ghost struct EnvS {
    pub vars: Map<Seq<char>, Value>,
    pub funcs: Map<Seq<char>, Seq<StmtS>>,
}

/// Integer division truncating toward zero, the semantics of the `/`
/// operator of the language (like Rust's own `/` on signed integers).
pub open spec fn div_trunc(x: int, d: int) -> int {
    if x == 0 {
        0
    } else if x > 0 && d > 0 {
        x / d
    } else if x < 0 && d < 0 {
        (x * -1) / (d * -1)
    } else if x < 0 {
        ((x * -1) / d) * -1
    } else {
        (x / (d * -1)) * -1
    }
}

/// What a binary operator returns on two operands. Both must be integers;
/// arithmetic is exact, and a result outside the 64-bit range is an
/// [`CompilerErr::Overflow`] error rather than a silent wrap.
pub open spec fn apply_op(op: Op, lhs: Value, rhs: Value) -> Result<Value, CompilerErr> {
    match (lhs, rhs) {
        (Value::Int(x), Value::Int(y)) => match op {
            Op::Add => if i64::MIN <= x + y <= i64::MAX {
                Ok(Value::Int((x + y) as i64))
            } else {
                Err(CompilerErr::Overflow)
            },
            Op::Sub => if i64::MIN <= x - y <= i64::MAX {
                Ok(Value::Int((x - y) as i64))
            } else {
                Err(CompilerErr::Overflow)
            },
            Op::Mul => if i64::MIN <= x * y <= i64::MAX {
                Ok(Value::Int((x * y) as i64))
            } else {
                Err(CompilerErr::Overflow)
            },
            Op::Div => if y == 0 {
                Err(CompilerErr::DivisionByZero)
            } else if i64::MIN <= div_trunc(x as int, y as int) <= i64::MAX {
                Ok(Value::Int(div_trunc(x as int, y as int) as i64))
            } else {
                Err(CompilerErr::Overflow)
            },
            Op::Exp => if y < 0 {
                Err(CompilerErr::NegativeExponent)
            } else if i64::MIN <= pow(x as int, y as nat) <= i64::MAX {
                Ok(Value::Int(pow(x as int, y as nat) as i64))
            } else {
                Err(CompilerErr::Overflow)
            },
        },
        _ => Err(CompilerErr::TypeMismatch),
    }
}

/// Big-step semantics of an expression: the environment after evaluation
/// and the result. Children of a binary operation are evaluated left to
/// right, and a call runs the named body against the same shared
/// environment, spending one unit of fuel.
pub open spec fn eval_expr_s(env: EnvS, e: ExprS, fuel: nat) -> (EnvS, Result<
    Value,
    CompilerErr,
>)
    decreases fuel, expr_size(e),
{
    match e {
        ExprS::Lit(v) => (env, Ok(v)),
        ExprS::Var(n) => if env.vars.dom().contains(n) {
            (env, Ok(env.vars[n]))
        } else {
            (env, Err(CompilerErr::VariableNotInit))
        },
        ExprS::Call(n) => if env.funcs.dom().contains(n) {
            if fuel == 0 {
                (env, Err(CompilerErr::StackOverflow))
            } else {
                eval_block_s(env, env.funcs[n], (fuel - 1) as nat)
            }
        } else {
            (env, Err(CompilerErr::FuncNotDef))
        },
        ExprS::BinOp(op, l, r) => {
            let (env1, r1) = eval_expr_s(env, *l, fuel);
            match r1 {
                Err(err) => (env1, Err(err)),
                Ok(a) => {
                    let (env2, r2) = eval_expr_s(env1, *r, fuel);
                    match r2 {
                        Err(err) => (env2, Err(err)),
                        Ok(b) => (env2, apply_op(op, a, b)),
                    }
                },
            }
        },
    }
}

/// Big-step semantics of one statement.
pub open spec fn eval_stmt_s(env: EnvS, s: StmtS, fuel: nat) -> (EnvS, Result<
    Value,
    CompilerErr,
>)
    decreases fuel, stmt_size(s),
{
    match s {
        StmtS::DeclareFn(n, body) => (
            EnvS { vars: env.vars, funcs: env.funcs.insert(n, body) },
            Ok(Value::Nil),
        ),
        StmtS::Assign(n, e) => {
            let (env1, r1) = eval_expr_s(env, e, fuel);
            match r1 {
                Err(err) => (env1, Err(err)),
                Ok(v) => match v {
                    Value::Int(_) => (
                        EnvS { vars: env1.vars.insert(n, v), funcs: env1.funcs },
                        Ok(v),
                    ),
                    Value::Nil => (env1, Err(CompilerErr::TypeMismatch)),
                },
            }
        },
        StmtS::Return(e) => eval_expr_s(env, e, fuel),
    }
}

/// Every statement of a list weighs no more than the whole list.
proof fn lemma_block_size_element(ss: Seq<StmtS>, i: int)
    requires
        0 <= i < ss.len(),
    ensures
        stmt_size(ss[i]) <= block_size(ss),
    decreases i,
{
    if i == 0 {
    } else {
        lemma_block_size_element(ss.drop_first(), i - 1);
    }
}

/// Big-step semantics of a statement list: statements run in order against
/// the shared environment, the first error aborts, and the value of the
/// list is the value of its last statement (`Value::Nil` for an empty
/// list).
pub open spec fn eval_block_s(env: EnvS, ss: Seq<StmtS>, fuel: nat) -> (EnvS, Result<
    Value,
    CompilerErr,
>)
    decreases fuel, block_size(ss) + 1,
{
    if ss.len() == 0 {
        (env, Ok(Value::Nil))
    } else {
        let (env1, r1) = eval_stmt_s(env, ss[0], fuel);
        match r1 {
            Err(err) => (env1, Err(err)),
            Ok(v) => if ss.len() == 1 {
                (env1, Ok(v))
            } else {
                eval_block_s(env1, ss.drop_first(), fuel)
            },
        }
    }
}

/// Absolute value.
pub open spec fn iabs(x: int) -> int {
    if x < 0 {
        -x
    } else {
        x
    }
}

/// The absolute value of a product is the product of the absolute values.
proof fn lemma_iabs_mul(a: int, b: int)
    ensures
        iabs(a * b) == iabs(a) * iabs(b),
{
    if a >= 0 && b >= 0 {
        assert(a * b >= 0) by (nonlinear_arith)
            requires
                a >= 0 && b >= 0,
        ;
    } else if a < 0 && b < 0 {
        assert(a * b >= 0 && (-a) * (-b) == a * b) by (nonlinear_arith)
            requires
                a < 0 && b < 0,
        ;
    } else if a < 0 {
        assert(a * b <= 0 && (-a) * b == -(a * b)) by (nonlinear_arith)
            requires
                a < 0 && b >= 0,
        ;
    } else {
        assert(a * b <= 0 && a * (-b) == -(a * b)) by (nonlinear_arith)
            requires
                a >= 0 && b < 0,
        ;
    }
}

/// Powers commute with the absolute value.
proof fn lemma_pow_iabs(x: int, e: nat)
    ensures
        iabs(pow(x, e)) == pow(iabs(x), e),
    decreases e,
{
    reveal(pow);
    if e > 0 {
        lemma_pow_iabs(x, (e - 1) as nat);
        lemma_iabs_mul(x, pow(x, (e - 1) as nat));
    }
}

/// For a base of magnitude at least two, the magnitude of a power grows
/// with the exponent, at least doubling with each step.
proof fn lemma_pow_grows(x: int, e1: nat, e2: nat)
    requires
        iabs(x) >= 2,
        e1 <= e2,
    ensures
        iabs(pow(x, e1)) <= iabs(pow(x, e2)),
        e1 < e2 ==> 2 * iabs(pow(x, e1)) <= iabs(pow(x, e2)),
{
    lemma_pow_iabs(x, e1);
    lemma_pow_iabs(x, e2);
    let b = iabs(x);
    vstd::arithmetic::power::lemma_pow_positive(b, e1);
    vstd::arithmetic::power::lemma_pow_adds(b, e1, (e2 - e1) as nat);
    vstd::arithmetic::power::lemma_pow1(b);
    vstd::arithmetic::power::lemma_pow_increases(b as nat, 0, (e2 - e1) as nat);
    if e1 < e2 {
        vstd::arithmetic::power::lemma_pow_increases(b as nat, 1, (e2 - e1) as nat);
    }
    vstd::arithmetic::mul::lemma_mul_left_inequality(
        pow(b, e1),
        if e1 < e2 {
            2
        } else {
            1
        },
        pow(b, (e2 - e1) as nat),
    );
}

/// `-1` to an even exponent is `1`, to an odd exponent `-1`.
proof fn lemma_pow_neg_one(e: nat)
    ensures
        pow(-1, e) == if e % 2 == 0 {
            1int
        } else {
            -1int
        },
    decreases e,
{
    reveal(pow);
    if e > 0 {
        lemma_pow_neg_one((e - 1) as nat);
    }
}

/// Raises `x` to the exponent `y` with exact overflow detection. Relies on
/// the magnitude of partial powers being monotone in the exponent, so a
/// failing partial product implies the final power is out of range too.
fn eval_exp(x: i64, y: i64) -> (r: Result<Value, CompilerErr>)
    ensures
        r == apply_op(Op::Exp, Value::Int(x), Value::Int(y)),
{
    if y < 0 {
        return Err(CompilerErr::NegativeExponent);
    }
    if x == 0 {
        if y == 0 {
            proof {
                reveal(pow);
            }
            return Ok(Value::Int(1));
        }
        proof {
            vstd::arithmetic::power::lemma0_pow(y as nat);
        }
        return Ok(Value::Int(0));
    }
    if x == 1 {
        proof {
            vstd::arithmetic::power::lemma1_pow(y as nat);
        }
        return Ok(Value::Int(1));
    }
    if x == -1 {
        proof {
            lemma_pow_neg_one(y as nat);
        }
        return Ok(Value::Int(if y % 2 == 0 { 1 } else { -1 }));
    }
    let mut acc: i64 = 1;
    let mut i: i64 = 0;
    proof {
        reveal(pow);
    }
    while i < y
        invariant
            0 <= i <= y,
            x <= -2 || x >= 2,
            acc as int == pow(x as int, i as nat),
        decreases y - i,
    {
        proof {
            reveal(pow);
        }
        match acc.checked_mul(x) {
            Some(a) => {
                proof {
                    assert(pow(x as int, (i + 1) as nat) == x * pow(x as int, i as nat));
                }
                acc = a;
                i = i + 1;
            },
            None => {
                proof {
                    let xi = x as int;
                    let next = (i + 1) as nat;
                    assert(pow(xi, next) == xi * pow(xi, i as nat));
                    assert(iabs(pow(xi, next)) >= i64::MAX + 1);
                    if (i + 1) < y {
                        lemma_pow_grows(xi, next, y as nat);
                    }
                }
                return Err(CompilerErr::Overflow);
            },
        }
    }
    proof {
        reveal(pow);
    }
    Ok(Value::Int(acc))
}

/// A map read that distinguishes a missing key from a present one.
pub open spec fn map_get<V>(m: Map<Seq<char>, V>, k: Seq<char>) -> Option<V> {
    if m.dom().contains(k) {
        Some(m[k])
    } else {
        None
    }
}

/// The variable bindings described by an association list, later entries
/// overriding earlier ones.
spec fn vars_map(entries: Seq<(String, Value)>) -> Map<Seq<char>, Value>
    decreases entries.len(),
{
    if entries.len() == 0 {
        Map::empty()
    } else {
        vars_map(entries.drop_last()).insert(entries.last().0@, entries.last().1)
    }
}

/// The function table described by an association list, later entries
/// overriding earlier ones.
spec fn funcs_map(entries: Seq<(String, Vec<Statement>)>) -> Map<Seq<char>, Seq<StmtS>>
    decreases entries.len(),
{
    if entries.len() == 0 {
        Map::empty()
    } else {
        funcs_map(entries.drop_last()).insert(
            entries.last().0@,
            stmts_view(entries.last().1@),
        )
    }
}

/// The evaluator: a variable environment and a function table, both global
/// and flat. Bindings are kept as association lists scanned back to front,
/// so a later binding of a name shadows every earlier one — exactly the
/// map semantics of [`EnvS`].
pub struct Evaluator {
    vars: Vec<(String, Value)>,
    funcs: Vec<(String, Vec<Statement>)>,
}

impl View for Evaluator {
    type V = EnvS;

    closed spec fn view(&self) -> EnvS {
        EnvS { vars: vars_map(self.vars@), funcs: funcs_map(self.funcs@) }
    }
}

impl Evaluator {
    /// A fresh evaluator with no variables and no functions.
    pub fn new() -> (r: Evaluator)
        ensures
            r@.vars == Map::<Seq<char>, Value>::empty(),
            r@.funcs == Map::<Seq<char>, Seq<StmtS>>::empty(),
    {
        Evaluator { vars: Vec::new(), funcs: Vec::new() }
    }

    /// Binds `name` to the integer `value`, shadowing any earlier binding.
    fn init_var(&mut self, name: &str, value: i64)
        ensures
            final(self)@.vars == old(self)@.vars.insert(name@, Value::Int(value)),
            final(self)@.funcs == old(self)@.funcs,
    {
        let ghost before = self.vars@;
        self.vars.push((name.to_owned(), Value::Int(value)));
        proof {
            assert(self.vars@.drop_last() =~= before);
        }
    }

    /// Looks `name` up in the variable environment.
    fn find_var(&self, name: &String) -> (r: Option<Value>)
        ensures
            r == map_get(self@.vars, name@),
    {
        let mut j: usize = self.vars.len();
        proof {
            assert(self.vars@.subrange(0, self.vars@.len() as int) =~= self.vars@);
        }
        while j > 0
            invariant
                j <= self.vars.len(),
                map_get(vars_map(self.vars@.subrange(0, j as int)), name@) == map_get(
                    self@.vars,
                    name@,
                ),
            decreases j,
        {
            let ghost pre = self.vars@.subrange(0, j as int);
            proof {
                assert(pre.drop_last() =~= self.vars@.subrange(0, j - 1));
                assert(pre.last() == self.vars@[j - 1]);
            }
            if self.vars[j - 1].0.eq(name) {
                return Some(self.vars[j - 1].1);
            }
            j = j - 1;
        }
        proof {
            assert(self.vars@.subrange(0, 0).len() == 0);
        }
        None
    }

    /// Looks `name` up in the function table, returning the index of the
    /// binding that is in force.
    fn find_func(&self, name: &String) -> (r: Option<usize>)
        ensures
            match r {
                Some(j) => {
                    &&& j < self.funcs@.len()
                    &&& self@.funcs.dom().contains(name@)
                    &&& self.funcs@[j as int].0@ == name@
                    &&& self@.funcs[name@] == stmts_view(self.funcs@[j as int].1@)
                },
                None => !self@.funcs.dom().contains(name@),
            },
    {
        let mut j: usize = self.funcs.len();
        proof {
            assert(self.funcs@.subrange(0, self.funcs@.len() as int) =~= self.funcs@);
        }
        while j > 0
            invariant
                j <= self.funcs.len(),
                map_get(funcs_map(self.funcs@.subrange(0, j as int)), name@) == map_get(
                    self@.funcs,
                    name@,
                ),
            decreases j,
        {
            let ghost pre = self.funcs@.subrange(0, j as int);
            proof {
                assert(pre.drop_last() =~= self.funcs@.subrange(0, j - 1));
                assert(pre.last() == self.funcs@[j - 1]);
            }
            if self.funcs[j - 1].0.eq(name) {
                return Some(j - 1);
            }
            j = j - 1;
        }
        proof {
            assert(self.funcs@.subrange(0, 0).len() == 0);
        }
        None
    }

    /// Declares `body` under `name`, replacing any earlier declaration.
    fn insert_func(&mut self, name: String, body: Vec<Statement>)
        ensures
            final(self)@.funcs == old(self)@.funcs.insert(name@, stmts_view(body@)),
            final(self)@.vars == old(self)@.vars,
    {
        let ghost before = self.funcs@;
        self.funcs.push((name, body));
        proof {
            assert(self.funcs@.drop_last() =~= before);
        }
    }

    /// Applies a binary operator to two fully evaluated operands.
    fn eval_bin_op(&self, op: Op, lhs: Value, rhs: Value) -> (r: Result<Value, CompilerErr>)
        ensures
            r == apply_op(op, lhs, rhs),
    {
        match (lhs, rhs) {
            (Value::Int(x), Value::Int(y)) => match op {
                Op::Add => match x.checked_add(y) {
                    Some(v) => Ok(Value::Int(v)),
                    None => Err(CompilerErr::Overflow),
                },
                Op::Sub => match x.checked_sub(y) {
                    Some(v) => Ok(Value::Int(v)),
                    None => Err(CompilerErr::Overflow),
                },
                Op::Mul => match x.checked_mul(y) {
                    Some(v) => Ok(Value::Int(v)),
                    None => Err(CompilerErr::Overflow),
                },
                Op::Div => if y == 0 {
                    Err(CompilerErr::DivisionByZero)
                } else {
                    match x.checked_div(y) {
                        Some(v) => Ok(Value::Int(v)),
                        None => Err(CompilerErr::Overflow),
                    }
                },
                Op::Exp => eval_exp(x, y),
            },
            _ => Err(CompilerErr::TypeMismatch),
        }
    }

    /// Evaluates an expression within a frame that may still nest calls
    /// `fuel` levels deep.
    fn eval_expr_f(&mut self, e: &Expr, fuel: u64) -> (r: Result<Value, CompilerErr>)
        ensures
            final(self)@ == eval_expr_s(old(self)@, e@, fuel as nat).0,
            r == eval_expr_s(old(self)@, e@, fuel as nat).1,
        decreases fuel, expr_size(e@),
    {
        match e {
            Expr::Lit(v) => Ok(*v),
            Expr::Var(n) => match self.find_var(n) {
                Some(v) => Ok(v),
                None => Err(CompilerErr::VariableNotInit),
            },
            Expr::Call(n) => match self.find_func(n) {
                None => Err(CompilerErr::FuncNotDef),
                Some(j) => {
                    if fuel == 0 {
                        Err(CompilerErr::StackOverflow)
                    } else {
                        let body = crate::parse::clone_block(&self.funcs[j].1);
                        self.eval_block_f(&body, fuel - 1)
                    }
                },
            },
            Expr::BinOp(op, l, r) => {
                match self.eval_expr_f(&**l, fuel) {
                    Err(err) => Err(err),
                    Ok(a) => match self.eval_expr_f(&**r, fuel) {
                        Err(err) => Err(err),
                        Ok(b) => self.eval_bin_op(*op, a, b),
                    },
                }
            },
        }
    }

    /// Runs one statement within a frame that may still nest calls `fuel`
    /// levels deep.
    fn eval_statement_f(&mut self, stmt: &Statement, fuel: u64) -> (r: Result<
        Value,
        CompilerErr,
    >)
        ensures
            final(self)@ == eval_stmt_s(old(self)@, stmt@, fuel as nat).0,
            r == eval_stmt_s(old(self)@, stmt@, fuel as nat).1,
        decreases fuel, stmt_size(stmt@),
    {
        match stmt {
            Statement::DeclareFn(name, block) => {
                let body = crate::parse::clone_block(block);
                self.insert_func(name.clone(), body);
                Ok(Value::Nil)
            },
            Statement::Assign(name, expr) => {
                match self.eval_expr_f(expr, fuel) {
                    Err(err) => Err(err),
                    Ok(v) => match v {
                        Value::Int(i) => {
                            self.init_var(name.as_str(), i);
                            Ok(v)
                        },
                        Value::Nil => Err(CompilerErr::TypeMismatch),
                    },
                }
            },
            Statement::Return(expr) => self.eval_expr_f(expr, fuel),
        }
    }

    /// Runs a statement list in order; the first error aborts, and the
    /// value of the list is the value of its last statement.
    fn eval_block_f(&mut self, ss: &Vec<Statement>, fuel: u64) -> (r: Result<Value, CompilerErr>)
        ensures
            final(self)@ == eval_block_s(old(self)@, stmts_view(ss@), fuel as nat).0,
            r == eval_block_s(old(self)@, stmts_view(ss@), fuel as nat).1,
        decreases fuel, block_size(stmts_view(ss@)) + 2,
    {
        let ghost env0 = self@;
        let ghost full = stmts_view(ss@);
        proof {
            lemma_stmts_view(ss@);
        }
        if ss.len() == 0 {
            return Ok(Value::Nil);
        }
        let mut i: usize = 0;
        proof {
            assert(full.skip(0) =~= full);
        }
        #[verifier::loop_isolation(false)]
        while i < ss.len()
            invariant
                0 < ss.len() == full.len(),
                i < ss.len(),
                forall|k: int| 0 <= k < ss@.len() ==> full[k] == #[trigger] ss@[k]@,
                eval_block_s(self@, full.skip(i as int), fuel as nat) == eval_block_s(
                    env0,
                    full,
                    fuel as nat,
                ),
            decreases ss.len() - i,
        {
            let ghost rest = full.skip(i as int);
            proof {
                assert(rest[0] == ss@[i as int]@);
                lemma_block_size_element(full, i as int);
            }
            match self.eval_statement_f(&ss[i], fuel) {
                Err(err) => {
                    return Err(err);
                },
                Ok(v) => {
                    if i == ss.len() - 1 {
                        proof {
                            assert(rest.len() == 1);
                        }
                        return Ok(v);
                    }
                    proof {
                        assert(rest.drop_first() =~= full.skip(i + 1));
                    }
                    i = i + 1;
                },
            }
        }
        // the loop always returns at the last statement
        proof {
            assert(false);
        }
        Ok(Value::Nil)
    }

    /// Evaluates an expression against the current environment. Calls may
    /// nest at most [`CALL_DEPTH_LIMIT`] levels deep.
    pub fn eval_expr(&mut self, e: &Expr) -> (r: Result<Value, CompilerErr>)
        ensures
            final(self)@ == eval_expr_s(old(self)@, e@, CALL_DEPTH_LIMIT as nat).0,
            r == eval_expr_s(old(self)@, e@, CALL_DEPTH_LIMIT as nat).1,
    {
        self.eval_expr_f(e, CALL_DEPTH_LIMIT)
    }

    /// Runs one statement against the current environment. Calls may nest
    /// at most [`CALL_DEPTH_LIMIT`] levels deep.
    pub fn eval_statement(&mut self, stmt: &Statement) -> (r: Result<Value, CompilerErr>)
        ensures
            final(self)@ == eval_stmt_s(old(self)@, stmt@, CALL_DEPTH_LIMIT as nat).0,
            r == eval_stmt_s(old(self)@, stmt@, CALL_DEPTH_LIMIT as nat).1,
    {
        self.eval_statement_f(stmt, CALL_DEPTH_LIMIT)
    }

    /// Runs the declared `main` function, the entry point of a program;
    /// fails with [`CompilerErr::MainNotDef`] when no `main` was declared.
    pub fn eval_main(&mut self) -> (r: Result<Value, CompilerErr>)
        ensures
            old(self)@.funcs.dom().contains("main"@) ==> {
                &&& final(self)@ == eval_expr_s(
                    old(self)@,
                    ExprS::Call("main"@),
                    CALL_DEPTH_LIMIT as nat,
                ).0
                &&& r == eval_expr_s(old(self)@, ExprS::Call("main"@), CALL_DEPTH_LIMIT as nat).1
            },
            !old(self)@.funcs.dom().contains("main"@) ==> r == Err::<Value, CompilerErr>(
                CompilerErr::MainNotDef,
            ) && final(self)@ == old(self)@,
    {
        let name: String = "main".to_owned();
        if self.find_func(&name).is_some() {
            let main_call = Expr::Call(name);
            self.eval_expr(&main_call)
        } else {
            Err(CompilerErr::MainNotDef)
        }
    }
}

/// Referencing a variable that no assignment has bound fails with
/// [`CompilerErr::VariableNotInit`] and changes nothing — there is no
/// implicit zero-default.
pub proof fn lemma_unbound_var(env: EnvS, name: Seq<char>, fuel: nat)
    requires
        !env.vars.dom().contains(name),
    ensures
        eval_expr_s(env, ExprS::Var(name), fuel) == (
            env,
            Err::<Value, CompilerErr>(CompilerErr::VariableNotInit),
        ),
{
}

/// Calling a function that no declaration has defined fails with
/// [`CompilerErr::FuncNotDef`] and changes nothing.
pub proof fn lemma_undeclared_call(env: EnvS, name: Seq<char>, fuel: nat)
    requires
        !env.funcs.dom().contains(name),
    ensures
        eval_expr_s(env, ExprS::Call(name), fuel) == (
            env,
            Err::<Value, CompilerErr>(CompilerErr::FuncNotDef),
        ),
{
}

/// A statement list that runs to completion yields exactly the value of
/// its last statement, evaluated in the environment that the statements
/// before it left behind — so a function's value is the value of its last
/// executed statement.
pub proof fn lemma_block_last(env: EnvS, ss: Seq<StmtS>, fuel: nat)
    requires
        ss.len() > 0,
        eval_block_s(env, ss, fuel).1 is Ok,
    ensures
        eval_block_s(env, ss.drop_last(), fuel).1 is Ok,
        eval_block_s(env, ss, fuel) == eval_stmt_s(
            eval_block_s(env, ss.drop_last(), fuel).0,
            ss.last(),
            fuel,
        ),
    decreases ss.len(),
{
    if ss.len() == 1 {
        assert(ss.drop_last() =~= Seq::<StmtS>::empty());
    } else {
        let (env1, r1) = eval_stmt_s(env, ss[0], fuel);
        lemma_block_last(env1, ss.drop_first(), fuel);
        assert(ss.drop_last()[0] == ss[0]);
        assert(ss.drop_last().drop_first() =~= ss.drop_first().drop_last());
        assert(ss.drop_first().last() == ss.last());
    }
}

/// Declaring a function under an already used name replaces the previous
/// body — last write wins — and a later call runs only the new body.
pub proof fn lemma_redeclare_fn(
    env: EnvS,
    name: Seq<char>,
    body1: Seq<StmtS>,
    body2: Seq<StmtS>,
    fuel: nat,
)
    ensures
        ({
            let env1 = eval_stmt_s(env, StmtS::DeclareFn(name, body1), fuel).0;
            let env2 = eval_stmt_s(env1, StmtS::DeclareFn(name, body2), fuel).0;
            &&& env2.funcs[name] == body2
            &&& env2.funcs == env1.funcs.insert(name, body2)
            &&& (fuel > 0 ==> eval_expr_s(env2, ExprS::Call(name), fuel) == eval_block_s(
                env2,
                body2,
                (fuel - 1) as nat,
            ))
        }),
{
}

/// Division truncates toward zero: operands of the same sign give the
/// plain quotient of the magnitudes, mixed signs its negation — not the
/// floor.
pub proof fn lemma_div_truncates(x: i64, y: i64)
    requires
        y != 0,
        !(x == i64::MIN && y == -1),
    ensures
        ({
            let q = div_trunc(x as int, y as int);
            &&& apply_op(Op::Div, Value::Int(x), Value::Int(y)) == Ok::<Value, CompilerErr>(
                Value::Int(q as i64),
            )
            &&& ((x >= 0 <==> y > 0) ==> q == iabs(x as int) / iabs(y as int))
            &&& (!(x >= 0 <==> y > 0) ==> q == -(iabs(x as int) / iabs(y as int)))
        }),
{
    let q = div_trunc(x as int, y as int);
    if x == 0 {
        assert(iabs(0int) / iabs(y as int) == 0) by (nonlinear_arith)
            requires
                y != 0,
                iabs(y as int) >= 1,
        ;
    }
    assert(i64::MIN <= q <= i64::MAX) by {
        if x != 0 {
            let xa = iabs(x as int);
            let ya = iabs(y as int);
            assert(0 <= xa / ya <= xa) by (nonlinear_arith)
                requires
                    xa >= 0 && ya >= 1,
            ;
            if x == i64::MIN && y <= -2 {
                vstd::arithmetic::div_mod::lemma_div_is_ordered_by_denominator(xa, 2, ya);
                assert(xa / 2 <= i64::MAX as int);
            }
        }
    }
}

} // verus!
