use minilang::eval::Evaluator;
use minilang::lex::Lex;
use minilang::parse::{CompilerErr, Expr, Op, Parse, Value};

/// Parses `src` as a full program, runs its top-level statements, then
/// runs `main`.
fn run_program(src: &str) -> Result<Value, CompilerErr> {
    let mut l = Lex::new(src);
    let mut p = Parse::new();
    let statements = p.parse_statements(&mut l)?;
    let mut eval = Evaluator::new();
    for statement in &statements {
        eval.eval_statement(statement)?;
    }
    eval.eval_main()
}

/// Parses `src` as one expression and evaluates it against a fresh
/// environment.
fn run_expr(src: &str) -> Result<Value, CompilerErr> {
    let mut l = Lex::new(src);
    let mut p = Parse::new();
    let e = p.parse_expr(&mut l, 0)?;
    Evaluator::new().eval_expr(&e)
}

fn lit(n: i64) -> Box<Expr> {
    Box::new(Expr::Lit(Value::Int(n)))
}

#[test]
fn eval_simple_sum() {
    assert_eq!(run_expr("1 + 2"), Ok(Value::Int(3)));
}

#[test]
fn eval_exp_right_associates() {
    // 2 ^ (3 ^ 2) = 512, not (2 ^ 3) ^ 2 = 64
    assert_eq!(run_expr("2 ^ 3 ^ 2"), Ok(Value::Int(512)));
}

#[test]
fn eval_precedence() {
    assert_eq!(run_expr("1 + 2 * 3"), Ok(Value::Int(7)));
}

#[test]
fn eval_paren_overrides_precedence() {
    assert_eq!(run_expr("(1 + 2) * 3"), Ok(Value::Int(9)));
}

#[test]
fn eval_assign_binds_and_returns() -> Result<(), CompilerErr> {
    let mut l = Lex::new("let my_var = 10 + 11;");
    let mut p = Parse::new();
    let stmt = p.parse_assign(&mut l)?;
    let mut eval = Evaluator::new();
    // the assignment itself evaluates to the bound value
    assert_eq!(eval.eval_statement(&stmt), Ok(Value::Int(21)));
    // and the binding is visible afterwards
    assert_eq!(eval.eval_expr(&Expr::Var("my_var".into())), Ok(Value::Int(21)));
    Ok(())
}

#[test]
fn eval_unbound_variable() {
    let mut eval = Evaluator::new();
    assert_eq!(
        eval.eval_expr(&Expr::Var("x".into())),
        Err(CompilerErr::VariableNotInit)
    );
}

#[test]
fn eval_undeclared_function() {
    let mut eval = Evaluator::new();
    assert_eq!(eval.eval_expr(&Expr::Call("f".into())), Err(CompilerErr::FuncNotDef));
}

#[test]
fn eval_main_not_defined() {
    assert_eq!(run_program("let a = 1;"), Err(CompilerErr::MainNotDef));
    assert_eq!(Evaluator::new().eval_main(), Err(CompilerErr::MainNotDef));
}

#[test]
fn eval_function_value_is_last_statement() {
    assert_eq!(
        run_program("fn main() { let a = 2; return a * 3; }"),
        Ok(Value::Int(6))
    );
}

#[test]
fn eval_division_truncates() {
    assert_eq!(run_expr("7 / 2"), Ok(Value::Int(3)));
    // mixed signs truncate toward zero, they do not floor
    let mut eval = Evaluator::new();
    assert_eq!(
        eval.eval_expr(&Expr::BinOp(Op::Div, lit(-7), lit(2))),
        Ok(Value::Int(-3))
    );
    assert_eq!(
        eval.eval_expr(&Expr::BinOp(Op::Div, lit(7), lit(-2))),
        Ok(Value::Int(-3))
    );
    assert_eq!(
        eval.eval_expr(&Expr::BinOp(Op::Div, lit(-7), lit(-2))),
        Ok(Value::Int(3))
    );
}

#[test]
fn eval_division_by_zero() {
    assert_eq!(run_expr("1 / 0"), Err(CompilerErr::DivisionByZero));
}

#[test]
fn eval_redeclared_function_wins() {
    assert_eq!(
        run_program("fn main() { return 1; } fn main() { return 2; }"),
        Ok(Value::Int(2))
    );
}

#[test]
fn eval_negative_exponent() {
    let mut eval = Evaluator::new();
    assert_eq!(
        eval.eval_expr(&Expr::BinOp(Op::Exp, lit(2), lit(-1))),
        Err(CompilerErr::NegativeExponent)
    );
}

#[test]
fn eval_overflow() {
    let mut eval = Evaluator::new();
    assert_eq!(
        eval.eval_expr(&Expr::BinOp(Op::Add, lit(i64::MAX), lit(1))),
        Err(CompilerErr::Overflow)
    );
    assert_eq!(
        eval.eval_expr(&Expr::BinOp(Op::Mul, lit(i64::MAX), lit(2))),
        Err(CompilerErr::Overflow)
    );
    assert_eq!(run_expr("2 ^ 64"), Err(CompilerErr::Overflow));
    assert_eq!(run_expr("2 ^ 63"), Err(CompilerErr::Overflow));
}

#[test]
fn eval_exp_edges() {
    assert_eq!(run_expr("2 ^ 62"), Ok(Value::Int(1 << 62)));
    assert_eq!(run_expr("0 ^ 0"), Ok(Value::Int(1)));
    assert_eq!(run_expr("0 ^ 7"), Ok(Value::Int(0)));
    assert_eq!(run_expr("1 ^ 1000000000"), Ok(Value::Int(1)));
    let mut eval = Evaluator::new();
    // -2 to the 63rd is exactly the smallest 64-bit integer
    assert_eq!(
        eval.eval_expr(&Expr::BinOp(Op::Exp, lit(-2), lit(63))),
        Ok(Value::Int(i64::MIN))
    );
    assert_eq!(
        eval.eval_expr(&Expr::BinOp(Op::Exp, lit(-1), lit(101))),
        Ok(Value::Int(-1))
    );
}

#[test]
fn eval_assign_requires_integer() {
    let mut eval = Evaluator::new();
    let stmt = minilang::parse::Statement::Assign("x".into(), Expr::Lit(Value::Nil));
    assert_eq!(eval.eval_statement(&stmt), Err(CompilerErr::TypeMismatch));
}

#[test]
fn eval_runaway_recursion_is_caught() {
    assert_eq!(
        run_program("fn main() { return main(); }"),
        Err(CompilerErr::StackOverflow)
    );
}

#[test]
fn eval_global_environment_is_shared() {
    // a variable assigned inside a function is visible outside: the
    // environment is global and flat, and a call's value is its last
    // statement's value
    assert_eq!(
        run_program("fn set() { let a = 5; } fn main() { let b = set(); return a; }"),
        Ok(Value::Int(5))
    );
    assert_eq!(
        run_program("let a = 1; fn main() { let a = 5; return a; }"),
        Ok(Value::Int(5))
    );
}

#[test]
fn eval_empty_function_yields_no_value() {
    // an empty body has no last statement, so binding its call fails
    assert_eq!(
        run_program("fn empty() { } fn main() { let b = empty(); return b; }"),
        Err(CompilerErr::TypeMismatch)
    );
}
