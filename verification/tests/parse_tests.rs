use minilang::lex::Lex;
use minilang::parse::{CompilerErr, Expr, Op, Parse, Statement, Value};

fn lit(n: i64) -> Box<Expr> {
    Box::new(Expr::Lit(Value::Int(n)))
}

#[test]
fn parse_expr_test() -> Result<(), CompilerErr> {
    let mut l = Lex::new("1 + 2");
    let mut p = Parse::new();
    let result = p.parse_expr(&mut l, 0)?;
    assert_eq!(result, Expr::BinOp(Op::Add, lit(1), lit(2)));
    Ok(())
}

#[test]
fn parse_assign_test() -> Result<(), CompilerErr> {
    let mut l = Lex::new("let my_var = 10 + 11");
    let mut p = Parse::new();
    let result = p.parse_assign(&mut l)?;
    assert_eq!(
        result,
        Statement::Assign("my_var".into(), Expr::BinOp(Op::Add, lit(10), lit(11)))
    );
    Ok(())
}

#[test]
fn parse_precedence_tree() -> Result<(), CompilerErr> {
    // `*` binds tighter than `+`
    let mut l = Lex::new("1 + 2 * 3");
    let mut p = Parse::new();
    let result = p.parse_expr(&mut l, 0)?;
    assert_eq!(
        result,
        Expr::BinOp(Op::Add, lit(1), Box::new(Expr::BinOp(Op::Mul, lit(2), lit(3))))
    );
    Ok(())
}

#[test]
fn parse_left_assoc_tree() -> Result<(), CompilerErr> {
    // `-` associates to the left
    let mut l = Lex::new("1 - 2 - 3");
    let mut p = Parse::new();
    let result = p.parse_expr(&mut l, 0)?;
    assert_eq!(
        result,
        Expr::BinOp(Op::Sub, Box::new(Expr::BinOp(Op::Sub, lit(1), lit(2))), lit(3))
    );
    Ok(())
}

#[test]
fn parse_right_assoc_tree() -> Result<(), CompilerErr> {
    // `^` associates to the right
    let mut l = Lex::new("2 ^ 3 ^ 2");
    let mut p = Parse::new();
    let result = p.parse_expr(&mut l, 0)?;
    assert_eq!(
        result,
        Expr::BinOp(Op::Exp, lit(2), Box::new(Expr::BinOp(Op::Exp, lit(3), lit(2))))
    );
    Ok(())
}

#[test]
fn parse_paren_tree() -> Result<(), CompilerErr> {
    // parentheses admit any operator, whatever the enclosing precedence
    let mut l = Lex::new("(1 + 2) * 3");
    let mut p = Parse::new();
    let result = p.parse_expr(&mut l, 0)?;
    assert_eq!(
        result,
        Expr::BinOp(Op::Mul, Box::new(Expr::BinOp(Op::Add, lit(1), lit(2))), lit(3))
    );
    Ok(())
}

#[test]
fn parse_var_and_call() -> Result<(), CompilerErr> {
    let mut l = Lex::new("x + f()");
    let mut p = Parse::new();
    let result = p.parse_expr(&mut l, 0)?;
    assert_eq!(
        result,
        Expr::BinOp(
            Op::Add,
            Box::new(Expr::Var("x".into())),
            Box::new(Expr::Call("f".into()))
        )
    );
    Ok(())
}

#[test]
fn parse_invalid_atom() {
    let mut l = Lex::new("; 1");
    let mut p = Parse::new();
    assert_eq!(p.parse_expr(&mut l, 0), Err(CompilerErr::InvalidAtom));
}

#[test]
fn parse_fn_decl_tree() -> Result<(), CompilerErr> {
    let mut l = Lex::new("fn main() { return 1; }");
    let mut p = Parse::new();
    let result = p.parse_fn_decl(&mut l)?;
    assert_eq!(
        result,
        Statement::DeclareFn("main".into(), vec![Statement::Return(Expr::Lit(Value::Int(1)))])
    );
    Ok(())
}

#[test]
fn parse_statements_list() -> Result<(), CompilerErr> {
    let mut l = Lex::new("let a = 1; return a;");
    let mut p = Parse::new();
    let result = p.parse_statements(&mut l)?;
    assert_eq!(
        result,
        vec![
            Statement::Assign("a".into(), Expr::Lit(Value::Int(1))),
            Statement::Return(Expr::Var("a".into())),
        ]
    );
    Ok(())
}

#[test]
fn parse_statements_empty() -> Result<(), CompilerErr> {
    let mut l = Lex::new("");
    let mut p = Parse::new();
    let result = p.parse_statements(&mut l)?;
    assert_eq!(result, vec![]);
    Ok(())
}
