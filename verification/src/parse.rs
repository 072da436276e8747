//! Abstract syntax tree and the precedence-climbing parser.
//!
//! The parser consumes tokens from a [`crate::lex::Lex`] cursor and builds
//! [`Expr`] trees and [`Statement`] lists. Binary operators are parsed by
//! precedence climbing: `+` and `-` bind at precedence 1 and associate to
//! the left, `*` and `/` at precedence 2 to the left, and `^` at
//! precedence 3 to the right.

use vstd::prelude::*;

verus! {

use crate::lex::{
    Lex, LexS, LexValue, LexValueS, TokenKind, advance_s, cur_kind_is, expect_s, lex_m,
    lemma_advance_m,
};

/// A runtime value: an integer, or the absence of a value (the result of a
/// function declaration).
#[derive(Debug, Copy, Clone, PartialEq, Eq, Structural)]
pub enum Value {
    Nil,
    Int(i64),
}

/// A binary operator.
#[derive(Debug, Copy, Clone, PartialEq, Eq, Structural)]
pub enum Op {
    Add,
    Sub,
    Mul,
    Div,
    Exp,
}

/// An expression: a literal, a variable reference, a zero-argument function
/// call, or a binary operation. Every node owns its children outright, so
/// the tree has no sharing and no cycles.
#[derive(Debug, PartialEq)]
pub enum Expr {
    Lit(Value),
    Var(String),
    Call(String),
    BinOp(Op, Box<Expr>, Box<Expr>),
}

/// A statement: a function declaration, a variable assignment, or a return
/// of an expression's value.
#[derive(Debug, PartialEq)]
pub enum Statement {
    DeclareFn(String, Vec<Statement>),
    Assign(String, Expr),
    Return(Expr),
}

/// Everything that can go wrong while parsing or evaluating a program.
#[derive(Debug, Copy, Clone, PartialEq, Eq, Structural)]
pub enum CompilerErr {
    /// Ill-formed input that no more precise kind describes.
    Unknown,
    /// The atom position holds a token that starts no expression.
    InvalidAtom,
    /// A variable was referenced before any assignment to it.
    VariableNotInit,
    /// A called function has not been declared.
    FuncNotDef,
    /// The program has no `main` function to run.
    MainNotDef,
    /// A binary operation or an assignment received a non-integer operand.
    TypeMismatch,
    /// The right operand of a division was zero.
    DivisionByZero,
    /// The right operand of `^` was negative.
    NegativeExponent,
    /// An arithmetic result does not fit in a 64-bit integer.
    Overflow,
    /// Evaluation exceeded the fixed call-depth limit.
    StackOverflow,
}

/// The mathematical shape of an [`Expr`]: names are sequences of
/// characters, children plain values. Contracts speak about expressions
/// through this type.
pub ghost enum ExprS {
    Lit(Value),
    Var(Seq<char>),
    Call(Seq<char>),
    BinOp(Op, Box<ExprS>, Box<ExprS>),
}

/// The mathematical shape of a [`Statement`].
pub ghost enum StmtS {
    DeclareFn(Seq<char>, Seq<StmtS>),
    Assign(Seq<char>, ExprS),
    Return(ExprS),
}

impl View for Expr {
    type V = ExprS;

    open spec fn view(&self) -> ExprS
        decreases self,
    {
        match self {
            Expr::Lit(v) => ExprS::Lit(*v),
            Expr::Var(n) => ExprS::Var(n@),
            Expr::Call(n) => ExprS::Call(n@),
            Expr::BinOp(op, l, r) => ExprS::BinOp(*op, Box::new((**l)@), Box::new((**r)@)),
        }
    }
}

/// The mathematical shape of a statement; the recursive worker behind
/// [`Statement`]'s view.
pub open spec fn stmt_view(s: Statement) -> StmtS
    decreases s,
{
    match s {
        Statement::DeclareFn(n, body) => StmtS::DeclareFn(n@, stmts_view(body@)),
        Statement::Assign(n, e) => StmtS::Assign(n@, e@),
        Statement::Return(e) => StmtS::Return(e@),
    }
}

/// The mathematical shape of each statement in a list, in order.
pub open spec fn stmts_view(ss: Seq<Statement>) -> Seq<StmtS>
    decreases ss,
{
    if ss.len() == 0 {
        Seq::empty()
    } else {
        stmts_view(ss.subrange(0, ss.len() - 1)).push(stmt_view(ss[ss.len() - 1]))
    }
}

impl View for Statement {
    type V = StmtS;

    open spec fn view(&self) -> StmtS {
        stmt_view(*self)
    }
}

/// `stmts_view` is the element-wise image of `stmt_view`.
pub proof fn lemma_stmts_view(ss: Seq<Statement>)
    ensures
        stmts_view(ss).len() == ss.len(),
        forall|i: int| 0 <= i < ss.len() ==> stmts_view(ss)[i] == #[trigger] ss[i]@,
    decreases ss,
{
    if ss.len() > 0 {
        let pre = ss.subrange(0, ss.len() - 1);
        lemma_stmts_view(pre);
        assert forall|i: int| 0 <= i < ss.len() implies stmts_view(ss)[i] == #[trigger] ss[i]@ by {
            if i < ss.len() - 1 {
                assert(pre[i] == ss[i]);
            }
        }
    }
}

/// Deep copy of an expression, with the same abstract shape.
pub fn clone_expr(e: &Expr) -> (r: Expr)
    ensures
        r@ == e@,
    decreases e,
{
    match e {
        Expr::Lit(v) => Expr::Lit(*v),
        Expr::Var(n) => Expr::Var(n.clone()),
        Expr::Call(n) => Expr::Call(n.clone()),
        Expr::BinOp(op, l, r) => Expr::BinOp(
            *op,
            Box::new(clone_expr(&**l)),
            Box::new(clone_expr(&**r)),
        ),
    }
}

/// Deep copy of a statement.
pub fn clone_stmt(s: &Statement) -> (r: Statement)
    ensures
        r@ == s@,
    decreases s,
{
    match s {
        Statement::DeclareFn(n, body) => Statement::DeclareFn(n.clone(), clone_block(body)),
        Statement::Assign(n, e) => Statement::Assign(n.clone(), clone_expr(e)),
        Statement::Return(e) => Statement::Return(clone_expr(e)),
    }
}

/// Deep copy of a statement list.
pub fn clone_block(b: &Vec<Statement>) -> (r: Vec<Statement>)
    ensures
        stmts_view(r@) == stmts_view(b@),
    decreases b@,
{
    let mut out: Vec<Statement> = Vec::new();
    let mut i: usize = 0;
    while i < b.len()
        invariant
            i <= b.len(),
            out@.len() == i,
            forall|k: int| 0 <= k < i ==> out@[k]@ == b@[k]@,
        decreases b@.len() - i,
    {
        let s = clone_stmt(&b[i]);
        out.push(s);
        i = i + 1;
    }
    proof {
        lemma_stmts_view(out@);
        lemma_stmts_view(b@);
        assert forall|k: int| 0 <= k < out@.len() implies stmts_view(out@)[k] == stmts_view(
            b@,
        )[k] by {
            assert(out@[k]@ == b@[k]@);
        }
        assert(stmts_view(out@) =~= stmts_view(b@));
    }
    out
}

/// Structural size of an expression; the termination measure for
/// evaluation within one call frame.
pub open spec fn expr_size(e: ExprS) -> nat
    decreases e,
{
    match e {
        ExprS::Lit(_) => 1,
        ExprS::Var(_) => 1,
        ExprS::Call(_) => 1,
        ExprS::BinOp(_, l, r) => 1 + expr_size(*l) + expr_size(*r),
    }
}

/// Structural size of a statement. A declared body is not evaluated when
/// the declaration runs, so it does not count.
pub open spec fn stmt_size(s: StmtS) -> nat {
    match s {
        StmtS::DeclareFn(_, _) => 1,
        StmtS::Assign(_, e) => 1 + expr_size(e),
        StmtS::Return(e) => 1 + expr_size(e),
    }
}

/// Structural size of a statement list.
pub open spec fn block_size(ss: Seq<StmtS>) -> nat
    decreases ss.len(),
{
    if ss.len() == 0 {
        0
    } else {
        stmt_size(ss[0]) + block_size(ss.drop_first())
    }
}

/// Whether a token kind is a binary operator.
pub open spec fn is_op_kind(k: TokenKind) -> bool {
    k == TokenKind::Plus || k == TokenKind::Hyphen || k == TokenKind::Asterisk || k
        == TokenKind::Slash || k == TokenKind::Circumflex
}

/// The operator a token kind stands for.
pub open spec fn op_of_kind(k: TokenKind) -> Op {
    match k {
        TokenKind::Plus => Op::Add,
        TokenKind::Hyphen => Op::Sub,
        TokenKind::Asterisk => Op::Mul,
        TokenKind::Slash => Op::Div,
        _ => Op::Exp,
    }
}

/// The precedence of an operator token: `+` and `-` bind loosest, then
/// `*` and `/`, then `^`.
pub open spec fn prec_of_kind(k: TokenKind) -> nat {
    match k {
        TokenKind::Plus => 1,
        TokenKind::Hyphen => 1,
        TokenKind::Asterisk => 2,
        TokenKind::Slash => 2,
        _ => 3,
    }
}

/// Whether an operator token associates to the right (only `^` does).
pub open spec fn is_right_kind(k: TokenKind) -> bool {
    k == TokenKind::Circumflex
}

/// The minimum precedence for the right-hand side after an operator: the
/// operator's own precedence for a right-associative operator, one more
/// for a left-associative one. This single rule encodes both precedence
/// and associativity.
pub open spec fn next_min_prec(k: TokenKind) -> nat {
    if is_right_kind(k) {
        prec_of_kind(k)
    } else {
        prec_of_kind(k) + 1
    }
}

/// The shape of a parsed expression result.
pub open spec fn expr_res_view(r: Result<Expr, CompilerErr>) -> Result<ExprS, CompilerErr> {
    match r {
        Ok(e) => Ok(e@),
        Err(err) => Err(err),
    }
}

/// The shape of a parsed identifier result.
pub open spec fn ident_res_view(r: Result<String, CompilerErr>) -> Result<
    Seq<char>,
    CompilerErr,
> {
    match r {
        Ok(s) => Ok(s@),
        Err(err) => Err(err),
    }
}

/// The shape of a parsed statement result.
pub open spec fn stmt_res_view(r: Result<Statement, CompilerErr>) -> Result<
    StmtS,
    CompilerErr,
> {
    match r {
        Ok(s) => Ok(s@),
        Err(err) => Err(err),
    }
}

/// The shape of a parsed statement-list result.
pub open spec fn block_res_view(r: Result<Vec<Statement>, CompilerErr>) -> Result<
    Seq<StmtS>,
    CompilerErr,
> {
    match r {
        Ok(b) => Ok(stmts_view(b@)),
        Err(err) => Err(err),
    }
}

/// What parsing an identifier does to the lexer: an identifier token is
/// consumed and its text returned; anything else is an error and consumes
/// nothing.
pub open spec fn parse_ident_s(st: LexS) -> (Result<Seq<char>, CompilerErr>, LexS) {
    match st.cur {
        Option::Some(t) => {
            if t.kind == TokenKind::Ident {
                match t.value {
                    LexValueS::Ident(name) => (Ok(name), advance_s(st)),
                    _ => (Err(CompilerErr::Unknown), st),
                }
            } else {
                (Err(CompilerErr::Unknown), st)
            }
        },
        Option::None => (Err(CompilerErr::Unknown), st),
    }
}

/// What parsing an atom does to the lexer: an integer literal becomes a
/// literal node, an identifier a variable reference — or a call when
/// followed by `( )` — and `(` re-enters the expression parser at the
/// lowest real precedence, so any operator is accepted inside. The fuel
/// only feeds the recursion; every run gets enough of it.
pub open spec fn parse_atom_s(st: LexS, fuel: nat) -> (Result<ExprS, CompilerErr>, LexS)
    decreases fuel,
{
    if fuel == 0 {
        (Err(CompilerErr::Unknown), st)
    } else {
        match st.cur {
            Option::None => (Err(CompilerErr::Unknown), st),
            Option::Some(t) => {
                if t.kind == TokenKind::Int {
                    match t.value {
                        LexValueS::Int(n) => (Ok(ExprS::Lit(Value::Int(n))), advance_s(st)),
                        _ => (Err(CompilerErr::Unknown), st),
                    }
                } else if t.kind == TokenKind::Ident {
                    match t.value {
                        LexValueS::Ident(name) => {
                            let st1 = advance_s(st);
                            if cur_kind_is(st1, TokenKind::LeftParen) {
                                let st2 = advance_s(st1);
                                (Ok(ExprS::Call(name)), expect_s(st2, TokenKind::RightParen))
                            } else {
                                (Ok(ExprS::Var(name)), st1)
                            }
                        },
                        _ => (Err(CompilerErr::Unknown), st),
                    }
                } else if t.kind == TokenKind::LeftParen {
                    let st1 = advance_s(st);
                    let (r, st2) = parse_expr_s(st1, 1, (fuel - 1) as nat);
                    // a missing `)` is tolerated; parsing carries on
                    (r, expect_s(st2, TokenKind::RightParen))
                } else {
                    (Err(CompilerErr::InvalidAtom), st)
                }
            },
        }
    }
}

/// What precedence climbing does to the lexer: starting from an atom, as
/// long as the lookahead is an operator of precedence at least
/// `min_prec`, the operator is consumed, the right-hand side is parsed
/// with the precedence floor [`next_min_prec`], and the two sides fold
/// into a binary node.
pub open spec fn parse_expr_s(st: LexS, min_prec: nat, fuel: nat) -> (Result<
    ExprS,
    CompilerErr,
>, LexS)
    decreases fuel,
{
    if fuel == 0 {
        (Err(CompilerErr::Unknown), st)
    } else {
        let (r, st1) = parse_atom_s(st, (fuel - 1) as nat);
        match r {
            Err(err) => (Err(err), st1),
            Ok(lhs) => parse_expr_climb_s(lhs, st1, min_prec, (fuel - 1) as nat),
        }
    }
}

/// The climbing loop of [`parse_expr_s`], folding operators into `lhs`.
pub open spec fn parse_expr_climb_s(lhs: ExprS, st: LexS, min_prec: nat, fuel: nat) -> (Result<
    ExprS,
    CompilerErr,
>, LexS)
    decreases fuel,
{
    if fuel == 0 {
        (Err(CompilerErr::Unknown), st)
    } else {
        match st.cur {
            Option::None => (Ok(lhs), st),
            Option::Some(t) => {
                if is_op_kind(t.kind) && prec_of_kind(t.kind) >= min_prec {
                    let st1 = advance_s(st);
                    let (r, st2) = parse_expr_s(st1, next_min_prec(t.kind), (fuel - 1) as nat);
                    match r {
                        Err(err) => (Err(err), st2),
                        Ok(rhs) => parse_expr_climb_s(
                            ExprS::BinOp(op_of_kind(t.kind), Box::new(lhs), Box::new(rhs)),
                            st2,
                            min_prec,
                            (fuel - 1) as nat,
                        ),
                    }
                } else {
                    (Ok(lhs), st)
                }
            },
        }
    }
}

/// What parsing a `return` statement does to the lexer.
pub open spec fn parse_return_s(st: LexS, fuel: nat) -> (Result<StmtS, CompilerErr>, LexS) {
    let st1 = expect_s(st, TokenKind::Return);
    let (r, st2) = parse_expr_s(st1, 0, fuel);
    match r {
        Err(err) => (Err(err), st2),
        Ok(e) => (Ok(StmtS::Return(e)), expect_s(st2, TokenKind::SemiColon)),
    }
}

/// What parsing a `let` statement does to the lexer.
pub open spec fn parse_assign_s(st: LexS, fuel: nat) -> (Result<StmtS, CompilerErr>, LexS) {
    let st1 = expect_s(st, TokenKind::Let);
    let (rn, st2) = parse_ident_s(st1);
    match rn {
        Err(err) => (Err(err), st2),
        Ok(name) => {
            let st3 = expect_s(st2, TokenKind::Eq);
            let (re, st4) = parse_expr_s(st3, 0, fuel);
            match re {
                Err(err) => (Err(err), st4),
                Ok(e) => (Ok(StmtS::Assign(name, e)), expect_s(st4, TokenKind::SemiColon)),
            }
        },
    }
}

/// What parsing a `fn` declaration does to the lexer: `fn IDENT ( ) {
/// STATEMENTS }`. The parameter list must be empty.
pub open spec fn parse_fn_decl_s(st: LexS, fuel: nat) -> (Result<StmtS, CompilerErr>, LexS)
    decreases fuel, 0int,
{
    if fuel == 0 {
        (Err(CompilerErr::Unknown), st)
    } else {
        let st1 = expect_s(st, TokenKind::Fn);
        let (rn, st2) = parse_ident_s(st1);
        match rn {
            Err(err) => (Err(err), st2),
            Ok(name) => {
                let st3 = expect_s(st2, TokenKind::LeftParen);
                let st4 = expect_s(st3, TokenKind::RightParen);
                let st5 = expect_s(st4, TokenKind::LeftBrace);
                let (rb, st6) = parse_statements_s(st5, (fuel - 1) as nat);
                match rb {
                    Err(err) => (Err(err), st6),
                    Ok(block) => (
                        Ok(StmtS::DeclareFn(name, block)),
                        expect_s(st6, TokenKind::RightBrace),
                    ),
                }
            },
        }
    }
}

/// What parsing a statement list does to the lexer: statements parse as
/// long as the lookahead starts one (`let`, `fn` or `return`); any other
/// token ends the list without being consumed, and the end of input ends
/// it too.
pub open spec fn parse_statements_s(st: LexS, fuel: nat) -> (Result<
    Seq<StmtS>,
    CompilerErr,
>, LexS)
    decreases fuel, 0int,
{
    if fuel == 0 {
        (Err(CompilerErr::Unknown), st)
    } else {
        match st.cur {
            Option::None => (Ok(Seq::empty()), st),
            Option::Some(t) => {
                if t.kind == TokenKind::Let {
                    let (r, st1) = parse_assign_s(st, (fuel - 1) as nat);
                    parse_statements_step_s(r, st1, (fuel - 1) as nat)
                } else if t.kind == TokenKind::Fn {
                    let (r, st1) = parse_fn_decl_s(st, (fuel - 1) as nat);
                    parse_statements_step_s(r, st1, (fuel - 1) as nat)
                } else if t.kind == TokenKind::Return {
                    let (r, st1) = parse_return_s(st, (fuel - 1) as nat);
                    parse_statements_step_s(r, st1, (fuel - 1) as nat)
                } else {
                    (Ok(Seq::empty()), st)
                }
            },
        }
    }
}

/// One step of [`parse_statements_s`]: a failed statement aborts the
/// list, a parsed one is prepended to whatever the rest of the list
/// parses to.
pub open spec fn parse_statements_step_s(
    r: Result<StmtS, CompilerErr>,
    st: LexS,
    fuel: nat,
) -> (Result<Seq<StmtS>, CompilerErr>, LexS)
    decreases fuel, 1int,
{
    match r {
        Err(err) => (Err(err), st),
        Ok(s) => {
            let (rr, st2) = parse_statements_s(st, fuel);
            match rr {
                Err(err) => (Err(err), st2),
                Ok(rest) => (Ok(seq![s] + rest), st2),
            }
        },
    }
}

/// Fuel that always suffices for one expression parse from `st`.
pub open spec fn expr_fuel(st: LexS) -> nat {
    (2 * lex_m(st) + 3) as nat
}

/// Fuel that always suffices for one statement-list parse from `st`.
pub open spec fn stmts_fuel(st: LexS) -> nat {
    (2 * lex_m(st) + 4) as nat
}

/// Fuel that always suffices for one `fn` declaration parse from `st`.
pub open spec fn fn_decl_fuel(st: LexS) -> nat {
    (2 * lex_m(st) + 3) as nat
}

/// A parenthesized sub-expression re-enters the expression parser at the
/// lowest real operator precedence, 1 — and the atom parser takes no
/// minimum precedence at all — so inside parentheses every operator is
/// accepted, whatever minimum precedence encloses the atom.
pub proof fn lemma_paren_lowest_precedence(st: LexS, fuel: nat)
    requires
        cur_kind_is(st, TokenKind::LeftParen),
        fuel > 0,
    ensures
        ({
            let (r, st2) = parse_expr_s(advance_s(st), 1, (fuel - 1) as nat);
            parse_atom_s(st, fuel) == (r, expect_s(st2, TokenKind::RightParen))
        }),
{
}

/// Tolerating a token keeps the source and never grows the remaining
/// input.
pub proof fn lemma_expect_m(st: LexS, k: TokenKind)
    requires
        st.p <= st.chars.len(),
    ensures
        ({
            let st2 = expect_s(st, k);
            &&& st2.chars == st.chars
            &&& st2.p <= st2.chars.len()
            &&& lex_m(st2) <= lex_m(st)
        }),
{
    if cur_kind_is(st, k) {
        lemma_advance_m(st);
    }
}

/// The precedence and associativity of an operator token, or nothing for
/// a token that is no operator.
fn op_info(k: TokenKind) -> (r: Option<(usize, bool)>)
    ensures
        match r {
            Some(pr) => is_op_kind(k) && pr.0 == prec_of_kind(k) && pr.1 == is_right_kind(k),
            None => !is_op_kind(k),
        },
{
    match k {
        TokenKind::Plus => Some((1, false)),
        TokenKind::Hyphen => Some((1, false)),
        TokenKind::Asterisk => Some((2, false)),
        TokenKind::Slash => Some((2, false)),
        TokenKind::Circumflex => Some((3, true)),
        _ => None,
    }
}

/// The operator an operator token stands for.
fn op_of_token(k: TokenKind) -> (r: Op)
    requires
        is_op_kind(k),
    ensures
        r == op_of_kind(k),
{
    match k {
        TokenKind::Plus => Op::Add,
        TokenKind::Hyphen => Op::Sub,
        TokenKind::Asterisk => Op::Mul,
        TokenKind::Slash => Op::Div,
        _ => Op::Exp,
    }
}

/// The precedence-climbing parser. It holds no state of its own; the
/// operator table is the fixed mapping [`prec_of_kind`] /
/// [`is_right_kind`].
pub struct Parse {}

impl Parse {
    /// A parser.
    pub fn new() -> (r: Parse) {
        Parse {}
    }

    /// Consumes an identifier token and returns its text.
    fn parse_ident(&mut self, l: &mut Lex) -> (r: Result<String, CompilerErr>)
        requires
            old(l).wf(),
        ensures
            final(l).wf(),
            lex_m(final(l)@) <= lex_m(old(l)@),
            r is Ok ==> lex_m(final(l)@) < lex_m(old(l)@),
            ({
                let (r0, st2) = parse_ident_s(old(l)@);
                ident_res_view(r) == r0 && final(l)@ == st2
            }),
    {
        let nm: Option<String> = match &l.cur {
            Some(t) => {
                if t.kind == TokenKind::Ident {
                    match &t.value {
                        LexValue::Ident(s) => Some(s.clone()),
                        _ => None,
                    }
                } else {
                    None
                }
            },
            None => None,
        };
        match nm {
            Some(name) => {
                proof {
                    lemma_advance_m(l@);
                }
                l.next();
                Ok(name)
            },
            None => Err(CompilerErr::Unknown),
        }
    }

    /// Parses one atom: an integer literal, a variable reference, a
    /// zero-argument call, or a parenthesized sub-expression.
    fn parse_atom_g(&mut self, l: &mut Lex, Ghost(fuel): Ghost<nat>) -> (r: Result<
        Expr,
        CompilerErr,
    >)
        requires
            old(l).wf(),
            fuel >= 2 * lex_m(old(l)@) + 2,
        ensures
            final(l).wf(),
            lex_m(final(l)@) <= lex_m(old(l)@),
            r is Ok ==> lex_m(final(l)@) < lex_m(old(l)@),
            ({
                let (r0, st2) = parse_atom_s(old(l)@, fuel);
                expr_res_view(r) == r0 && final(l)@ == st2
            }),
        decreases lex_m(l@), 0int,
    {
        let cur_int: Option<i64> = match &l.cur {
            Some(t) => {
                if t.kind == TokenKind::Int {
                    match &t.value {
                        LexValue::Int(n) => Some(*n),
                        _ => None,
                    }
                } else {
                    None
                }
            },
            None => None,
        };
        if let Some(n) = cur_int {
            proof {
                lemma_advance_m(l@);
            }
            l.next();
            return Ok(Expr::Lit(Value::Int(n)));
        }
        let cur_ident: Option<String> = match &l.cur {
            Some(t) => {
                if t.kind == TokenKind::Ident {
                    match &t.value {
                        LexValue::Ident(s) => Some(s.clone()),
                        _ => None,
                    }
                } else {
                    None
                }
            },
            None => None,
        };
        if let Some(name) = cur_ident {
            proof {
                lemma_advance_m(l@);
            }
            l.next();
            proof {
                lemma_advance_m(l@);
                lemma_expect_m(advance_s(l@), TokenKind::RightParen);
            }
            if l.maybe(TokenKind::LeftParen) {
                l.expect(TokenKind::RightParen);
                return Ok(Expr::Call(name));
            }
            return Ok(Expr::Var(name));
        }
        let is_paren = match &l.cur {
            Some(t) => t.kind == TokenKind::LeftParen,
            None => false,
        };
        if is_paren {
            proof {
                lemma_advance_m(l@);
            }
            l.next();
            let res = self.parse_expr_g(l, 1, Ghost((fuel - 1) as nat));
            proof {
                lemma_expect_m(l@, TokenKind::RightParen);
            }
            // a missing `)` is tolerated; parsing carries on
            l.expect(TokenKind::RightParen);
            return res;
        }
        match &l.cur {
            Some(t) => {
                if t.kind == TokenKind::Int || t.kind == TokenKind::Ident {
                    Err(CompilerErr::Unknown)
                } else {
                    Err(CompilerErr::InvalidAtom)
                }
            },
            None => Err(CompilerErr::Unknown),
        }
    }

    /// Parses an expression by precedence climbing: operators of
    /// precedence below `min_prec` are left for the caller.
    pub fn parse_expr(&mut self, l: &mut Lex, min_prec: usize) -> (r: Result<Expr, CompilerErr>)
        requires
            old(l).wf(),
        ensures
            final(l).wf(),
            ({
                let (r0, st2) = parse_expr_s(old(l)@, min_prec as nat, expr_fuel(old(l)@));
                expr_res_view(r) == r0 && final(l)@ == st2
            }),
    {
        let ghost f = expr_fuel(l@);
        self.parse_expr_g(l, min_prec, Ghost(f))
    }

    /// The worker behind [`Parse::parse_expr`], with explicit fuel.
    fn parse_expr_g(&mut self, l: &mut Lex, min_prec: usize, Ghost(fuel): Ghost<nat>) -> (r:
        Result<Expr, CompilerErr>)
        requires
            old(l).wf(),
            fuel >= 2 * lex_m(old(l)@) + 3,
        ensures
            final(l).wf(),
            lex_m(final(l)@) <= lex_m(old(l)@),
            r is Ok ==> lex_m(final(l)@) < lex_m(old(l)@),
            ({
                let (r0, st2) = parse_expr_s(old(l)@, min_prec as nat, fuel);
                expr_res_view(r) == r0 && final(l)@ == st2
            }),
        decreases lex_m(l@), 1int,
    {
        let ghost st0 = l@;
        let first = self.parse_atom_g(l, Ghost((fuel - 1) as nat));
        let mut lhs = match first {
            Err(err) => {
                return Err(err);
            },
            Ok(x) => x,
        };
        let ghost st1 = l@;
        let ghost goal = parse_expr_climb_s(lhs@, st1, min_prec as nat, (fuel - 1) as nat);
        let ghost mut floop: nat = (fuel - 1) as nat;
        #[verifier::loop_isolation(false)]
        loop
            invariant
                l.wf(),
                lex_m(l@) <= lex_m(st1),
                floop >= 2 * lex_m(l@) + 2,
                parse_expr_climb_s(lhs@, l@, min_prec as nat, floop) == goal,
            decreases floop,
        {
            let kind = match &l.cur {
                Some(t) => t.kind,
                None => break ,
            };
            let (prec, right) = match op_info(kind) {
                Some(pr) => pr,
                None => break ,
            };
            if prec < min_prec {
                break ;
            }
            let op = op_of_token(kind);
            proof {
                lemma_advance_m(l@);
            }
            l.next();
            let next_min = if right {
                prec
            } else {
                prec + 1
            };
            let rhs = match self.parse_expr_g(l, next_min, Ghost((floop - 1) as nat)) {
                Err(err) => {
                    return Err(err);
                },
                Ok(x) => x,
            };
            lhs = Expr::BinOp(op, Box::new(lhs), Box::new(rhs));
            proof {
                floop = (floop - 1) as nat;
            }
        }
        Ok(lhs)
    }

    /// Parses `return EXPR ;`.
    pub fn parse_return(&mut self, l: &mut Lex) -> (r: Result<Statement, CompilerErr>)
        requires
            old(l).wf(),
        ensures
            final(l).wf(),
            ({
                let (r0, st2) = parse_return_s(old(l)@, expr_fuel(old(l)@));
                stmt_res_view(r) == r0 && final(l)@ == st2
            }),
    {
        let ghost f = expr_fuel(l@);
        self.parse_return_g(l, Ghost(f))
    }

    /// The worker behind [`Parse::parse_return`], with explicit fuel.
    fn parse_return_g(&mut self, l: &mut Lex, Ghost(fuel): Ghost<nat>) -> (r: Result<
        Statement,
        CompilerErr,
    >)
        requires
            old(l).wf(),
            fuel >= 2 * lex_m(old(l)@) + 3,
        ensures
            final(l).wf(),
            lex_m(final(l)@) <= lex_m(old(l)@),
            r is Ok ==> lex_m(final(l)@) < lex_m(old(l)@),
            ({
                let (r0, st2) = parse_return_s(old(l)@, fuel);
                stmt_res_view(r) == r0 && final(l)@ == st2
            }),
    {
        proof {
            lemma_expect_m(l@, TokenKind::Return);
        }
        l.expect(TokenKind::Return);
        let e = match self.parse_expr_g(l, 0, Ghost(fuel)) {
            Err(err) => {
                return Err(err);
            },
            Ok(x) => x,
        };
        proof {
            lemma_expect_m(l@, TokenKind::SemiColon);
        }
        l.expect(TokenKind::SemiColon);
        Ok(Statement::Return(e))
    }

    /// Parses `let IDENT = EXPR ;`.
    pub fn parse_assign(&mut self, l: &mut Lex) -> (r: Result<Statement, CompilerErr>)
        requires
            old(l).wf(),
        ensures
            final(l).wf(),
            ({
                let (r0, st2) = parse_assign_s(old(l)@, expr_fuel(old(l)@));
                stmt_res_view(r) == r0 && final(l)@ == st2
            }),
    {
        let ghost f = expr_fuel(l@);
        self.parse_assign_g(l, Ghost(f))
    }

    /// The worker behind [`Parse::parse_assign`], with explicit fuel.
    fn parse_assign_g(&mut self, l: &mut Lex, Ghost(fuel): Ghost<nat>) -> (r: Result<
        Statement,
        CompilerErr,
    >)
        requires
            old(l).wf(),
            fuel >= 2 * lex_m(old(l)@) + 3,
        ensures
            final(l).wf(),
            lex_m(final(l)@) <= lex_m(old(l)@),
            r is Ok ==> lex_m(final(l)@) < lex_m(old(l)@),
            ({
                let (r0, st2) = parse_assign_s(old(l)@, fuel);
                stmt_res_view(r) == r0 && final(l)@ == st2
            }),
    {
        proof {
            lemma_expect_m(l@, TokenKind::Let);
        }
        l.expect(TokenKind::Let);
        let name = match self.parse_ident(l) {
            Err(err) => {
                return Err(err);
            },
            Ok(x) => x,
        };
        proof {
            lemma_expect_m(l@, TokenKind::Eq);
        }
        l.expect(TokenKind::Eq);
        let e = match self.parse_expr_g(l, 0, Ghost(fuel)) {
            Err(err) => {
                return Err(err);
            },
            Ok(x) => x,
        };
        proof {
            lemma_expect_m(l@, TokenKind::SemiColon);
        }
        l.expect(TokenKind::SemiColon);
        Ok(Statement::Assign(name, e))
    }

    /// Parses `fn IDENT ( ) { STATEMENTS }`. The parameter list must be
    /// empty.
    pub fn parse_fn_decl(&mut self, l: &mut Lex) -> (r: Result<Statement, CompilerErr>)
        requires
            old(l).wf(),
        ensures
            final(l).wf(),
            ({
                let (r0, st2) = parse_fn_decl_s(old(l)@, fn_decl_fuel(old(l)@));
                stmt_res_view(r) == r0 && final(l)@ == st2
            }),
    {
        let ghost f = fn_decl_fuel(l@);
        self.parse_fn_decl_g(l, Ghost(f))
    }

    /// The worker behind [`Parse::parse_fn_decl`], with explicit fuel.
    fn parse_fn_decl_g(&mut self, l: &mut Lex, Ghost(fuel): Ghost<nat>) -> (r: Result<
        Statement,
        CompilerErr,
    >)
        requires
            old(l).wf(),
            fuel >= 2 * lex_m(old(l)@) + 3,
        ensures
            final(l).wf(),
            lex_m(final(l)@) <= lex_m(old(l)@),
            r is Ok ==> lex_m(final(l)@) < lex_m(old(l)@),
            ({
                let (r0, st2) = parse_fn_decl_s(old(l)@, fuel);
                stmt_res_view(r) == r0 && final(l)@ == st2
            }),
        decreases lex_m(l@), 0int,
    {
        proof {
            lemma_expect_m(l@, TokenKind::Fn);
        }
        l.expect(TokenKind::Fn);
        let name = match self.parse_ident(l) {
            Err(err) => {
                return Err(err);
            },
            Ok(x) => x,
        };
        proof {
            lemma_expect_m(l@, TokenKind::LeftParen);
        }
        l.expect(TokenKind::LeftParen);
        proof {
            lemma_expect_m(l@, TokenKind::RightParen);
        }
        l.expect(TokenKind::RightParen);
        proof {
            lemma_expect_m(l@, TokenKind::LeftBrace);
        }
        l.expect(TokenKind::LeftBrace);
        let block = match self.parse_statements_g(l, Ghost((fuel - 1) as nat)) {
            Err(err) => {
                return Err(err);
            },
            Ok(x) => x,
        };
        proof {
            lemma_expect_m(l@, TokenKind::RightBrace);
        }
        l.expect(TokenKind::RightBrace);
        Ok(Statement::DeclareFn(name, block))
    }

    /// Parses statements for as long as the lookahead starts one (`let`,
    /// `fn` or `return`); the first other token ends the list and stays
    /// unconsumed.
    pub fn parse_statements(&mut self, l: &mut Lex) -> (r: Result<Vec<Statement>, CompilerErr>)
        requires
            old(l).wf(),
        ensures
            final(l).wf(),
            ({
                let (r0, st2) = parse_statements_s(old(l)@, stmts_fuel(old(l)@));
                block_res_view(r) == r0 && final(l)@ == st2
            }),
    {
        let ghost f = stmts_fuel(l@);
        self.parse_statements_g(l, Ghost(f))
    }

    /// The worker behind [`Parse::parse_statements`], with explicit fuel.
    fn parse_statements_g(&mut self, l: &mut Lex, Ghost(fuel): Ghost<nat>) -> (r: Result<
        Vec<Statement>,
        CompilerErr,
    >)
        requires
            old(l).wf(),
            fuel >= 2 * lex_m(old(l)@) + 4,
        ensures
            final(l).wf(),
            lex_m(final(l)@) <= lex_m(old(l)@),
            ({
                let (r0, st2) = parse_statements_s(old(l)@, fuel);
                block_res_view(r) == r0 && final(l)@ == st2
            }),
        decreases lex_m(l@), 1int,
    {
        let mut stmts: Vec<Statement> = Vec::new();
        let ghost mut f: nat = fuel;
        proof {
            lemma_stmts_view(stmts@);
        }
        #[verifier::loop_isolation(false)]
        loop
            invariant
                l.wf(),
                lex_m(l@) <= lex_m(old(l)@),
                f >= 2 * lex_m(l@) + 4,
                ({
                    let (r0, st2) = parse_statements_s(l@, f);
                    let (g0, g2) = parse_statements_s(old(l)@, fuel);
                    &&& (r0 is Ok ==> g0 == Ok::<Seq<StmtS>, CompilerErr>(
                        stmts_view(stmts@) + r0->Ok_0,
                    ))
                    &&& (r0 is Err ==> g0 == r0)
                    &&& g2 == st2
                }),
            decreases f,
        {
            let kind = match &l.cur {
                Some(t) => t.kind,
                None => break ,
            };
            let ghost stmts_before = stmts@;
            if kind == TokenKind::Let {
                let s = match self.parse_assign_g(l, Ghost((f - 1) as nat)) {
                    Err(err) => {
                        return Err(err);
                    },
                    Ok(x) => x,
                };
                stmts.push(s);
            } else if kind == TokenKind::Fn {
                let s = match self.parse_fn_decl_g(l, Ghost((f - 1) as nat)) {
                    Err(err) => {
                        return Err(err);
                    },
                    Ok(x) => x,
                };
                stmts.push(s);
            } else if kind == TokenKind::Return {
                let s = match self.parse_return_g(l, Ghost((f - 1) as nat)) {
                    Err(err) => {
                        return Err(err);
                    },
                    Ok(x) => x,
                };
                stmts.push(s);
            } else {
                break ;
            }
            proof {
                f = (f - 1) as nat;
                assert(stmts@.subrange(0, stmts@.len() - 1) =~= stmts_before);
                lemma_stmts_view(stmts@);
                lemma_stmts_view(stmts_before);
                assert forall|rest: Seq<StmtS>|
                    stmts_view(stmts_before) + (seq![stmts@.last()@] + rest) =~= stmts_view(
                        stmts@,
                    ) + rest by {
                }
            }
        }
        proof {
            lemma_stmts_view(stmts@);
            assert(stmts_view(stmts@) + Seq::<StmtS>::empty() =~= stmts_view(stmts@));
        }
        Ok(stmts)
    }
}

} // verus!
