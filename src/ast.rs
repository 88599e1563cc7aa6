use vstd::prelude::*;

verus! {

#[derive(Debug)]
pub struct Program {
    pub functions: Vec<Function>,
}

#[derive(Debug)]
pub struct Function {
    pub name: String,
    pub params: Vec<String>,
    pub body: Block,
}

#[derive(Debug)]
pub struct Block {
    pub statements: Vec<Statement>,
}

#[derive(Debug)]
pub enum Statement {
    VarDecl { name: String, value: Expr },
    Assignment { name: String, value: Expr },
    If { condition: Expr, then_block: Block, else_block: Option<Block> },
    While { condition: Expr, body: Block },
    Return { value: Expr },
    ExprStmt { expr: Expr },
}

#[derive(Debug)]
pub enum Expr {
    Number(i64),
    Variable(String),
    Binary { op: BinOp, left: Box<Expr>, right: Box<Expr> },
    Unary { op: UnaryOp, operand: Box<Expr> },
    Call { name: String, args: Vec<Expr> },
}

#[derive(Debug, Clone, Copy, PartialEq, Eq, Structural)]
pub enum BinOp {
    Add,
    Sub,
    Mul,
    Div,
    Mod,
    Lt,
    Le,
    Gt,
    Ge,
    Eq,
    Ne,
    And,
    Or,
}

#[derive(Debug, Clone, Copy, PartialEq, Eq, Structural)]
pub enum UnaryOp {
    Neg,
    Not,
}

/// An expression as mathematics sees it: names are character sequences, lists are sequences.
pub enum ExprV {
    Number(i64),
    Variable(Seq<char>),
    Binary { op: BinOp, left: Box<ExprV>, right: Box<ExprV> },
    Unary { op: UnaryOp, operand: Box<ExprV> },
    Call { name: Seq<char>, args: Seq<ExprV> },
}

pub enum StatementV {
    VarDecl { name: Seq<char>, value: ExprV },
    Assignment { name: Seq<char>, value: ExprV },
    If { condition: ExprV, then_block: Seq<StatementV>, else_block: Option<Seq<StatementV>> },
    While { condition: ExprV, body: Seq<StatementV> },
    Return { value: ExprV },
    ExprStmt { expr: ExprV },
}

pub struct FunctionV {
    pub name: Seq<char>,
    pub params: Seq<Seq<char>>,
    pub body: Seq<StatementV>,
}

pub open spec fn expr_view(e: Expr) -> ExprV
    decreases e, 0int,
{
    match e {
        Expr::Number(n) => ExprV::Number(n),
        Expr::Variable(name) => ExprV::Variable(name@),
        Expr::Binary { op, left, right } => ExprV::Binary {
            op,
            left: Box::new(expr_view(*left)),
            right: Box::new(expr_view(*right)),
        },
        Expr::Unary { op, operand } => ExprV::Unary { op, operand: Box::new(expr_view(*operand)) },
        Expr::Call { name, args } => ExprV::Call { name: name@, args: exprs_view_from(args@, 0) },
    }
}

/// The views of `s[i..]`.
pub open spec fn exprs_view_from(s: Seq<Expr>, i: int) -> Seq<ExprV>
    decreases s, s.len() - i,
{
    if 0 <= i < s.len() {
        seq![expr_view(s[i])] + exprs_view_from(s, i + 1)
    } else {
        Seq::empty()
    }
}

pub open spec fn exprs_view(s: Seq<Expr>) -> Seq<ExprV> {
    exprs_view_from(s, 0)
}

pub open spec fn stmt_view(s: Statement) -> StatementV
    decreases s, 0int,
{
    match s {
        Statement::VarDecl { name, value } => StatementV::VarDecl {
            name: name@,
            value: expr_view(value),
        },
        Statement::Assignment { name, value } => StatementV::Assignment {
            name: name@,
            value: expr_view(value),
        },
        Statement::If { condition, then_block, else_block } => StatementV::If {
            condition: expr_view(condition),
            then_block: stmts_view_from(then_block.statements@, 0),
            else_block: match else_block {
                Some(b) => Some(stmts_view_from(b.statements@, 0)),
                None => None,
            },
        },
        Statement::While { condition, body } => StatementV::While {
            condition: expr_view(condition),
            body: stmts_view_from(body.statements@, 0),
        },
        Statement::Return { value } => StatementV::Return { value: expr_view(value) },
        Statement::ExprStmt { expr } => StatementV::ExprStmt { expr: expr_view(expr) },
    }
}

/// The views of `s[i..]`.
pub open spec fn stmts_view_from(s: Seq<Statement>, i: int) -> Seq<StatementV>
    decreases s, s.len() - i,
{
    if 0 <= i < s.len() {
        seq![stmt_view(s[i])] + stmts_view_from(s, i + 1)
    } else {
        Seq::empty()
    }
}

pub open spec fn stmts_view(s: Seq<Statement>) -> Seq<StatementV> {
    stmts_view_from(s, 0)
}

pub open spec fn names_view(s: Seq<String>) -> Seq<Seq<char>> {
    s.map_values(|n: String| n@)
}

pub open spec fn function_view(f: Function) -> FunctionV {
    FunctionV { name: f.name@, params: names_view(f.params@), body: stmts_view(f.body.statements@) }
}

pub open spec fn functions_view(s: Seq<Function>) -> Seq<FunctionV> {
    s.map_values(|f: Function| function_view(f))
}

impl Program {
    pub fn new() -> (r: Self)
        ensures
            r.functions@.len() == 0,
    {
        Program { functions: Vec::new() }
    }

    pub fn add_function(&mut self, func: Function)
        ensures
            final(self).functions@ == old(self).functions@.push(func),
    {
        self.functions.push(func);
    }
}

impl Block {
    pub fn new() -> (r: Self)
        ensures
            r.statements@.len() == 0,
    {
        Block { statements: Vec::new() }
    }

    pub fn add_statement(&mut self, stmt: Statement)
        ensures
            final(self).statements@ == old(self).statements@.push(stmt),
    {
        self.statements.push(stmt);
    }
}

} // verus!
