use vstd::prelude::*;
use crate::ast::{
    BinOp, Block, Expr, ExprV, Function, FunctionV, Program, Statement, StatementV, UnaryOp,
    expr_view, exprs_view, exprs_view_from, function_view, functions_view, names_view,
    stmt_view, stmts_view, stmts_view_from,
};
use crate::token::{Token, TokenType, same_kind};

verus! {

/// What the parser found missing.
#[derive(Debug, Clone, PartialEq)]
pub enum ParseErrorKind {
    /// A token of this kind was required.
    Expected(TokenType),
    ExpectedFunctionName,
    ExpectedParameterName,
    ExpectedVariableName,
    ExpectedExpression,
}

/// The first unexpected token, with its position.
#[derive(Debug, Clone, PartialEq)]
pub struct ParseError {
    pub kind: ParseErrorKind,
    pub line: usize,
    pub column: usize,
}

// ---------------------------------------------------------------------------
// The grammar, as functions from a token index to a tree and the index after it.
// ---------------------------------------------------------------------------

/// A token sequence that a parser can walk: it ends with end-of-input.
pub open spec fn tokens_ok(t: Seq<Token>) -> bool {
    t.len() > 0 && t.last().typ is Eof
}

pub open spec fn at_end(t: Seq<Token>, i: int) -> bool {
    t[i].typ is Eof
}

pub open spec fn check(t: Seq<Token>, i: int, k: TokenType) -> bool {
    !at_end(t, i) && same_kind(t[i].typ, k)
}

pub open spec fn perr(t: Seq<Token>, i: int, kind: ParseErrorKind) -> ParseError {
    ParseError { kind, line: t[i].line, column: t[i].column }
}

pub open spec fn expect(t: Seq<Token>, i: int, k: TokenType) -> Result<int, ParseError> {
    if check(t, i, k) {
        Ok(i + 1)
    } else {
        Err(perr(t, i, ParseErrorKind::Expected(k)))
    }
}

/// The binary operator of precedence level `lvl` (0 is `||`, 5 is `* / %`) at index `i`.
pub open spec fn binop_at(t: Seq<Token>, i: int, lvl: int) -> Option<BinOp> {
    let k = t[i].typ;
    if lvl == 0 {
        if k is Or { Some(BinOp::Or) } else { None }
    } else if lvl == 1 {
        if k is And { Some(BinOp::And) } else { None }
    } else if lvl == 2 {
        if k is Eq { Some(BinOp::Eq) } else if k is Ne { Some(BinOp::Ne) } else { None }
    } else if lvl == 3 {
        if k is Lt {
            Some(BinOp::Lt)
        } else if k is Le {
            Some(BinOp::Le)
        } else if k is Gt {
            Some(BinOp::Gt)
        } else if k is Ge {
            Some(BinOp::Ge)
        } else {
            None
        }
    } else if lvl == 4 {
        if k is Plus { Some(BinOp::Add) } else if k is Minus { Some(BinOp::Sub) } else { None }
    } else if lvl == 5 {
        if k is Star {
            Some(BinOp::Mul)
        } else if k is Slash {
            Some(BinOp::Div)
        } else if k is Percent {
            Some(BinOp::Mod)
        } else {
            None
        }
    } else {
        None
    }
}

pub open spec fn p_expr(t: Seq<Token>, i: int) -> Result<(ExprV, int), ParseError>
    decreases t.len() - i, 9int,
{
    p_bin(t, i, 0)
}

/// An expression whose operators are all of level `lvl` or tighter.
pub open spec fn p_bin(t: Seq<Token>, i: int, lvl: int) -> Result<(ExprV, int), ParseError>
    decreases t.len() - i, 8 - lvl,
{
    if !(0 <= i < t.len()) || !(0 <= lvl <= 6) {
        Err(perr(t, i, ParseErrorKind::ExpectedExpression))
    } else if lvl == 6 {
        p_unary(t, i)
    } else {
        match p_bin(t, i, lvl + 1) {
            Err(e) => Err(e),
            Ok((left, j)) => if i < j < t.len() {
                p_tail(t, j, lvl, left)
            } else {
                Err(perr(t, i, ParseErrorKind::ExpectedExpression))
            },
        }
    }
}

/// The rest of a left-associative chain of level `lvl`, after `left`.
pub open spec fn p_tail(t: Seq<Token>, j: int, lvl: int, left: ExprV) -> Result<
    (ExprV, int),
    ParseError,
>
    decreases t.len() - j, 0int,
{
    if !(0 <= j < t.len()) || !(0 <= lvl < 6) {
        Err(perr(t, j, ParseErrorKind::ExpectedExpression))
    } else {
        match binop_at(t, j, lvl) {
            None => Ok((left, j)),
            Some(op) => match p_bin(t, j + 1, lvl + 1) {
                Err(e) => Err(e),
                Ok((right, k)) => if j < k < t.len() {
                    p_tail(
                        t,
                        k,
                        lvl,
                        ExprV::Binary { op, left: Box::new(left), right: Box::new(right) },
                    )
                } else {
                    Err(perr(t, j, ParseErrorKind::ExpectedExpression))
                },
            },
        }
    }
}

pub open spec fn p_unary(t: Seq<Token>, i: int) -> Result<(ExprV, int), ParseError>
    decreases t.len() - i, 1int,
{
    if !(0 <= i < t.len()) {
        Err(perr(t, i, ParseErrorKind::ExpectedExpression))
    } else if t[i].typ is Bang || t[i].typ is Minus {
        let op = if t[i].typ is Bang { UnaryOp::Not } else { UnaryOp::Neg };
        match p_unary(t, i + 1) {
            Err(e) => Err(e),
            Ok((operand, k)) => Ok((ExprV::Unary { op, operand: Box::new(operand) }, k)),
        }
    } else {
        p_primary(t, i)
    }
}

pub open spec fn p_primary(t: Seq<Token>, i: int) -> Result<(ExprV, int), ParseError>
    decreases t.len() - i, 0int,
{
    if !(0 <= i < t.len()) {
        Err(perr(t, i, ParseErrorKind::ExpectedExpression))
    } else {
        match t[i].typ {
            TokenType::Number(n) => Ok((ExprV::Number(n), i + 1)),
            TokenType::Ident(name) => if check(t, i + 1, TokenType::LParen) && i + 2 < t.len() {
                match p_args(t, i + 2) {
                    Err(e) => Err(e),
                    Ok((args, j)) => match expect(t, j, TokenType::RParen) {
                        Err(e) => Err(e),
                        Ok(k) => Ok((ExprV::Call { name: name@, args }, k)),
                    },
                }
            } else {
                Ok((ExprV::Variable(name@), i + 1))
            },
            TokenType::LParen => match p_expr(t, i + 1) {
                Err(e) => Err(e),
                Ok((e, j)) => match expect(t, j, TokenType::RParen) {
                    Err(err) => Err(err),
                    Ok(k) => Ok((e, k)),
                },
            },
            _ => Err(perr(t, i, ParseErrorKind::ExpectedExpression)),
        }
    }
}

/// A possibly empty, comma-separated list of arguments, stopping before `)`.
pub open spec fn p_args(t: Seq<Token>, i: int) -> Result<(Seq<ExprV>, int), ParseError>
    decreases t.len() - i, 10int,
{
    if !(0 <= i < t.len()) {
        Err(perr(t, i, ParseErrorKind::ExpectedExpression))
    } else if check(t, i, TokenType::RParen) {
        Ok((Seq::empty(), i))
    } else {
        match p_expr(t, i) {
            Err(e) => Err(e),
            Ok((e, j)) => if i < j < t.len() {
                p_args_tail(t, j, seq![e])
            } else {
                Err(perr(t, i, ParseErrorKind::ExpectedExpression))
            },
        }
    }
}

pub open spec fn p_args_tail(t: Seq<Token>, j: int, acc: Seq<ExprV>) -> Result<
    (Seq<ExprV>, int),
    ParseError,
>
    decreases t.len() - j, 10int,
{
    if !(0 <= j < t.len()) {
        Err(perr(t, j, ParseErrorKind::ExpectedExpression))
    } else if check(t, j, TokenType::Comma) {
        match p_expr(t, j + 1) {
            Err(e) => Err(e),
            Ok((e, k)) => if j < k < t.len() {
                p_args_tail(t, k, acc.push(e))
            } else {
                Err(perr(t, j, ParseErrorKind::ExpectedExpression))
            },
        }
    } else {
        Ok((acc, j))
    }
}

pub open spec fn p_stmt(t: Seq<Token>, i: int) -> Result<(StatementV, int), ParseError>
    decreases t.len() - i, 11int,
{
    if !(0 <= i < t.len()) {
        Err(perr(t, i, ParseErrorKind::ExpectedExpression))
    } else if check(t, i, TokenType::Let) {
        if i + 1 < t.len() && t[i + 1].typ is Ident {
            let name = t[i + 1].typ->Ident_0;
            match expect(t, i + 2, TokenType::Assign) {
                Err(e) => Err(e),
                Ok(j) => if j < t.len() {
                    match p_expr(t, j) {
                        Err(e) => Err(e),
                        Ok((value, k)) => match expect(t, k, TokenType::Semicolon) {
                            Err(e) => Err(e),
                            Ok(m) => Ok((StatementV::VarDecl { name: name@, value }, m)),
                        },
                    }
                } else {
                    Err(perr(t, j, ParseErrorKind::ExpectedExpression))
                },
            }
        } else {
            Err(perr(t, i + 1, ParseErrorKind::ExpectedVariableName))
        }
    } else if check(t, i, TokenType::If) || check(t, i, TokenType::While) {
        match p_expr(t, i + 1) {
            Err(e) => Err(e),
            Ok((condition, j)) => if i < j < t.len() {
                match p_block(t, j) {
                    Err(e) => Err(e),
                    Ok((body, k)) => if check(t, i, TokenType::While) {
                        Ok((StatementV::While { condition, body }, k))
                    } else if check(t, k, TokenType::Else) && i < k && k + 1 < t.len() {
                        match p_block(t, k + 1) {
                            Err(e) => Err(e),
                            Ok((else_body, m)) => Ok(
                                (
                                    StatementV::If {
                                        condition,
                                        then_block: body,
                                        else_block: Some(else_body),
                                    },
                                    m,
                                ),
                            ),
                        }
                    } else {
                        Ok((StatementV::If { condition, then_block: body, else_block: None }, k))
                    },
                }
            } else {
                Err(perr(t, i, ParseErrorKind::ExpectedExpression))
            },
        }
    } else if check(t, i, TokenType::Return) {
        match p_expr(t, i + 1) {
            Err(e) => Err(e),
            Ok((value, j)) => match expect(t, j, TokenType::Semicolon) {
                Err(e) => Err(e),
                Ok(m) => Ok((StatementV::Return { value }, m)),
            },
        }
    } else if t[i].typ is Ident && check(t, i + 1, TokenType::Assign) && i + 2 < t.len() {
        let name = t[i].typ->Ident_0;
        match p_expr(t, i + 2) {
            Err(e) => Err(e),
            Ok((value, j)) => match expect(t, j, TokenType::Semicolon) {
                Err(e) => Err(e),
                Ok(m) => Ok((StatementV::Assignment { name: name@, value }, m)),
            },
        }
    } else {
        match p_expr(t, i) {
            Err(e) => Err(e),
            Ok((expr, j)) => match expect(t, j, TokenType::Semicolon) {
                Err(e) => Err(e),
                Ok(m) => Ok((StatementV::ExprStmt { expr }, m)),
            },
        }
    }
}

/// `{ Statement* }`.
pub open spec fn p_block(t: Seq<Token>, i: int) -> Result<(Seq<StatementV>, int), ParseError>
    decreases t.len() - i, 13int,
{
    if !(0 <= i < t.len()) {
        Err(perr(t, i, ParseErrorKind::ExpectedExpression))
    } else {
        match expect(t, i, TokenType::LBrace) {
            Err(e) => Err(e),
            Ok(j) => if j < t.len() {
                match p_stmts(t, j, Seq::empty()) {
                    Err(e) => Err(e),
                    Ok((body, k)) => match expect(t, k, TokenType::RBrace) {
                        Err(e) => Err(e),
                        Ok(m) => Ok((body, m)),
                    },
                }
            } else {
                Err(perr(t, i, ParseErrorKind::ExpectedExpression))
            },
        }
    }
}

/// Statements from `i` up to a `}` or the end of input, after those in `acc`.
pub open spec fn p_stmts(t: Seq<Token>, i: int, acc: Seq<StatementV>) -> Result<
    (Seq<StatementV>, int),
    ParseError,
>
    decreases t.len() - i, 12int,
{
    if !(0 <= i < t.len()) {
        Err(perr(t, i, ParseErrorKind::ExpectedExpression))
    } else if check(t, i, TokenType::RBrace) || at_end(t, i) {
        Ok((acc, i))
    } else {
        match p_stmt(t, i) {
            Err(e) => Err(e),
            Ok((st, j)) => if i < j < t.len() {
                p_stmts(t, j, acc.push(st))
            } else {
                Err(perr(t, i, ParseErrorKind::ExpectedExpression))
            },
        }
    }
}

/// A possibly empty, comma-separated list of parameter names.
pub open spec fn p_params(t: Seq<Token>, i: int) -> Result<(Seq<Seq<char>>, int), ParseError> {
    if 0 <= i && i + 1 < t.len() && t[i].typ is Ident {
        p_params_tail(t, i + 1, seq![t[i].typ->Ident_0@])
    } else {
        Ok((Seq::empty(), i))
    }
}

pub open spec fn p_params_tail(t: Seq<Token>, j: int, acc: Seq<Seq<char>>) -> Result<
    (Seq<Seq<char>>, int),
    ParseError,
>
    decreases t.len() - j,
{
    if !(0 <= j < t.len()) {
        Err(perr(t, j, ParseErrorKind::ExpectedExpression))
    } else if check(t, j, TokenType::Comma) {
        if j + 2 < t.len() && t[j + 1].typ is Ident {
            p_params_tail(t, j + 2, acc.push(t[j + 1].typ->Ident_0@))
        } else {
            Err(perr(t, j + 1, ParseErrorKind::ExpectedParameterName))
        }
    } else {
        Ok((acc, j))
    }
}

/// `func IDENT ( params ) Block`.
pub open spec fn p_function(t: Seq<Token>, i: int) -> Result<(FunctionV, int), ParseError> {
    match expect(t, i, TokenType::Func) {
        Err(e) => Err(e),
        Ok(j) => if j + 1 < t.len() && t[j].typ is Ident {
            let name = t[j].typ->Ident_0@;
            match expect(t, j + 1, TokenType::LParen) {
                Err(e) => Err(e),
                Ok(k) => match p_params(t, k) {
                    Err(e) => Err(e),
                    Ok((params, m)) => match expect(t, m, TokenType::RParen) {
                        Err(e) => Err(e),
                        Ok(n) => match p_block(t, n) {
                            Err(e) => Err(e),
                            Ok((body, q)) => Ok((FunctionV { name, params, body }, q)),
                        },
                    },
                },
            }
        } else {
            Err(perr(t, j, ParseErrorKind::ExpectedFunctionName))
        },
    }
}

/// Functions from `i` to the end of input, after those in `acc`.
pub open spec fn p_program(t: Seq<Token>, i: int, acc: Seq<FunctionV>) -> Result<
    Seq<FunctionV>,
    ParseError,
>
    decreases t.len() - i,
{
    if !(0 <= i < t.len()) {
        Err(perr(t, i, ParseErrorKind::ExpectedExpression))
    } else if at_end(t, i) {
        Ok(acc)
    } else {
        match p_function(t, i) {
            Err(e) => Err(e),
            Ok((f, j)) => if i < j < t.len() {
                p_program(t, j, acc.push(f))
            } else {
                Err(perr(t, i, ParseErrorKind::ExpectedExpression))
            },
        }
    }
}

/// The program that a token sequence spells.
pub open spec fn parse_tokens(t: Seq<Token>) -> Result<Seq<FunctionV>, ParseError> {
    p_program(t, 0, Seq::empty())
}

pub open spec fn expr_outcome(
    r: Result<Expr, ParseError>,
    s: Result<(ExprV, int), ParseError>,
    end: int,
) -> bool {
    match s {
        Ok((v, j)) => r is Ok && expr_view(r->Ok_0) == v && end == j,
        Err(e) => r == Err::<Expr, ParseError>(e),
    }
}

pub open spec fn args_outcome(
    r: Result<Vec<Expr>, ParseError>,
    s: Result<(Seq<ExprV>, int), ParseError>,
    end: int,
) -> bool {
    match s {
        Ok((v, j)) => r is Ok && exprs_view(r->Ok_0@) == v && end == j,
        Err(e) => r == Err::<Vec<Expr>, ParseError>(e),
    }
}

pub open spec fn stmt_outcome(
    r: Result<Statement, ParseError>,
    s: Result<(StatementV, int), ParseError>,
    end: int,
) -> bool {
    match s {
        Ok((v, j)) => r is Ok && stmt_view(r->Ok_0) == v && end == j,
        Err(e) => r == Err::<Statement, ParseError>(e),
    }
}

pub open spec fn block_outcome(
    r: Result<Block, ParseError>,
    s: Result<(Seq<StatementV>, int), ParseError>,
    end: int,
) -> bool {
    match s {
        Ok((v, j)) => r is Ok && stmts_view(r->Ok_0.statements@) == v && end == j,
        Err(e) => r == Err::<Block, ParseError>(e),
    }
}

pub proof fn lemma_exprs_view_push(s: Seq<Expr>, x: Expr, i: int)
    requires
        0 <= i <= s.len(),
    ensures
        exprs_view_from(s.push(x), i) == exprs_view_from(s, i).push(expr_view(x)),
    decreases s.len() - i,
{
    if i < s.len() {
        lemma_exprs_view_push(s, x, i + 1);
        assert(s.push(x)[i] == s[i]);
        assert(exprs_view_from(s.push(x), i) =~= exprs_view_from(s, i).push(expr_view(x)));
    } else {
        assert(exprs_view_from(s.push(x), i + 1) =~= Seq::empty());
        assert(exprs_view_from(s.push(x), i) =~= exprs_view_from(s, i).push(expr_view(x)));
    }
}

pub proof fn lemma_stmts_view_push(s: Seq<Statement>, x: Statement, i: int)
    requires
        0 <= i <= s.len(),
    ensures
        stmts_view_from(s.push(x), i) == stmts_view_from(s, i).push(stmt_view(x)),
    decreases s.len() - i,
{
    if i < s.len() {
        lemma_stmts_view_push(s, x, i + 1);
        assert(s.push(x)[i] == s[i]);
        assert(stmts_view_from(s.push(x), i) =~= stmts_view_from(s, i).push(stmt_view(x)));
    } else {
        assert(stmts_view_from(s.push(x), i + 1) =~= Seq::empty());
        assert(stmts_view_from(s.push(x), i) =~= stmts_view_from(s, i).push(stmt_view(x)));
    }
}

pub struct Parser {
    tokens: Vec<Token>,
    current: usize,
}

impl Parser {
    pub closed spec fn toks(&self) -> Seq<Token> {
        self.tokens@
    }

    pub closed spec fn pos(&self) -> int {
        self.current as int
    }

    pub closed spec fn wf(&self) -> bool {
        tokens_ok(self.tokens@) && self.current < self.tokens.len()
    }

    /// A parser at the start of `tokens`, which end with end-of-input as the lexer leaves them.
    pub fn new(tokens: Vec<Token>) -> (r: Self)
        requires
            tokens_ok(tokens@),
        ensures
            r.wf(),
            r.toks() == tokens@,
            r.pos() == 0,
    {
        Parser { tokens, current: 0 }
    }

    pub fn parse(&mut self) -> (r: Result<Program, ParseError>)
        requires
            old(self).wf(),
        ensures
            match p_program(old(self).toks(), old(self).pos(), Seq::empty()) {
                Ok(fs) => r is Ok && functions_view(r->Ok_0.functions@) == fs,
                Err(e) => r == Err::<Program, ParseError>(e),
            },
    {
        let ghost t = self.tokens@;
        let ghost c0 = self.pos();
        let mut program = Program::new();
        assert(functions_view(program.functions@) =~= Seq::empty());
        while !self.is_at_end()
            invariant
                self.wf(),
                self.toks() == t,
                c0 == old(self).pos(),
                t == old(self).toks(),
                p_program(t, c0, Seq::empty()) == p_program(
                    t,
                    self.pos(),
                    functions_view(program.functions@),
                ),
            decreases t.len() - self.pos(),
        {
            let func = match self.parse_function() {
                Ok(f) => f,
                Err(e) => return Err(e),
            };
            let ghost before = program.functions@;
            program.add_function(func);
            assert(functions_view(program.functions@) =~= functions_view(before).push(
                function_view(func),
            ));
        }
        Ok(program)
    }

    fn parse_function(&mut self) -> (r: Result<Function, ParseError>)
        requires
            old(self).wf(),
        ensures
            final(self).wf(),
            final(self).toks() == old(self).toks(),
            match p_function(old(self).toks(), old(self).pos()) {
                Ok((v, j)) => r is Ok && function_view(r->Ok_0) == v && final(self).pos() == j,
                Err(e) => r == Err::<Function, ParseError>(e),
            },
            r is Ok ==> final(self).pos() > old(self).pos(),
    {
        match self.expect(TokenType::Func) {
            Ok(()) => {},
            Err(e) => return Err(e),
        }
        let name = match &self.tokens[self.current].typ {
            TokenType::Ident(s) => s.clone(),
            _ => return Err(self.error(ParseErrorKind::ExpectedFunctionName)),
        };
        self.advance();
        match self.expect(TokenType::LParen) {
            Ok(()) => {},
            Err(e) => return Err(e),
        }
        let params = match self.parse_param_list() {
            Ok(p) => p,
            Err(e) => return Err(e),
        };
        match self.expect(TokenType::RParen) {
            Ok(()) => {},
            Err(e) => return Err(e),
        }
        let body = match self.parse_block() {
            Ok(b) => b,
            Err(e) => return Err(e),
        };
        Ok(Function { name, params, body })
    }

    fn parse_param_list(&mut self) -> (r: Result<Vec<String>, ParseError>)
        requires
            old(self).wf(),
        ensures
            final(self).wf(),
            final(self).toks() == old(self).toks(),
            r is Ok ==> final(self).pos() >= old(self).pos(),
            match p_params(old(self).toks(), old(self).pos()) {
                Ok((v, j)) => r is Ok && names_view(r->Ok_0@) == v && final(self).pos() == j,
                Err(e) => r == Err::<Vec<String>, ParseError>(e),
            },
    {
        let ghost t = self.tokens@;
        let ghost c0 = self.pos();
        let mut params: Vec<String> = Vec::new();
        let first = match &self.tokens[self.current].typ {
            TokenType::Ident(name) => Some(name.clone()),
            _ => None,
        };
        if let Some(name) = first {
            params.push(name);
            self.advance();
            assert(names_view(params@) =~= seq![name@]);
            while self.check(&TokenType::Comma)
                invariant
                    self.wf(),
                    self.toks() == t,
                    c0 < self.pos(),
                    t == old(self).toks(),
                    c0 == old(self).pos(),
                    p_params(t, c0) == p_params_tail(t, self.pos(), names_view(params@)),
                decreases t.len() - self.pos(),
            {
                self.advance();
                let next = match &self.tokens[self.current].typ {
                    TokenType::Ident(name) => Some(name.clone()),
                    _ => None,
                };
                match next {
                    Some(name) => {
                        let ghost before = params@;
                        params.push(name);
                        self.advance();
                        assert(names_view(params@) =~= names_view(before).push(name@));
                    },
                    None => {
                        return Err(self.error(ParseErrorKind::ExpectedParameterName));
                    },
                }
            }
        }
        Ok(params)
    }

    fn parse_block(&mut self) -> (r: Result<Block, ParseError>)
        requires
            old(self).wf(),
        ensures
            final(self).wf(),
            final(self).toks() == old(self).toks(),
            block_outcome(r, p_block(old(self).toks(), old(self).pos()), final(self).pos()),
            r is Ok ==> final(self).pos() > old(self).pos(),
        decreases old(self).toks().len() - old(self).pos(), 13int,
    {
        let ghost t = self.tokens@;
        let ghost c0 = self.pos();
        match self.expect(TokenType::LBrace) {
            Ok(()) => {},
            Err(e) => return Err(e),
        }
        let mut block = Block::new();
        assert(stmts_view(block.statements@) =~= Seq::empty());
        while !self.check(&TokenType::RBrace) && !self.is_at_end()
            invariant
                self.wf(),
                self.toks() == t,
                c0 < self.pos(),
                t == old(self).toks(),
                c0 == old(self).pos(),
                check(t, c0, TokenType::LBrace),
                p_stmts(t, c0 + 1, Seq::empty()) == p_stmts(
                    t,
                    self.pos(),
                    stmts_view(block.statements@),
                ),
            decreases t.len() - self.pos(),
        {
            let ghost here = self.pos();
            let stmt = match self.parse_statement() {
                Ok(s) => s,
                Err(e) => {
                    assert(p_stmts(t, here, stmts_view(block.statements@)) == Err::<
                        (Seq<StatementV>, int),
                        ParseError,
                    >(e));
                    return Err(e);
                },
            };
            let ghost before = block.statements@;
            block.add_statement(stmt);
            proof {
                lemma_stmts_view_push(before, stmt, 0);
            }
        }
        assert(p_stmts(t, self.pos(), stmts_view(block.statements@)) == Ok::<(Seq<StatementV>, int), ParseError>((stmts_view(block.statements@), self.pos())));
        match self.expect(TokenType::RBrace) {
            Ok(()) => {},
            Err(e) => return Err(e),
        }
        Ok(block)
    }

    fn parse_statement(&mut self) -> (r: Result<Statement, ParseError>)
        requires
            old(self).wf(),
        ensures
            final(self).wf(),
            final(self).toks() == old(self).toks(),
            stmt_outcome(r, p_stmt(old(self).toks(), old(self).pos()), final(self).pos()),
            r is Ok ==> final(self).pos() > old(self).pos(),
        decreases old(self).toks().len() - old(self).pos(), 11int,
    {
        if self.check(&TokenType::Let) {
            self.advance();
            let name = match &self.tokens[self.current].typ {
                TokenType::Ident(s) => s.clone(),
                _ => return Err(self.error(ParseErrorKind::ExpectedVariableName)),
            };
            self.advance();
            match self.expect(TokenType::Assign) {
                Ok(()) => {},
                Err(e) => return Err(e),
            }
            let value = match self.parse_expr() {
                Ok(v) => v,
                Err(e) => return Err(e),
            };
            match self.expect(TokenType::Semicolon) {
                Ok(()) => {},
                Err(e) => return Err(e),
            }
            return Ok(Statement::VarDecl { name, value });
        }
        if self.check(&TokenType::If) {
            self.advance();
            let condition = match self.parse_expr() {
                Ok(v) => v,
                Err(e) => return Err(e),
            };
            let then_block = match self.parse_block() {
                Ok(b) => b,
                Err(e) => return Err(e),
            };
            let else_block = if self.check(&TokenType::Else) {
                self.advance();
                match self.parse_block() {
                    Ok(b) => Some(b),
                    Err(e) => return Err(e),
                }
            } else {
                None
            };
            return Ok(Statement::If { condition, then_block, else_block });
        }
        if self.check(&TokenType::While) {
            self.advance();
            let condition = match self.parse_expr() {
                Ok(v) => v,
                Err(e) => return Err(e),
            };
            let body = match self.parse_block() {
                Ok(b) => b,
                Err(e) => return Err(e),
            };
            return Ok(Statement::While { condition, body });
        }
        if self.check(&TokenType::Return) {
            self.advance();
            let value = match self.parse_expr() {
                Ok(v) => v,
                Err(e) => return Err(e),
            };
            match self.expect(TokenType::Semicolon) {
                Ok(()) => {},
                Err(e) => return Err(e),
            }
            return Ok(Statement::Return { value });
        }
        let target = match &self.tokens[self.current].typ {
            TokenType::Ident(name) => Some(name.clone()),
            _ => None,
        };
        if let Some(name) = target {
            self.advance();
            if self.check(&TokenType::Assign) {
                self.advance();
                let value = match self.parse_expr() {
                    Ok(v) => v,
                    Err(e) => return Err(e),
                };
                match self.expect(TokenType::Semicolon) {
                    Ok(()) => {},
                    Err(e) => return Err(e),
                }
                return Ok(Statement::Assignment { name, value });
            } else {
                self.current = self.current - 1;
            }
        }
        let expr = match self.parse_expr() {
            Ok(v) => v,
            Err(e) => return Err(e),
        };
        match self.expect(TokenType::Semicolon) {
            Ok(()) => {},
            Err(e) => return Err(e),
        }
        Ok(Statement::ExprStmt { expr })
    }

    fn parse_expr(&mut self) -> (r: Result<Expr, ParseError>)
        requires
            old(self).wf(),
        ensures
            final(self).wf(),
            final(self).toks() == old(self).toks(),
            expr_outcome(r, p_expr(old(self).toks(), old(self).pos()), final(self).pos()),
            r is Ok ==> final(self).pos() > old(self).pos(),
        decreases old(self).toks().len() - old(self).pos(), 9int,
    {
        self.parse_level(0)
    }

    /// A left-associative chain of operators of level `lvl` (0 is `||`, 5 is `* / %`);
    /// level 6 is a unary expression.
    fn parse_level(&mut self, lvl: u8) -> (r: Result<Expr, ParseError>)
        requires
            old(self).wf(),
            lvl <= 6,
        ensures
            final(self).wf(),
            final(self).toks() == old(self).toks(),
            expr_outcome(r, p_bin(old(self).toks(), old(self).pos(), lvl as int), final(self).pos()),
            r is Ok ==> final(self).pos() > old(self).pos(),
        decreases old(self).toks().len() - old(self).pos(), 8 - lvl,
    {
        let ghost t = self.tokens@;
        let ghost c0 = self.pos();
        if lvl == 6 {
            return self.parse_unary();
        }
        let mut left = match self.parse_level(lvl + 1) {
            Ok(e) => e,
            Err(e) => return Err(e),
        };
        loop
            invariant
                self.wf(),
                self.toks() == t,
                lvl < 6,
                c0 < self.pos(),
                t == old(self).toks(),
                c0 == old(self).pos(),
                p_bin(t, c0, lvl as int) == p_tail(t, self.pos(), lvl as int, expr_view(left)),
            decreases t.len() - self.pos(),
        {
            match self.binop_here(lvl) {
                None => {
                    return Ok(left);
                },
                Some(op) => {
                    self.advance();
                    let right = match self.parse_level(lvl + 1) {
                        Ok(e) => e,
                        Err(e) => return Err(e),
                    };
                    left = Expr::Binary { op, left: Box::new(left), right: Box::new(right) };
                },
            }
        }
    }

    fn parse_unary(&mut self) -> (r: Result<Expr, ParseError>)
        requires
            old(self).wf(),
        ensures
            final(self).wf(),
            final(self).toks() == old(self).toks(),
            expr_outcome(r, p_unary(old(self).toks(), old(self).pos()), final(self).pos()),
            r is Ok ==> final(self).pos() > old(self).pos(),
        decreases old(self).toks().len() - old(self).pos(), 1int,
    {
        let op = match self.tokens[self.current].typ {
            TokenType::Bang => Some(UnaryOp::Not),
            TokenType::Minus => Some(UnaryOp::Neg),
            _ => None,
        };
        match op {
            Some(op) => {
                self.advance();
                match self.parse_unary() {
                    Ok(operand) => Ok(Expr::Unary { op, operand: Box::new(operand) }),
                    Err(e) => Err(e),
                }
            },
            None => self.parse_primary(),
        }
    }

    fn parse_primary(&mut self) -> (r: Result<Expr, ParseError>)
        requires
            old(self).wf(),
        ensures
            final(self).wf(),
            final(self).toks() == old(self).toks(),
            expr_outcome(r, p_primary(old(self).toks(), old(self).pos()), final(self).pos()),
            r is Ok ==> final(self).pos() > old(self).pos(),
        decreases old(self).toks().len() - old(self).pos(), 0int,
    {
        match &self.tokens[self.current].typ {
            TokenType::Number(n) => {
                let n = *n;
                self.advance();
                Ok(Expr::Number(n))
            },
            TokenType::Ident(name) => {
                let name = name.clone();
                self.advance();
                if self.check(&TokenType::LParen) {
                    self.advance();
                    let args = match self.parse_arg_list() {
                        Ok(a) => a,
                        Err(e) => return Err(e),
                    };
                    match self.expect(TokenType::RParen) {
                        Ok(()) => {},
                        Err(e) => return Err(e),
                    }
                    Ok(Expr::Call { name, args })
                } else {
                    Ok(Expr::Variable(name))
                }
            },
            TokenType::LParen => {
                self.advance();
                let e = match self.parse_expr() {
                    Ok(e) => e,
                    Err(e) => return Err(e),
                };
                match self.expect(TokenType::RParen) {
                    Ok(()) => {},
                    Err(e) => return Err(e),
                }
                Ok(e)
            },
            _ => Err(self.error(ParseErrorKind::ExpectedExpression)),
        }
    }

    fn parse_arg_list(&mut self) -> (r: Result<Vec<Expr>, ParseError>)
        requires
            old(self).wf(),
        ensures
            final(self).wf(),
            final(self).toks() == old(self).toks(),
            args_outcome(r, p_args(old(self).toks(), old(self).pos()), final(self).pos()),
            r is Ok ==> final(self).pos() >= old(self).pos(),
        decreases old(self).toks().len() - old(self).pos(), 10int,
    {
        let ghost t = self.tokens@;
        let ghost c0 = self.pos();
        let mut args: Vec<Expr> = Vec::new();
        if !self.check(&TokenType::RParen) {
            let first = match self.parse_expr() {
                Ok(e) => e,
                Err(e) => return Err(e),
            };
            args.push(first);
            assert(exprs_view(args@) =~= seq![expr_view(first)]) by {
                assert(exprs_view_from(args@, 1) =~= Seq::empty());
            }
            while self.check(&TokenType::Comma)
                invariant
                    self.wf(),
                    self.toks() == t,
                    c0 < self.pos(),
                    t == old(self).toks(),
                    c0 == old(self).pos(),
                    p_args(t, c0) == p_args_tail(t, self.pos(), exprs_view(args@)),
                decreases t.len() - self.pos(),
            {
                self.advance();
                let e = match self.parse_expr() {
                    Ok(e) => e,
                    Err(e) => return Err(e),
                };
                let ghost before = args@;
                args.push(e);
                proof {
                    lemma_exprs_view_push(before, e, 0);
                }
            }
        }
        Ok(args)
    }

    /// The binary operator of level `lvl` at the current token, if there is one.
    fn binop_here(&self, lvl: u8) -> (r: Option<BinOp>)
        requires
            self.wf(),
        ensures
            r == binop_at(self.toks(), self.pos(), lvl as int),
    {
        match self.tokens[self.current].typ {
            TokenType::Or => if lvl == 0 { Some(BinOp::Or) } else { None },
            TokenType::And => if lvl == 1 { Some(BinOp::And) } else { None },
            TokenType::Eq => if lvl == 2 { Some(BinOp::Eq) } else { None },
            TokenType::Ne => if lvl == 2 { Some(BinOp::Ne) } else { None },
            TokenType::Lt => if lvl == 3 { Some(BinOp::Lt) } else { None },
            TokenType::Le => if lvl == 3 { Some(BinOp::Le) } else { None },
            TokenType::Gt => if lvl == 3 { Some(BinOp::Gt) } else { None },
            TokenType::Ge => if lvl == 3 { Some(BinOp::Ge) } else { None },
            TokenType::Plus => if lvl == 4 { Some(BinOp::Add) } else { None },
            TokenType::Minus => if lvl == 4 { Some(BinOp::Sub) } else { None },
            TokenType::Star => if lvl == 5 { Some(BinOp::Mul) } else { None },
            TokenType::Slash => if lvl == 5 { Some(BinOp::Div) } else { None },
            TokenType::Percent => if lvl == 5 { Some(BinOp::Mod) } else { None },
            _ => None,
        }
    }

    fn check(&self, typ: &TokenType) -> (r: bool)
        requires
            self.wf(),
        ensures
            r == check(self.toks(), self.pos(), *typ),
    {
        if self.is_at_end() {
            return false;
        }
        self.tokens[self.current].typ.tag() == typ.tag()
    }

    fn advance(&mut self)
        requires
            old(self).wf(),
        ensures
            final(self).wf(),
            final(self).toks() == old(self).toks(),
            final(self).pos() == if at_end(old(self).toks(), old(self).pos()) {
                old(self).pos()
            } else {
                old(self).pos() + 1
            },
    {
        if !self.is_at_end() {
            self.current = self.current + 1;
        }
    }

    fn is_at_end(&self) -> (r: bool)
        requires
            self.wf(),
        ensures
            r == at_end(self.toks(), self.pos()),
    {
        match self.tokens[self.current].typ {
            TokenType::Eof => true,
            _ => false,
        }
    }

    fn expect(&mut self, typ: TokenType) -> (r: Result<(), ParseError>)
        requires
            old(self).wf(),
        ensures
            final(self).wf(),
            final(self).toks() == old(self).toks(),
            match expect(old(self).toks(), old(self).pos(), typ) {
                Ok(j) => r is Ok && final(self).pos() == j,
                Err(e) => r == Err::<(), ParseError>(e) && final(self).pos() == old(self).pos(),
            },
    {
        if self.check(&typ) {
            self.advance();
            Ok(())
        } else {
            Err(self.error(ParseErrorKind::Expected(typ)))
        }
    }

    fn error(&self, kind: ParseErrorKind) -> (r: ParseError)
        requires
            self.wf(),
        ensures
            r == perr(self.toks(), self.pos(), kind),
    {
        let token = &self.tokens[self.current];
        ParseError { kind, line: token.line, column: token.column }
    }
}

} // verus!
