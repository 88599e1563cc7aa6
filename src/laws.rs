use vstd::prelude::*;
use crate::ast::{BinOp, Expr, ExprV, FunctionV, StatementV};
use crate::codegen::{Lowering, VarTable, boolean_value, lowering_of};
use crate::ast::Statement;
use crate::plan::{
    Op, PlanState, plan_args, plan_expr, plan_scoped, plan_stmt, plan_stmts, sp_declare, sp_jump_unless,
    sp_lookup, sp_new_block, sp_push, sp_value, straight_line,
};
use crate::semantic::{
    Scopes, SemanticErrorV, check_block, check_expr, check_program, check_stmt, check_unique,
    lemma_lookup, lookup, main_name, print_name,
};

verus! {

/// When no two functions before `i` share a name, none of them shares one with any later.
proof fn lemma_unique_names(fs: Seq<FunctionV>, i: int)
    requires
        0 <= i,
        check_unique(fs, i) is Ok,
    ensures
        forall|a: int, b: int| 0 <= a < b < fs.len() && i <= b ==> fs[a].name != fs[b].name,
    decreases fs.len() - i,
{
    if 0 <= i < fs.len() {
        lemma_unique_names(fs, i + 1);
        assert forall|a: int, b: int| 0 <= a < b < fs.len() && i <= b implies fs[a].name
            != fs[b].name by {
            if b == i {
                if fs[a].name == fs[b].name {
                    assert(exists|k: int| 0 <= k < i && #[trigger] fs[k].name == fs[i].name);
                }
            }
        }
    }
}

/// A program in which no function is named `main` is refused.
pub proof fn law_program_without_main_refused(fs: Seq<FunctionV>)
    requires
        forall|k: int| 0 <= k < fs.len() ==> #[trigger] fs[k].name != main_name(),
    ensures
        check_program(fs) is Err,
{
    lemma_lookup(fs, main_name(), 0);
}

/// A program whose `main` takes parameters is refused.
pub proof fn law_main_with_parameters_refused(fs: Seq<FunctionV>, k: int)
    requires
        0 <= k < fs.len(),
        fs[k].name == main_name(),
        fs[k].params.len() > 0,
    ensures
        check_program(fs) is Err,
{
    if check_unique(fs, 0) is Ok {
        lemma_unique_names(fs, 0);
        lemma_lookup(fs, main_name(), 0);
        match lookup(fs, main_name(), 0) {
            Some(j) => {
                if j != k {
                    if j < k {
                        assert(fs[j].name != fs[k].name);
                    } else {
                        assert(fs[k].name != fs[j].name);
                    }
                }
            },
            None => {},
        }
    }
}

/// A program in which two functions share a name is refused.
pub proof fn law_duplicate_function_refused(fs: Seq<FunctionV>, a: int, b: int)
    requires
        0 <= a < b < fs.len(),
        fs[a].name == fs[b].name,
    ensures
        check_program(fs) is Err,
{
    if check_unique(fs, 0) is Ok {
        lemma_unique_names(fs, 0);
    }
}

/// Calling a function that the program does not define (and that is not `print`) is refused.
pub proof fn law_undefined_function_refused(
    fs: Seq<FunctionV>,
    scopes: Scopes,
    name: Seq<char>,
    args: Seq<ExprV>,
)
    requires
        name != print_name(),
        forall|k: int| 0 <= k < fs.len() ==> #[trigger] fs[k].name != name,
    ensures
        check_expr(fs, scopes, ExprV::Call { name, args }) == Err::<(), SemanticErrorV>(
            SemanticErrorV::UndefinedFunction(name),
        ),
{
    lemma_lookup(fs, name, 0);
}

/// Calling the function named `name` with another number of arguments than it has parameters
/// is refused.
pub proof fn law_wrong_arity_refused(
    fs: Seq<FunctionV>,
    scopes: Scopes,
    name: Seq<char>,
    args: Seq<ExprV>,
    k: int,
)
    requires
        name != print_name(),
        0 <= k < fs.len(),
        fs[k].name == name,
        forall|j: int| 0 <= j < k ==> #[trigger] fs[j].name != name,
        args.len() != fs[k].params.len(),
    ensures
        check_expr(fs, scopes, ExprV::Call { name, args }) == Err::<(), SemanticErrorV>(
            SemanticErrorV::ArityMismatch {
                name,
                expected: fs[k].params.len() as int,
                got: args.len() as int,
            },
        ),
{
    lemma_lookup(fs, name, 0);
}

/// Declaring a name a second time in the same block is refused.
pub proof fn law_redeclaration_in_same_block_refused(
    fs: Seq<FunctionV>,
    scopes: Scopes,
    name: Seq<char>,
    value: ExprV,
)
    requires
        scopes.len() >= 1,
        scopes.last().contains(name),
        check_expr(fs, scopes, value) is Ok,
    ensures
        check_stmt(fs, scopes, StatementV::VarDecl { name, value }) == Err::<Scopes, SemanticErrorV>(
            SemanticErrorV::AlreadyDeclared(name),
        ),
{
}

/// Declaring again, inside a nested `if`, `else` or `while` block, a name that an enclosing
/// block declares is accepted, and the enclosing scopes are as they were afterwards.
pub proof fn law_shadowing_in_nested_block_accepted(
    fs: Seq<FunctionV>,
    scopes: Scopes,
    name: Seq<char>,
    value: ExprV,
    condition: ExprV,
)
    requires
        scopes.len() >= 1,
        check_expr(fs, scopes, condition) is Ok,
        check_expr(fs, scopes.push(Seq::empty()), value) is Ok,
    ensures
        check_stmt(
            fs,
            scopes,
            StatementV::If {
                condition,
                then_block: seq![StatementV::VarDecl { name, value }],
                else_block: Some(seq![StatementV::VarDecl { name, value }]),
            },
        ) == Ok::<Scopes, SemanticErrorV>(scopes),
        check_stmt(
            fs,
            scopes,
            StatementV::While { condition, body: seq![StatementV::VarDecl { name, value }] },
        ) == Ok::<Scopes, SemanticErrorV>(scopes),
{
    let inner = scopes.push(Seq::empty());
    let body = seq![StatementV::VarDecl { name, value }];
    assert(!inner.last().contains(name));
    let after = inner.update(inner.len() - 1, inner.last().push(name));
    assert(check_stmt(fs, inner, body[0]) == Ok::<Scopes, SemanticErrorV>(after));
    assert(check_block(fs, after, body, 1) == Ok::<Scopes, SemanticErrorV>(after));
    assert(check_block(fs, inner, body, 0) == Ok::<Scopes, SemanticErrorV>(after));
}

/// A binary expression is planned as its left operand's steps, then its right operand's, then
/// one step that applies `lowering_of(op)` to their two values. `&&` and `||` become that
/// one combining step, with no branch; a comparison or logical operator leaves exactly 0 or 1.
pub proof fn law_binary_plan(st: PlanState, op: BinOp, left: Expr, right: Expr)
    ensures
        plan_expr(st, Expr::Binary { op, left: Box::new(left), right: Box::new(right) }) == match plan_expr(
            st,
            left,
        ) {
            Err(e) => Err(e),
            Ok((s1, a)) => match plan_expr(s1, right) {
                Err(e) => Err(e),
                Ok((s2, b)) => sp_value(s2, Op::Binary { lowering: lowering_of(op), lhs: a, rhs: b }),
            },
        },
        op == BinOp::And ==> lowering_of(op) == Lowering::LogicAnd,
        op == BinOp::Or ==> lowering_of(op) == Lowering::LogicOr,
        !(lowering_of(op) is Arith) ==> forall|x: i64, y: i64|
            #[trigger] boolean_value(lowering_of(op), x, y) == 0 || boolean_value(lowering_of(op), x, y)
                == 1,
{
}

/// `b` continues `a` with steps that compute values or pass arguments (no block, branch or
/// declaration), and the declarations in force are those of `a`.
pub open spec fn extends_straight(a: PlanState, b: PlanState) -> bool {
    &&& a.ops.len() <= b.ops.len()
    &&& forall|k: int| 0 <= k < a.ops.len() ==> #[trigger] b.ops[k] == a.ops[k]
    &&& forall|k: int| a.ops.len() <= k < b.ops.len() ==> straight_line(#[trigger] b.ops[k])
    &&& b.names == a.names && b.ids == a.ids && b.next == a.next
}

proof fn lemma_extends_trans(a: PlanState, b: PlanState, c: PlanState)
    requires
        extends_straight(a, b),
        extends_straight(b, c),
    ensures
        extends_straight(a, c),
{
    assert forall|k: int| a.ops.len() <= k < c.ops.len() implies straight_line(#[trigger] c.ops[k]) by {
        if k < b.ops.len() {
            assert(c.ops[k] == b.ops[k]);
        }
    }
}

proof fn lemma_push_straight(a: PlanState, op: Op)
    requires
        straight_line(op),
    ensures
        extends_straight(a, sp_push(a, op)),
{
}

/// Planning an expression only appends straight-line steps: both operands of every operator,
/// `&&` and `||` included, are evaluated, and no branch is planned for them.
pub proof fn law_expression_plans_are_straight_line(st: PlanState, e: Expr)
    ensures
        plan_expr(st, e) is Ok ==> extends_straight(st, plan_expr(st, e)->Ok_0.0),
    decreases e, 0int,
{
    match e {
        Expr::Number(n) => {
            lemma_push_straight(st, Op::Iconst(n));
        },
        Expr::Variable(name) => {
            if let Some(var) = sp_lookup(st, name@) {
                lemma_push_straight(st, Op::UseVar(var));
            }
        },
        Expr::Binary { op, left, right } => {
            law_expression_plans_are_straight_line(st, *left);
            if let Ok((s1, l)) = plan_expr(st, *left) {
                law_expression_plans_are_straight_line(s1, *right);
                if let Ok((s2, r)) = plan_expr(s1, *right) {
                    let o = Op::Binary { lowering: lowering_of(op), lhs: l, rhs: r };
                    lemma_push_straight(s2, o);
                    lemma_extends_trans(st, s1, s2);
                    lemma_extends_trans(st, s2, sp_push(s2, o));
                }
            }
        },
        Expr::Unary { op, operand } => {
            law_expression_plans_are_straight_line(st, *operand);
            if let Ok((s1, v)) = plan_expr(st, *operand) {
                lemma_push_straight(s1, Op::Neg(v));
                lemma_push_straight(s1, Op::Not(v));
                lemma_extends_trans(st, s1, sp_push(s1, Op::Neg(v)));
                lemma_extends_trans(st, s1, sp_push(s1, Op::Not(v)));
            }
        },
        Expr::Call { name, args } => {
            assert(decreases_to!(e => args@));
            if name@ == print_name() && args@.len() == 1 {
                assert(decreases_to!(args@ => args@[0]));
                law_expression_plans_are_straight_line(st, args@[0]);
                if let Ok((s1, v)) = plan_expr(st, args@[0]) {
                    lemma_push_straight(s1, Op::CallPrint(v));
                    lemma_extends_trans(st, s1, sp_push(s1, Op::CallPrint(v)));
                }
            } else {
                lemma_args_straight(st, args@, 0);
                if let Ok(s1) = plan_args(st, args@, 0) {
                    let o = Op::Call { name, argc: args@.len() as usize };
                    lemma_push_straight(s1, o);
                    lemma_extends_trans(st, s1, sp_push(s1, o));
                }
            }
        },
    }
}

proof fn lemma_args_straight(st: PlanState, args: Seq<Expr>, i: int)
    ensures
        plan_args(st, args, i) is Ok ==> extends_straight(st, plan_args(st, args, i)->Ok_0),
    decreases args, args.len() - i,
{
    if 0 <= i < args.len() {
        law_expression_plans_are_straight_line(st, args[i]);
        if let Ok((s1, v)) = plan_expr(st, args[i]) {
            let s2 = sp_push(s1, Op::Arg(v));
            lemma_push_straight(s1, Op::Arg(v));
            lemma_extends_trans(st, s1, s2);
            lemma_args_straight(s2, args, i + 1);
            if plan_args(s2, args, i + 1) is Ok {
                lemma_extends_trans(st, s2, plan_args(s2, args, i + 1)->Ok_0);
            }
        }
    }
}

/// A block's declarations are in force inside it and forgotten after it: a table that was
/// marked on entry (`before`), declared on inside (`inside`) and brought back to the mark
/// (`after`) binds every name as it did on entry.
pub proof fn law_block_end_restores_outer_bindings(
    before: VarTable,
    inside: VarTable,
    after: VarTable,
)
    requires
        inside.depth() >= before.depth(),
        forall|n: Seq<char>, m: int|
            0 <= m <= before.depth() ==> #[trigger] inside.binding_at(n, m) == before.binding_at(n, m),
        forall|n: Seq<char>| #[trigger] after.binding(n) == inside.binding_at(n, before.depth() as int),
    ensures
        forall|n: Seq<char>| #[trigger] after.binding(n) == before.binding(n),
{
    assert forall|n: Seq<char>| #[trigger] after.binding(n) == before.binding(n) by {
        assert(inside.binding_at(n, before.depth() as int) == before.binding_at(n, before.depth() as int));
    }
}

/// `b` keeps the declarations of `a` in force, perhaps with more after them.
pub open spec fn keeps(a: PlanState, b: PlanState) -> bool {
    &&& a.names.len() <= b.names.len()
    &&& b.names.len() == b.ids.len()
    &&& b.names.take(a.names.len() as int) == a.names
    &&& b.ids.take(a.ids.len() as int) == a.ids
}

proof fn lemma_keeps_trans(a: PlanState, b: PlanState, c: PlanState)
    requires
        a.names.len() == a.ids.len(),
        keeps(a, b),
        keeps(b, c),
    ensures
        keeps(a, c),
{
    assert(c.names.take(a.names.len() as int) =~= c.names.take(b.names.len() as int).take(a.names.len() as int));
    assert(c.ids.take(a.ids.len() as int) =~= c.ids.take(b.ids.len() as int).take(a.ids.len() as int));
}

proof fn lemma_keeps_same(a: PlanState, b: PlanState)
    requires
        a.names.len() == a.ids.len(),
        b.names == a.names,
        b.ids == a.ids,
    ensures
        keeps(a, b),
{
    assert(b.names.take(a.names.len() as int) =~= a.names);
    assert(b.ids.take(a.ids.len() as int) =~= a.ids);
}

proof fn lemma_expr_same_names(st: PlanState, e: Expr)
    ensures
        plan_expr(st, e) is Ok ==> plan_expr(st, e)->Ok_0.0.names == st.names && plan_expr(st, e)->Ok_0.0.ids
            == st.ids,
{
    law_expression_plans_are_straight_line(st, e);
}

proof fn lemma_stmt_keeps(st: PlanState, s: Statement)
    requires
        st.names.len() == st.ids.len(),
    ensures
        plan_stmt(st, s) is Ok ==> keeps(st, plan_stmt(st, s)->Ok_0.0),
    decreases s, 0int,
{
    match s {
        Statement::VarDecl { name, value } => {
            lemma_expr_same_names(st, value);
            if let Ok((s1, v)) = plan_expr(st, value) {
                if let Ok(s2) = sp_declare(s1, name@, Some(v), 0) {
                    assert(s2.names.take(st.names.len() as int) =~= st.names);
                    assert(s2.ids.take(st.ids.len() as int) =~= st.ids);
                }
            }
        },
        Statement::Assignment { name, value } => {
            lemma_expr_same_names(st, value);
            if let Ok((s1, v)) = plan_expr(st, value) {
                if let Some(var) = sp_lookup(s1, name@) {
                    lemma_keeps_same(st, sp_push(s1, Op::DefVar { var, value: v }));
                }
            }
        },
        Statement::If { condition, then_block, else_block } => {
            lemma_expr_same_names(st, condition);
            if let Ok((s1, c)) = plan_expr(st, condition) {
                if let Ok((s2, tb)) = sp_new_block(s1) {
                    if let Ok((s3, eb)) = sp_new_block(s2) {
                        if let Ok((s4, mb)) = sp_new_block(s3) {
                            let s4b = sp_push(
                                sp_push(sp_push(s4, Op::Brif { cond: c, then_block: tb, else_block: eb }), Op::SwitchTo(tb)),
                                Op::Seal(tb),
                            );
                            law_block_plan_restores_declarations(s4b, then_block.statements@);
                            if let Ok((s5, rt)) = plan_scoped(s4b, then_block.statements@) {
                                let s6 = sp_push(sp_push(sp_jump_unless(s5, rt, mb), Op::SwitchTo(eb)), Op::Seal(eb));
                                match else_block {
                                    None => {
                                        lemma_keeps_same(st, sp_push(sp_push(sp_push(s6, Op::Jump(mb)), Op::SwitchTo(mb)), Op::Seal(mb)));
                                    },
                                    Some(b) => {
                                        law_block_plan_restores_declarations(s6, b.statements@);
                                        if let Ok((s7, re)) = plan_scoped(s6, b.statements@) {
                                            lemma_keeps_same(st, sp_push(sp_push(sp_jump_unless(s7, re, mb), Op::SwitchTo(mb)), Op::Seal(mb)));
                                        }
                                    },
                                }
                            }
                        }
                    }
                }
            }
        },
        Statement::While { condition, body } => {
            if let Ok((s1, hb)) = sp_new_block(st) {
                if let Ok((s2, bb)) = sp_new_block(s1) {
                    if let Ok((s3, xb)) = sp_new_block(s2) {
                        let s3b = sp_push(sp_push(s3, Op::Jump(hb)), Op::SwitchTo(hb));
                        lemma_expr_same_names(s3b, condition);
                        if let Ok((s4, c)) = plan_expr(s3b, condition) {
                            let s4b = sp_push(
                                sp_push(sp_push(s4, Op::Brif { cond: c, then_block: bb, else_block: xb }), Op::SwitchTo(bb)),
                                Op::Seal(bb),
                            );
                            law_block_plan_restores_declarations(s4b, body.statements@);
                            if let Ok((s5, r)) = plan_scoped(s4b, body.statements@) {
                                lemma_keeps_same(st, sp_push(sp_push(sp_push(sp_jump_unless(s5, r, hb), Op::Seal(hb)), Op::SwitchTo(xb)), Op::Seal(xb)));
                            }
                        }
                    }
                }
            }
        },
        Statement::Return { value } => {
            lemma_expr_same_names(st, value);
            if let Ok((s1, v)) = plan_expr(st, value) {
                lemma_keeps_same(st, sp_push(s1, Op::Return(v)));
            }
        },
        Statement::ExprStmt { expr } => {
            lemma_expr_same_names(st, expr);
            if let Ok((s1, v)) = plan_expr(st, expr) {
                lemma_keeps_same(st, s1);
            }
        },
    }
}

proof fn lemma_stmts_keeps(st: PlanState, ss: Seq<Statement>, i: int)
    requires
        st.names.len() == st.ids.len(),
    ensures
        plan_stmts(st, ss, i) is Ok ==> keeps(st, plan_stmts(st, ss, i)->Ok_0.0),
    decreases ss, ss.len() - i,
{
    if 0 <= i < ss.len() {
        lemma_stmt_keeps(st, ss[i]);
        if let Ok((s1, r)) = plan_stmt(st, ss[i]) {
            if !r {
                lemma_stmts_keeps(s1, ss, i + 1);
                if plan_stmts(s1, ss, i + 1) is Ok {
                    lemma_keeps_trans(st, s1, plan_stmts(s1, ss, i + 1)->Ok_0.0);
                }
            }
        }
    } else {
        lemma_keeps_same(st, st);
    }
}

/// The declarations of a block are forgotten after it: the names in force afterwards, and the
/// variables they read, are those in force before it. Inside the block, a declaration
/// shadows an outer one of the same name, since a name reads its latest declaration.
pub proof fn law_block_plan_restores_declarations(st: PlanState, ss: Seq<Statement>)
    ensures
        st.names.len() == st.ids.len() && plan_scoped(st, ss) is Ok ==> plan_scoped(st, ss)->Ok_0.0.names
            == st.names && plan_scoped(st, ss)->Ok_0.0.ids == st.ids,
    decreases ss, ss.len() + 1,
{
    if st.names.len() == st.ids.len() {
        lemma_stmts_keeps(st, ss, 0);
    }
}

} // verus!
