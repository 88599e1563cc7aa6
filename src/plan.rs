use vstd::prelude::*;
use vstd::string::StringExecFns;
use crate::ast::{
    Block, Expr, Function, FunctionV, Statement, StatementV, UnaryOp, expr_view, exprs_view,
    function_view, stmt_view, stmts_view,
};
use crate::codegen::{Lowering, VarTable, binding_of, lower_binop, lowering_of};
use crate::semantic::{
    Scopes, check_args, check_block, check_expr, check_function, check_params, check_stmt,
    declared, lemma_exprs_view_index, lemma_stmts_view_index, print_name,
};

verus! {

/// One step of building a function in an SSA backend. Blocks, values and variables are
/// numbered in the order the steps create them: the `k`-th `CreateBlock` makes block `k`,
/// the `k`-th step that yields a value makes value `k`, the `k`-th declaration makes
/// variable `k`.
#[derive(Debug, Clone)]
pub enum Op {
    CreateBlock,
    /// Gives block `0` one parameter per function parameter.
    AppendParams(usize),
    SwitchTo(usize),
    Seal(usize),
    /// Declares a variable and defines it from the entry block's parameter of this index.
    DeclareParam { var: usize, index: usize },
    /// Declares a variable and defines it from a value.
    DeclareVar { var: usize, value: usize },
    DefVar { var: usize, value: usize },
    UseVar(usize),
    Iconst(i64),
    Binary { lowering: Lowering, lhs: usize, rhs: usize },
    Neg(usize),
    Not(usize),
    CallPrint(usize),
    /// Passes a value as the next argument of the innermost call still being planned.
    Arg(usize),
    /// Calls `name` with the last `argc` arguments passed, which it consumes.
    Call { name: String, argc: usize },
    Brif { cond: usize, then_block: usize, else_block: usize },
    Jump(usize),
    Return(usize),
}

/// Why a function could not be planned.
#[derive(Debug, Clone, PartialEq)]
pub enum PlanError {
    UndefinedVariable(String),
    /// More blocks, values or variables than a `usize` counts.
    TooLarge,
}

pub open spec fn yields_value(op: Op) -> bool {
    match op {
        Op::UseVar(_) | Op::Iconst(_) | Op::Binary { .. } | Op::Neg(_) | Op::Not(_)
        | Op::CallPrint(_) | Op::Call { .. } => true,
        _ => false,
    }
}

pub open spec fn declares(op: Op) -> bool {
    op is DeclareParam || op is DeclareVar
}

/// The number of values that the steps `s` make.
pub open spec fn n_values(s: Seq<Op>) -> nat
    decreases s.len(),
{
    if s.len() == 0 {
        0
    } else {
        n_values(s.drop_last()) + if yields_value(s.last()) { 1nat } else { 0 }
    }
}

pub open spec fn n_blocks(s: Seq<Op>) -> nat
    decreases s.len(),
{
    if s.len() == 0 {
        0
    } else {
        n_blocks(s.drop_last()) + if s.last() is CreateBlock { 1nat } else { 0 }
    }
}

pub open spec fn n_vars(s: Seq<Op>) -> nat
    decreases s.len(),
{
    if s.len() == 0 {
        0
    } else {
        n_vars(s.drop_last()) + if declares(s.last()) { 1nat } else { 0 }
    }
}

/// True when the current block takes instructions: it was switched to, and no terminator
/// (`Brif`, `Jump`, `Return`) has ended it since.
pub open spec fn is_open(s: Seq<Op>) -> bool
    decreases s.len(),
{
    if s.len() == 0 {
        false
    } else {
        match s.last() {
            Op::SwitchTo(_) => true,
            Op::Brif { .. } | Op::Jump(_) | Op::Return(_) => false,
            Op::CreateBlock | Op::AppendParams(_) | Op::Seal(_) => is_open(s.drop_last()),
            _ => true,
        }
    }
}

/// `op` may follow the steps `s`: the block it goes into is open; it uses only values,
/// variables and blocks made before it; a declaration makes the next variable; and a
/// switch leaves only a block that ended in a terminator.
pub open spec fn op_ok(op: Op, s: Seq<Op>) -> bool {
    let nv = n_values(s);
    let nb = n_blocks(s);
    let nx = n_vars(s);
    match op {
        Op::CreateBlock => true,
        Op::AppendParams(b) => b < nb,
        Op::SwitchTo(b) => b < nb && !is_open(s),
        Op::Seal(b) => b < nb,
        Op::DeclareParam { var, index } => is_open(s) && var == nx,
        Op::DeclareVar { var, value } => is_open(s) && var == nx && value < nv,
        Op::DefVar { var, value } => is_open(s) && var < nx && value < nv,
        Op::UseVar(var) => is_open(s) && var < nx,
        Op::Iconst(_) => is_open(s),
        Op::Binary { lowering, lhs, rhs } => is_open(s) && lhs < nv && rhs < nv,
        Op::Neg(a) => is_open(s) && a < nv,
        Op::Not(a) => is_open(s) && a < nv,
        Op::CallPrint(a) => is_open(s) && a < nv,
        Op::Arg(a) => is_open(s) && a < nv,
        Op::Call { name, argc } => is_open(s),
        Op::Brif { cond, then_block, else_block } => is_open(s) && cond < nv && then_block < nb
            && else_block < nb,
        Op::Jump(b) => is_open(s) && b < nb,
        Op::Return(v) => is_open(s) && v < nv,
    }
}

/// Every step of `s` may follow the ones before it.
pub open spec fn well_formed(s: Seq<Op>) -> bool
    decreases s.len(),
{
    s.len() == 0 || (well_formed(s.drop_last()) && op_ok(s.last(), s.drop_last()))
}

/// True of the steps an expression plans: they compute values, or pass one to a call.
pub open spec fn straight_line(op: Op) -> bool {
    yields_value(op) || op is Arg
}

/// What planning has produced so far: the steps, and the declarations in force (names and
/// variable numbers, oldest first) with the number the next declaration gets.
pub struct PlanState {
    pub ops: Seq<Op>,
    pub names: Seq<Seq<char>>,
    pub ids: Seq<usize>,
    pub next: nat,
}

pub open spec fn sp_push(st: PlanState, op: Op) -> PlanState {
    PlanState { ops: st.ops.push(op), ..st }
}

/// Appends a step that yields a value; the value is numbered by how many came before.
pub open spec fn sp_value(st: PlanState, op: Op) -> Result<(PlanState, usize), PlanError> {
    if n_values(st.ops) >= usize::MAX {
        Err(PlanError::TooLarge)
    } else {
        Ok((sp_push(st, op), n_values(st.ops) as usize))
    }
}

pub open spec fn sp_new_block(st: PlanState) -> Result<(PlanState, usize), PlanError> {
    if n_blocks(st.ops) >= usize::MAX {
        Err(PlanError::TooLarge)
    } else {
        Ok((sp_push(st, Op::CreateBlock), n_blocks(st.ops) as usize))
    }
}

/// Declares `name` as the next variable, defined from `value`, or else from the entry
/// block's parameter `index`.
pub open spec fn sp_declare(st: PlanState, name: Seq<char>, value: Option<usize>, index: usize) -> Result<
    PlanState,
    PlanError,
> {
    if st.next >= usize::MAX {
        Err(PlanError::TooLarge)
    } else {
        let var = st.next as usize;
        let op = match value {
            Some(v) => Op::DeclareVar { var, value: v },
            None => Op::DeclareParam { var, index },
        };
        Ok(PlanState { ops: st.ops.push(op), names: st.names.push(name), ids: st.ids.push(var), next: st.next + 1 })
    }
}

/// The variable that `name` reads: that of its latest declaration in force.
pub open spec fn sp_lookup(st: PlanState, name: Seq<char>) -> Option<usize> {
    binding_of(st.names, st.ids, name, st.names.len() as int)
}

/// The steps of an expression: its operands' steps, left to right, then its own step, whose
/// value is the expression's. `&&` and `||` plan both operands and no branch.
pub open spec fn plan_expr(st: PlanState, e: Expr) -> Result<(PlanState, usize), PlanError>
    decreases e, 0int,
{
    match e {
        Expr::Number(n) => sp_value(st, Op::Iconst(n)),
        Expr::Variable(name) => match sp_lookup(st, name@) {
            Some(var) => sp_value(st, Op::UseVar(var)),
            None => Err(PlanError::UndefinedVariable(name)),
        },
        Expr::Binary { op, left, right } => match plan_expr(st, *left) {
            Err(err) => Err(err),
            Ok((s1, l)) => match plan_expr(s1, *right) {
                Err(err) => Err(err),
                Ok((s2, r)) => sp_value(s2, Op::Binary { lowering: lowering_of(op), lhs: l, rhs: r }),
            },
        },
        Expr::Unary { op, operand } => match plan_expr(st, *operand) {
            Err(err) => Err(err),
            Ok((s1, v)) => match op {
                UnaryOp::Neg => sp_value(s1, Op::Neg(v)),
                UnaryOp::Not => sp_value(s1, Op::Not(v)),
            },
        },
        Expr::Call { name, args } => if name@ == print_name() && args@.len() == 1 {
            match plan_expr(st, args@[0]) {
                Err(err) => Err(err),
                Ok((s1, v)) => sp_value(s1, Op::CallPrint(v)),
            }
        } else {
            match plan_args(st, args@, 0) {
                Err(err) => Err(err),
                Ok(s1) => sp_value(s1, Op::Call { name, argc: args@.len() as usize }),
            }
        },
    }
}

/// The steps of the arguments `args[i..]`, each followed by `Arg` of its value.
pub open spec fn plan_args(st: PlanState, args: Seq<Expr>, i: int) -> Result<PlanState, PlanError>
    decreases args, args.len() - i,
{
    if 0 <= i < args.len() {
        match plan_expr(st, args[i]) {
            Err(err) => Err(err),
            Ok((s1, v)) => plan_args(sp_push(s1, Op::Arg(v)), args, i + 1),
        }
    } else {
        Ok(st)
    }
}

/// Forgets the declarations made after the first `m`.
pub open spec fn sp_restore(st: PlanState, m: int) -> PlanState {
    PlanState { names: st.names.take(m), ids: st.ids.take(m), ..st }
}

/// A jump to `b`, unless the block already ended with `return`.
pub open spec fn sp_jump_unless(st: PlanState, returned: bool, b: usize) -> PlanState {
    if returned {
        st
    } else {
        sp_push(st, Op::Jump(b))
    }
}

/// The steps of a statement, and whether it is a `return`.
/// `if`: the condition; blocks then, else and merge; a branch on the condition; each arm in
/// its own sealed block and scope, jumping to merge unless it returned; then merge.
/// `while`: blocks header, body and exit; a jump to the header; the condition there and a
/// branch; the body in its own sealed block and scope, jumping back unless it returned; the
/// header is sealed only after that back edge; then exit.
pub open spec fn plan_stmt(st: PlanState, s: Statement) -> Result<(PlanState, bool), PlanError>
    decreases s, 0int,
{
    match s {
        Statement::VarDecl { name, value } => match plan_expr(st, value) {
            Err(err) => Err(err),
            Ok((s1, v)) => match sp_declare(s1, name@, Some(v), 0) {
                Err(err) => Err(err),
                Ok(s2) => Ok((s2, false)),
            },
        },
        Statement::Assignment { name, value } => match plan_expr(st, value) {
            Err(err) => Err(err),
            Ok((s1, v)) => match sp_lookup(s1, name@) {
                Some(var) => Ok((sp_push(s1, Op::DefVar { var, value: v }), false)),
                None => Err(PlanError::UndefinedVariable(name)),
            },
        },
        Statement::If { condition, then_block, else_block } => match plan_expr(st, condition) {
            Err(err) => Err(err),
            Ok((s1, c)) => match sp_new_block(s1) {
                Err(err) => Err(err),
                Ok((s2, tb)) => match sp_new_block(s2) {
                    Err(err) => Err(err),
                    Ok((s3, eb)) => match sp_new_block(s3) {
                        Err(err) => Err(err),
                        Ok((s4, mb)) => match plan_scoped(
                            sp_push(
                                sp_push(
                                    sp_push(s4, Op::Brif { cond: c, then_block: tb, else_block: eb }),
                                    Op::SwitchTo(tb),
                                ),
                                Op::Seal(tb),
                            ),
                            then_block.statements@,
                        ) {
                            Err(err) => Err(err),
                            Ok((s5, rt)) => {
                                let s6 = sp_push(
                                    sp_push(sp_jump_unless(s5, rt, mb), Op::SwitchTo(eb)),
                                    Op::Seal(eb),
                                );
                                match else_block {
                                    None => Ok((sp_push(sp_push(sp_push(s6, Op::Jump(mb)), Op::SwitchTo(mb)), Op::Seal(mb)), false)),
                                    Some(b) => match plan_scoped(s6, b.statements@) {
                                        Err(err) => Err(err),
                                        Ok((s7, re)) => Ok(
                                            (
                                                sp_push(
                                                    sp_push(sp_jump_unless(s7, re, mb), Op::SwitchTo(mb)),
                                                    Op::Seal(mb),
                                                ),
                                                false,
                                            ),
                                        ),
                                    },
                                }
                            },
                        },
                    },
                },
            },
        },
        Statement::While { condition, body } => match sp_new_block(st) {
            Err(err) => Err(err),
            Ok((s1, hb)) => match sp_new_block(s1) {
                Err(err) => Err(err),
                Ok((s2, bb)) => match sp_new_block(s2) {
                    Err(err) => Err(err),
                    Ok((s3, xb)) => match plan_expr(
                        sp_push(sp_push(s3, Op::Jump(hb)), Op::SwitchTo(hb)),
                        condition,
                    ) {
                        Err(err) => Err(err),
                        Ok((s4, c)) => match plan_scoped(
                            sp_push(
                                sp_push(
                                    sp_push(s4, Op::Brif { cond: c, then_block: bb, else_block: xb }),
                                    Op::SwitchTo(bb),
                                ),
                                Op::Seal(bb),
                            ),
                            body.statements@,
                        ) {
                            Err(err) => Err(err),
                            Ok((s5, r)) => Ok(
                                (
                                    sp_push(
                                        sp_push(sp_push(sp_jump_unless(s5, r, hb), Op::Seal(hb)), Op::SwitchTo(xb)),
                                        Op::Seal(xb),
                                    ),
                                    false,
                                ),
                            ),
                        },
                    },
                },
            },
        },
        Statement::Return { value } => match plan_expr(st, value) {
            Err(err) => Err(err),
            Ok((s1, v)) => Ok((sp_push(s1, Op::Return(v)), true)),
        },
        Statement::ExprStmt { expr } => match plan_expr(st, expr) {
            Err(err) => Err(err),
            Ok((s1, _)) => Ok((s1, false)),
        },
    }
}

/// The steps of a block in a scope of its own: its declarations are forgotten after it.
pub open spec fn plan_scoped(st: PlanState, ss: Seq<Statement>) -> Result<(PlanState, bool), PlanError>
    decreases ss, ss.len() + 1,
{
    match plan_stmts(st, ss, 0) {
        Err(err) => Err(err),
        Ok((s1, r)) => Ok((sp_restore(s1, st.names.len() as int), r)),
    }
}

/// The steps of `ss[i..]`, stopping after the first `return`.
pub open spec fn plan_stmts(st: PlanState, ss: Seq<Statement>, i: int) -> Result<(PlanState, bool), PlanError>
    decreases ss, ss.len() - i,
{
    if 0 <= i < ss.len() {
        match plan_stmt(st, ss[i]) {
            Err(err) => Err(err),
            Ok((s1, true)) => Ok((s1, true)),
            Ok((s1, false)) => plan_stmts(s1, ss, i + 1),
        }
    } else {
        Ok((st, false))
    }
}

/// Declares the parameters `ps[i..]`, parameter `k` from the entry block's parameter `k`.
pub open spec fn plan_params(st: PlanState, ps: Seq<String>, i: int) -> Result<PlanState, PlanError>
    decreases ps.len() - i,
{
    if 0 <= i < ps.len() {
        match sp_declare(st, ps[i]@, None, i as usize) {
            Err(err) => Err(err),
            Ok(s1) => plan_params(s1, ps, i + 1),
        }
    } else {
        Ok(st)
    }
}

/// The steps of a function: the entry block 0 with the function's parameters, switched to
/// and sealed; the parameters; the body; and `return 0` if the body can end without one.
pub open spec fn plan_fn(f: Function) -> Result<Seq<Op>, PlanError> {
    let s0 = PlanState { ops: Seq::empty(), names: Seq::empty(), ids: Seq::empty(), next: 0 };
    match sp_new_block(s0) {
        Err(err) => Err(err),
        Ok((s1, entry)) => match plan_params(
            sp_push(sp_push(sp_push(s1, Op::AppendParams(entry)), Op::SwitchTo(entry)), Op::Seal(entry)),
            f.params@,
            0,
        ) {
            Err(err) => Err(err),
            Ok(s2) => plan_body(s2, f),
        },
    }
}

/// The steps of a function's body after its parameters, ending it with `return 0` if it can
/// end without a `return`.
pub open spec fn plan_body(st: PlanState, f: Function) -> Result<Seq<Op>, PlanError> {
    match plan_scoped(st, f.body.statements@) {
        Err(err) => Err(err),
        Ok((s3, true)) => Ok(s3.ops),
        Ok((s3, false)) => match sp_value(s3, Op::Iconst(0)) {
            Err(err) => Err(err),
            Ok((s4, z)) => Ok(sp_push(s4, Op::Return(z)).ops),
        },
    }
}

/// Every name that the scopes declare has a variable in the table.
pub open spec fn covers(sc: Scopes, t: VarTable) -> bool {
    forall|n: Seq<char>| declared(sc, n) ==> (#[trigger] t.binding(n)) is Some
}

proof fn lemma_covers_push(sc: Scopes, t: VarTable)
    requires
        covers(sc, t),
    ensures
        covers(sc.push(Seq::empty()), t),
{
    assert forall|n: Seq<char>| declared(sc.push(Seq::empty()), n) implies (#[trigger] t.binding(n)) is Some by {
        let i = choose|i: int| 0 <= i < sc.push(Seq::empty()).len() && #[trigger] sc.push(Seq::empty())[i].contains(n);
        if i < sc.len() {
            assert(sc[i].contains(n));
        }
    }
}

proof fn lemma_covers_declare(sc: Scopes, old_t: VarTable, t: VarTable, name: Seq<char>)
    requires
        sc.len() >= 1,
        covers(sc, old_t),
        t.binding(name) is Some,
        forall|n: Seq<char>| n != name ==> #[trigger] t.binding(n) == old_t.binding(n),
    ensures
        covers(sc.update(sc.len() - 1, sc.last().push(name)), t),
{
    let sc2 = sc.update(sc.len() - 1, sc.last().push(name));
    assert forall|n: Seq<char>| declared(sc2, n) implies (#[trigger] t.binding(n)) is Some by {
        if n != name {
            let i = choose|i: int| 0 <= i < sc2.len() && #[trigger] sc2[i].contains(n);
            if i == sc.len() - 1 {
                let j = choose|j: int| 0 <= j < sc2[i].len() && sc2[i][j] == n;
                assert(sc.last()[j] == n);
                assert(sc[i].contains(n));
            } else {
                assert(sc[i].contains(n));
            }
            assert(old_t.binding(n) is Some);
        }
    }
}

proof fn lemma_check_stmt_len(fs: Seq<FunctionV>, sc: Scopes, s: StatementV)
    requires
        sc.len() >= 1,
    ensures
        check_stmt(fs, sc, s) is Ok ==> check_stmt(fs, sc, s)->Ok_0.len() == sc.len(),
{
}

/// The names that `check_params` gathers are those already gathered and the parameters left.
proof fn lemma_params_scope(ps: Seq<Seq<char>>, i: int, acc: Seq<Seq<char>>)
    requires
        0 <= i,
    ensures
        check_params(ps, i, acc) is Ok ==> forall|n: Seq<char>|
            #[trigger] check_params(ps, i, acc)->Ok_0.contains(n) ==> acc.contains(n) || exists|k: int|
                i <= k < ps.len() && ps[k] == n,
    decreases ps.len() - i,
{
    if 0 <= i < ps.len() && !acc.contains(ps[i]) {
        lemma_params_scope(ps, i + 1, acc.push(ps[i]));
        if check_params(ps, i, acc) is Ok {
            assert forall|n: Seq<char>| #[trigger] check_params(ps, i, acc)->Ok_0.contains(n) implies acc.contains(n)
                || exists|k: int| i <= k < ps.len() && ps[k] == n by {
                if acc.push(ps[i]).contains(n) && !acc.contains(n) {
                    let j = choose|j: int| 0 <= j < acc.push(ps[i]).len() && acc.push(ps[i])[j] == n;
                    if j < acc.len() {
                        assert(acc[j] == n);
                    }
                }
            }
        }
    }
}

/// Builds the steps of one function.
pub struct Planner {
    ops: Vec<Op>,
    values: usize,
    blocks: usize,
    vars: VarTable,
}

impl Planner {
    pub closed spec fn steps(&self) -> Seq<Op> {
        self.ops@
    }

    pub closed spec fn state(&self) -> PlanState {
        PlanState {
            ops: self.ops@,
            names: self.vars.names_view(),
            ids: self.vars.ids_view(),
            next: self.vars.next_id(),
        }
    }

    pub closed spec fn inv(&self) -> bool {
        &&& well_formed(self.ops@)
        &&& self.values == n_values(self.ops@)
        &&& self.blocks == n_blocks(self.ops@)
        &&& self.vars.wf()
        &&& self.vars.next_id() == n_vars(self.ops@)
    }

    fn emit(&mut self, op: Op)
        requires
            old(self).inv(),
            op_ok(op, old(self).steps()),
            !yields_value(op),
            !(op is CreateBlock),
            !declares(op),
        ensures
            final(self).inv(),
            final(self).steps() == old(self).steps().push(op),
            final(self).vars == old(self).vars,
            final(self).state() == sp_push(old(self).state(), op),
            n_values(final(self).steps()) == n_values(old(self).steps()),
            n_blocks(final(self).steps()) == n_blocks(old(self).steps()),
            n_vars(final(self).steps()) == n_vars(old(self).steps()),
            is_open(final(self).steps()) == match op {
                Op::SwitchTo(_) => true,
                Op::Brif { .. } | Op::Jump(_) | Op::Return(_) => false,
                Op::AppendParams(_) | Op::Seal(_) => is_open(old(self).steps()),
                _ => true,
            },
    {
        let ghost s = self.ops@;
        self.ops.push(op);
        assert(self.ops@.drop_last() =~= s);
    }

    /// Appends a step that yields a value and returns that value's number.
    fn emit_value(&mut self, op: Op) -> (r: Result<usize, PlanError>)
        requires
            old(self).inv(),
            op_ok(op, old(self).steps()),
            yields_value(op),
        ensures
            final(self).inv(),
            final(self).vars == old(self).vars,
            match sp_value(old(self).state(), op) {
                Ok((st, v)) => r == Ok::<usize, PlanError>(v) && final(self).state() == st,
                Err(e) => r == Err::<usize, PlanError>(e) && final(self).state() == old(self).state(),
            },
            r is Ok ==> final(self).steps() == old(self).steps().push(op) && r->Ok_0 == n_values(
                old(self).steps(),
            ),
            r is Ok ==> is_open(final(self).steps()),
            n_values(final(self).steps()) == n_values(old(self).steps()) + if r is Ok { 1nat } else { 0 },
            n_blocks(final(self).steps()) == n_blocks(old(self).steps()),
            n_vars(final(self).steps()) == n_vars(old(self).steps()),
            r is Err ==> final(self).steps() == old(self).steps() && r == Err::<usize, PlanError>(PlanError::TooLarge),
    {
        if self.values == usize::MAX {
            return Err(PlanError::TooLarge);
        }
        let ghost s = self.ops@;
        let v = self.values;
        self.ops.push(op);
        self.values = self.values + 1;
        assert(self.ops@.drop_last() =~= s);
        Ok(v)
    }

    fn create_block(&mut self) -> (r: Result<usize, PlanError>)
        requires
            old(self).inv(),
        ensures
            final(self).inv(),
            match sp_new_block(old(self).state()) {
                Ok((st, b)) => r == Ok::<usize, PlanError>(b) && final(self).state() == st,
                Err(e) => r == Err::<usize, PlanError>(e) && final(self).state() == old(self).state(),
            },
            final(self).vars == old(self).vars,
            r is Ok ==> final(self).steps() == old(self).steps().push(Op::CreateBlock) && r->Ok_0
                == n_blocks(old(self).steps()),
            is_open(final(self).steps()) == is_open(old(self).steps()),
            n_values(final(self).steps()) == n_values(old(self).steps()),
            n_blocks(final(self).steps()) == n_blocks(old(self).steps()) + if r is Ok { 1nat } else { 0 },
            n_vars(final(self).steps()) == n_vars(old(self).steps()),
            r is Err ==> final(self).steps() == old(self).steps() && r == Err::<usize, PlanError>(PlanError::TooLarge),
    {
        if self.blocks == usize::MAX {
            return Err(PlanError::TooLarge);
        }
        let ghost s = self.ops@;
        let b = self.blocks;
        self.ops.push(Op::CreateBlock);
        self.blocks = self.blocks + 1;
        assert(self.ops@.drop_last() =~= s);
        Ok(b)
    }

    /// Declares `name` as a fresh variable.
    fn declare(&mut self, name: &String, value: Option<usize>, index: usize) -> (r: Result<(), PlanError>)
        requires
            old(self).inv(),
            is_open(old(self).steps()),
            value is Some ==> value->0 < n_values(old(self).steps()),
        ensures
            final(self).inv(),
            match sp_declare(old(self).state(), name@, value, index) {
                Ok(st) => r is Ok && final(self).state() == st,
                Err(e) => r == Err::<(), PlanError>(e),
            },
            r is Ok ==> is_open(final(self).steps()),
            n_values(final(self).steps()) == n_values(old(self).steps()),
            n_blocks(final(self).steps()) == n_blocks(old(self).steps()),
            r is Err ==> final(self).steps() == old(self).steps(),
            r is Err ==> final(self).vars == old(self).vars,
            r is Ok ==> final(self).vars.binding(name@) is Some,
            r is Ok ==> forall|n: Seq<char>|
                n != name@ ==> #[trigger] final(self).vars.binding(n) == old(self).vars.binding(n),
            r is Ok ==> final(self).vars.depth() == old(self).vars.depth() + 1,
            r is Ok ==> forall|n: Seq<char>, m: int|
                0 <= m <= old(self).vars.depth() ==> #[trigger] final(self).vars.binding_at(n, m)
                    == old(self).vars.binding_at(n, m),
            r is Err ==> r == Err::<(), PlanError>(PlanError::TooLarge),
    {
        if self.vars.count() == usize::MAX {
            return Err(PlanError::TooLarge);
        }
        let var = self.vars.declare(name.clone());
        let op = match value {
            Some(v) => Op::DeclareVar { var, value: v },
            None => Op::DeclareParam { var, index },
        };
        let ghost s = self.ops@;
        self.ops.push(op);
        assert(self.ops@.drop_last() =~= s);
        Ok(())
    }

    /// The steps of the expression `e`, ending with the number of its value.
    fn expr(&mut self, e: &Expr, Ghost(fs): Ghost<Seq<FunctionV>>, Ghost(sc): Ghost<Scopes>) -> (r: Result<usize, PlanError>)
        requires
            old(self).inv(),
            is_open(old(self).steps()),
        ensures
            match plan_expr(old(self).state(), *e) {
                Ok((st, v)) => r == Ok::<usize, PlanError>(v) && final(self).state() == st,
                Err(err) => r == Err::<usize, PlanError>(err),
            },
            check_expr(fs, sc, expr_view(*e)) is Ok && covers(sc, old(self).vars) ==> r is Ok || r
                == Err::<usize, PlanError>(PlanError::TooLarge),
            old(self).steps().len() <= final(self).steps().len(),
            forall|k: int|
                0 <= k < old(self).steps().len() ==> #[trigger] final(self).steps()[k] == old(
                    self,
                ).steps()[k],
            forall|k: int|
                old(self).steps().len() <= k < final(self).steps().len() ==> straight_line(
                    #[trigger] final(self).steps()[k],
                ),
            final(self).inv(),
            final(self).vars == old(self).vars,
            r is Ok ==> is_open(final(self).steps()),
            r is Ok ==> r->Ok_0 < n_values(final(self).steps()),
            n_values(old(self).steps()) <= n_values(final(self).steps()),
            n_blocks(old(self).steps()) <= n_blocks(final(self).steps()),
            n_vars(old(self).steps()) == n_vars(final(self).steps()),
        decreases e,
    {
        match e {
            Expr::Number(n) => self.emit_value(Op::Iconst(*n)),
            Expr::Variable(name) => match self.vars.lookup(name) {
                Some(var) => self.emit_value(Op::UseVar(var)),
                None => {
                    assert(!declared(sc, name@) || !covers(sc, self.vars));
                    Err(PlanError::UndefinedVariable(name.clone()))
                },
            },
            Expr::Binary { op, left, right } => {
                let lhs = match self.expr(left, Ghost(fs), Ghost(sc)) {
                    Ok(v) => v,
                    Err(err) => return Err(err),
                };
                let rhs = match self.expr(right, Ghost(fs), Ghost(sc)) {
                    Ok(v) => v,
                    Err(err) => return Err(err),
                };
                let lowering = lower_binop(*op);
                self.emit_value(Op::Binary { lowering, lhs, rhs })
            },
            Expr::Unary { op, operand } => {
                let v = match self.expr(operand, Ghost(fs), Ghost(sc)) {
                    Ok(v) => v,
                    Err(err) => return Err(err),
                };
                match op {
                    UnaryOp::Neg => self.emit_value(Op::Neg(v)),
                    UnaryOp::Not => self.emit_value(Op::Not(v)),
                }
            },
            Expr::Call { name, args } => {
                let ghost av = exprs_view(args@);
                proof {
                    reveal_strlit("print");
                    assert("print"@ =~= print_name());
                    lemma_exprs_view_index(args@, 0);
                }
                let print = String::from_str("print");
                if *name == print && args.len() == 1 {
                    proof {
                        assert(decreases_to!(*e => args@));
                        assert(decreases_to!(args@ => args@[0]));
                        if check_expr(fs, sc, expr_view(*e)) is Ok && covers(sc, old(self).vars) {
                            assert(name@ == print_name());
                            assert(check_args(fs, sc, av, 0) is Ok);
                            assert(av[0] == expr_view(args@[0]));
                            assert(check_expr(fs, sc, av[0]) is Ok);
                        }
                    }
                    let v = match self.expr(&args[0], Ghost(fs), Ghost(sc)) {
                        Ok(v) => v,
                        Err(err) => return Err(err),
                    };
                    return self.emit_value(Op::CallPrint(v));
                }
                let mut i: usize = 0;
                assert(decreases_to!(*e => args@));
                assert(plan_expr(old(self).state(), *e) == match plan_args(old(self).state(), args@, 0) {
                    Err(err) => Err(err),
                    Ok(s1) => sp_value(s1, Op::Call { name: *name, argc: args@.len() as usize }),
                });
                while i < args.len()
                    invariant
                        decreases_to!(*e => args@),
                        plan_expr(old(self).state(), *e) == match plan_args(old(self).state(), args@, 0) {
                            Err(err) => Err(err),
                            Ok(s1) => sp_value(s1, Op::Call { name: *name, argc: args@.len() as usize }),
                        },
                        self.inv(),
                        self.vars == old(self).vars,
                        is_open(self.steps()),
                        i <= args.len(),
                        plan_args(old(self).state(), args@, 0) == plan_args(self.state(), args@, i as int),
                        n_values(old(self).steps()) <= n_values(self.steps()),
                        n_blocks(old(self).steps()) <= n_blocks(self.steps()),
                        n_vars(old(self).steps()) == n_vars(self.steps()),
                        old(self).steps().len() <= self.steps().len(),
                        forall|k: int|
                            0 <= k < old(self).steps().len() ==> #[trigger] self.steps()[k] == old(
                                self,
                            ).steps()[k],
                        forall|k: int|
                            old(self).steps().len() <= k < self.steps().len() ==> straight_line(
                                #[trigger] self.steps()[k],
                            ),
                        av == exprs_view(args@),
                        av.len() == args@.len(),
                        forall|k: int| 0 <= k < av.len() ==> #[trigger] av[k] == expr_view(args@[k]),
                        check_expr(fs, sc, expr_view(*e)) is Ok && covers(sc, old(self).vars)
                            ==> check_args(fs, sc, av, i as int) is Ok,
                    decreases args.len() - i,
                {
                    proof {
                        assert(decreases_to!(args@ => args@[i as int]));
                        if check_expr(fs, sc, expr_view(*e)) is Ok && covers(sc, old(self).vars) {
                            assert(check_args(fs, sc, av, i as int) is Ok);
                            assert(check_expr(fs, sc, av[i as int]) is Ok);
                            assert(check_args(fs, sc, av, i as int + 1) is Ok);
                        }
                    }
                    let ghost before = self.state();
                    let v = match self.expr(&args[i], Ghost(fs), Ghost(sc)) {
                        Ok(v) => v,
                        Err(err) => {
                            assert(plan_args(before, args@, i as int) == Err::<PlanState, PlanError>(err));
                            return Err(err);
                        },
                    };
                    self.emit(Op::Arg(v));
                    i = i + 1;
                }
                self.emit_value(Op::Call { name: name.clone(), argc: args.len() })
            },
        }
    }

    /// The steps of `block`, in a scope of its own; `true` when it ended with `return`, after
    /// which nothing more of it is planned.
    fn block(&mut self, block: &Block, Ghost(fs): Ghost<Seq<FunctionV>>, Ghost(sc): Ghost<Scopes>) -> (r: Result<bool, PlanError>)
        requires
            old(self).inv(),
            is_open(old(self).steps()),
            sc.len() >= 1,
        ensures
            match plan_scoped(old(self).state(), block.statements@) {
                Ok((st, b)) => r == Ok::<bool, PlanError>(b) && final(self).state() == st,
                Err(err) => r == Err::<bool, PlanError>(err),
            },
            check_block(fs, sc, stmts_view(block.statements@), 0) is Ok && covers(sc, old(self).vars)
                ==> r is Ok || r == Err::<bool, PlanError>(PlanError::TooLarge),
            final(self).inv(),
            n_values(old(self).steps()) <= n_values(final(self).steps()),
            n_blocks(old(self).steps()) <= n_blocks(final(self).steps()),
            r is Ok ==> is_open(final(self).steps()) == !r->Ok_0,
            r is Ok ==> final(self).vars.depth() == old(self).vars.depth(),
            r is Ok ==> forall|n: Seq<char>, m: int|
                0 <= m <= old(self).vars.depth() ==> #[trigger] final(self).vars.binding_at(n, m)
                    == old(self).vars.binding_at(n, m),
        decreases block, 1int,
    {
        let mark = self.vars.scope_mark();
        let mut i: usize = 0;
        let mut returned = false;
        let ghost sv = stmts_view(block.statements@);
        let ghost mut cur = sc;
        let ghost st0 = self.state();
        let ghost ss = block.statements@;
        proof {
            lemma_stmts_view_index(block.statements@, 0);
        }
        while i < block.statements.len()
            invariant_except_break
                is_open(self.steps()),
                !returned,
                check_block(fs, sc, sv, 0) is Ok && covers(sc, old(self).vars) ==> check_block(
                    fs,
                    cur,
                    sv,
                    i as int,
                ) is Ok && covers(cur, self.vars),
                plan_stmts(st0, ss, 0) == plan_stmts(self.state(), ss, i as int),
            invariant
                sc.len() >= 1,
                self.inv(),
                i <= block.statements.len(),
                st0 == old(self).state(),
                ss == block.statements@,
                n_values(old(self).steps()) <= n_values(self.steps()),
                n_blocks(old(self).steps()) <= n_blocks(self.steps()),
                mark == old(self).vars.depth(),
                self.vars.depth() >= mark,
                forall|n: Seq<char>, m: int|
                    0 <= m <= mark ==> #[trigger] self.vars.binding_at(n, m) == old(self).vars.binding_at(
                        n,
                        m,
                    ),
                sv == stmts_view(block.statements@),
                sv.len() == block.statements@.len(),
                forall|k: int| 0 <= k < sv.len() ==> #[trigger] sv[k] == stmt_view(block.statements@[k]),
                cur.len() == sc.len(),
            ensures
                is_open(self.steps()) == !returned,
                plan_stmts(st0, ss, 0) == Ok::<(PlanState, bool), PlanError>((self.state(), returned)),
            decreases block.statements.len() - i,
        {
            proof {
                vstd::std_specs::vec::axiom_vec_index_decreases(block.statements, i as int);
            }
            let ghost before = cur;
            let ghost st_before = self.state();
            proof {
                lemma_check_stmt_len(fs, before, sv[i as int]);
            }
            match self.statement(&block.statements[i], Ghost(fs), Ghost(before)) {
                Ok(true) => {
                    assert(plan_stmts(st_before, ss, i as int) == Ok::<(PlanState, bool), PlanError>((self.state(), true)));
                    returned = true;
                    break;
                },
                Ok(false) => {
                    assert(plan_stmts(st_before, ss, i as int) == plan_stmts(self.state(), ss, i as int + 1));
                },
                Err(err) => {
                    assert(plan_stmts(st_before, ss, i as int) == Err::<(PlanState, bool), PlanError>(err));
                    return Err(err);
                },
            }
            proof {
                cur = match check_stmt(fs, before, sv[i as int]) {
                    Ok(next) => next,
                    Err(_) => before,
                };
            }
            i = i + 1;
        }
        self.vars.leave_scope(mark);
        assert(self.state() =~= sp_restore(
            plan_stmts(st0, ss, 0)->Ok_0.0,
            st0.names.len() as int,
        ));
        Ok(returned)
    }

    /// The steps of one statement; `true` when it is a `return`.
    #[verifier::rlimit(100)]
    fn statement(&mut self, stmt: &Statement, Ghost(fs): Ghost<Seq<FunctionV>>, Ghost(sc): Ghost<Scopes>) -> (r: Result<bool, PlanError>)
        requires
            old(self).inv(),
            is_open(old(self).steps()),
            sc.len() >= 1,
        ensures
            match plan_stmt(old(self).state(), *stmt) {
                Ok((st, b)) => r == Ok::<bool, PlanError>(b) && final(self).state() == st,
                Err(err) => r == Err::<bool, PlanError>(err),
            },
            check_stmt(fs, sc, stmt_view(*stmt)) is Ok && covers(sc, old(self).vars) ==> (r is Ok
                || r == Err::<bool, PlanError>(PlanError::TooLarge)) && (r is Ok ==> covers(
                check_stmt(fs, sc, stmt_view(*stmt))->Ok_0,
                final(self).vars,
            )),
            final(self).inv(),
            n_values(old(self).steps()) <= n_values(final(self).steps()),
            n_blocks(old(self).steps()) <= n_blocks(final(self).steps()),
            r is Ok ==> is_open(final(self).steps()) == !r->Ok_0,
            r is Ok ==> final(self).vars.depth() >= old(self).vars.depth(),
            r is Ok ==> forall|n: Seq<char>, m: int|
                0 <= m <= old(self).vars.depth() ==> #[trigger] final(self).vars.binding_at(n, m)
                    == old(self).vars.binding_at(n, m),
        decreases stmt, 0int,
    {
        match stmt {
            Statement::VarDecl { name, value } => {
                let v = match self.expr(value, Ghost(fs), Ghost(sc)) {
                    Ok(v) => v,
                    Err(err) => return Err(err),
                };
                let ghost before = self.vars;
                match self.declare(name, Some(v), 0) {
                    Ok(()) => {
                        proof {
                            if covers(sc, before) {
                                lemma_covers_declare(sc, before, self.vars, name@);
                            }
                        }
                        Ok(false)
                    },
                    Err(err) => Err(err),
                }
            },
            Statement::Assignment { name, value } => {
                let v = match self.expr(value, Ghost(fs), Ghost(sc)) {
                    Ok(v) => v,
                    Err(err) => return Err(err),
                };
                match self.vars.lookup(name) {
                    Some(var) => {
                        self.emit(Op::DefVar { var, value: v });
                        Ok(false)
                    },
                    None => {
                        assert(!declared(sc, name@) || !covers(sc, self.vars));
                        Err(PlanError::UndefinedVariable(name.clone()))
                    },
                }
            },
            Statement::If { condition, then_block, else_block } => {
                let c = match self.expr(condition, Ghost(fs), Ghost(sc)) {
                    Ok(v) => v,
                    Err(err) => return Err(err),
                };
                let then_bb = match self.create_block() {
                    Ok(b) => b,
                    Err(err) => return Err(err),
                };
                let else_bb = match self.create_block() {
                    Ok(b) => b,
                    Err(err) => return Err(err),
                };
                let merge_bb = match self.create_block() {
                    Ok(b) => b,
                    Err(err) => return Err(err),
                };
                self.emit(Op::Brif { cond: c, then_block: then_bb, else_block: else_bb });
                self.emit(Op::SwitchTo(then_bb));
                self.emit(Op::Seal(then_bb));
                let ghost vars_before = self.vars;
                proof {
                    if covers(sc, self.vars) {
                        lemma_covers_push(sc, self.vars);
                    }
                }
                let res = self.block(then_block, Ghost(fs), Ghost(sc.push(Seq::empty())));
                proof {
                    if res is Ok {
                        assert forall|n: Seq<char>| #[trigger] self.vars.binding(n) == vars_before.binding(n) by {
                            assert(self.vars.binding_at(n, vars_before.depth() as int) == vars_before.binding_at(n, vars_before.depth() as int));
                        }
                    }
                }
                match res {
                    Ok(true) => {},
                    Ok(false) => self.emit(Op::Jump(merge_bb)),
                    Err(err) => return Err(err),
                }
                self.emit(Op::SwitchTo(else_bb));
                self.emit(Op::Seal(else_bb));
                let else_returned = match else_block {
                    Some(blk) => {
                        let ghost vars_before = self.vars;
                        proof {
                            if covers(sc, self.vars) {
                                lemma_covers_push(sc, self.vars);
                            }
                        }
                        let res = self.block(blk, Ghost(fs), Ghost(sc.push(Seq::empty())));
                        proof {
                            if res is Ok {
                                assert forall|n: Seq<char>| #[trigger] self.vars.binding(n) == vars_before.binding(n) by {
                                    assert(self.vars.binding_at(n, vars_before.depth() as int) == vars_before.binding_at(n, vars_before.depth() as int));
                                }
                            }
                        }
                        match res {
                            Ok(b) => b,
                            Err(err) => return Err(err),
                        }
                    },
                    None => false,
                };
                if !else_returned {
                    self.emit(Op::Jump(merge_bb));
                }
                self.emit(Op::SwitchTo(merge_bb));
                self.emit(Op::Seal(merge_bb));
                Ok(false)
            },
            Statement::While { condition, body } => {
                let header_bb = match self.create_block() {
                    Ok(b) => b,
                    Err(err) => return Err(err),
                };
                let body_bb = match self.create_block() {
                    Ok(b) => b,
                    Err(err) => return Err(err),
                };
                let exit_bb = match self.create_block() {
                    Ok(b) => b,
                    Err(err) => return Err(err),
                };
                self.emit(Op::Jump(header_bb));
                self.emit(Op::SwitchTo(header_bb));
                let c = match self.expr(condition, Ghost(fs), Ghost(sc)) {
                    Ok(v) => v,
                    Err(err) => return Err(err),
                };
                self.emit(Op::Brif { cond: c, then_block: body_bb, else_block: exit_bb });
                self.emit(Op::SwitchTo(body_bb));
                self.emit(Op::Seal(body_bb));
                let ghost vars_before = self.vars;
                proof {
                    if covers(sc, self.vars) {
                        lemma_covers_push(sc, self.vars);
                    }
                }
                let res = self.block(body, Ghost(fs), Ghost(sc.push(Seq::empty())));
                proof {
                    if res is Ok {
                        assert forall|n: Seq<char>| #[trigger] self.vars.binding(n) == vars_before.binding(n) by {
                            assert(self.vars.binding_at(n, vars_before.depth() as int) == vars_before.binding_at(n, vars_before.depth() as int));
                        }
                    }
                }
                match res {
                    Ok(true) => {},
                    Ok(false) => self.emit(Op::Jump(header_bb)),
                    Err(err) => return Err(err),
                }
                self.emit(Op::Seal(header_bb));
                self.emit(Op::SwitchTo(exit_bb));
                self.emit(Op::Seal(exit_bb));
                Ok(false)
            },
            Statement::Return { value } => {
                let v = match self.expr(value, Ghost(fs), Ghost(sc)) {
                    Ok(v) => v,
                    Err(err) => return Err(err),
                };
                self.emit(Op::Return(v));
                Ok(true)
            },
            Statement::ExprStmt { expr } => match self.expr(expr, Ghost(fs), Ghost(sc)) {
                Ok(_) => Ok(false),
                Err(err) => Err(err),
            },
        }
    }
}

/// The steps that build `func`: an entry block whose parameters define the function's
/// parameters, then its body, then `return 0` if the body can end without a `return`.
/// Every step may follow the ones before it, and the last block ends in a terminator.
/// A function that the semantic check accepts is always planned, unless it needs more
/// blocks, values or variables than a `usize` counts.
pub fn plan_function(func: &Function) -> (r: Result<Vec<Op>, PlanError>)
    ensures
        match plan_fn(*func) {
            Ok(ops) => r is Ok && r->Ok_0@ == ops,
            Err(err) => r == Err::<Vec<Op>, PlanError>(err),
        },
        r is Ok ==> well_formed(r->Ok_0@) && !is_open(r->Ok_0@),
        (exists|fs: Seq<FunctionV>| check_function(fs, function_view(*func)) is Ok) ==> r is Ok
            || r == Err::<Vec<Op>, PlanError>(PlanError::TooLarge),
{
    let ghost accepted = exists|fs: Seq<FunctionV>| check_function(fs, function_view(*func)) is Ok;
    let ghost fs = choose|fs: Seq<FunctionV>| check_function(fs, function_view(*func)) is Ok;
    let ghost fv = function_view(*func);
    let ghost ps = fv.params;
    let ghost scope = match check_params(ps, 0, Seq::empty()) {
        Ok(sc) => sc,
        Err(_) => Seq::empty(),
    };
    let ghost sc: Scopes = seq![Seq::empty(), scope];
    let mut p = Planner { ops: Vec::new(), values: 0, blocks: 0, vars: VarTable::new() };
    assert(p.inv());
    assert(p.state() == PlanState { ops: Seq::empty(), names: Seq::empty(), ids: Seq::empty(), next: 0 });
    let entry = match p.create_block() {
        Ok(b) => b,
        Err(err) => return Err(err),
    };
    p.emit(Op::AppendParams(entry));
    p.emit(Op::SwitchTo(entry));
    p.emit(Op::Seal(entry));
    let ghost s_entry = p.state();
    assert(plan_fn(*func) == match plan_params(s_entry, func.params@, 0) {
        Err(err) => Err(err),
        Ok(s2) => plan_body(s2, *func),
    });
    let mut i: usize = 0;
    while i < func.params.len()
        invariant
            plan_fn(*func) == match plan_params(s_entry, func.params@, 0) {
                Err(err) => Err(err),
                Ok(s2) => plan_body(s2, *func),
            },
            plan_params(s_entry, func.params@, 0) == plan_params(p.state(), func.params@, i as int),
            p.inv(),
            is_open(p.steps()),
            i <= func.params.len(),
            ps == fv.params,
            fv == function_view(*func),
            forall|k: int| 0 <= k < i ==> (#[trigger] p.vars.binding(ps[k])) is Some,
        decreases func.params.len() - i,
    {
        let ghost before = p.vars;
        let ghost st_before = p.state();
        match p.declare(&func.params[i], None, i) {
            Ok(()) => {},
            Err(err) => {
                assert(plan_params(st_before, func.params@, i as int) == Err::<PlanState, PlanError>(err));
                return Err(err);
            },
        }
        proof {
            assert(ps[i as int] == func.params@[i as int]@);
            assert forall|k: int| 0 <= k < i + 1 implies (#[trigger] p.vars.binding(ps[k])) is Some by {
                if k < i && ps[k] != ps[i as int] {
                    assert(before.binding(ps[k]) is Some);
                }
            }
        }
        i = i + 1;
    }
    proof {
        if accepted {
            lemma_params_scope(ps, 0, Seq::empty());
            assert forall|n: Seq<char>| declared(sc, n) implies (#[trigger] p.vars.binding(n)) is Some by {
                let j = choose|j: int| 0 <= j < sc.len() && #[trigger] sc[j].contains(n);
                assert(j == 1);
                assert(scope.contains(n));
                let k = choose|k: int| 0 <= k < ps.len() && ps[k] == n;
            }
        }
    }
    let returned = match p.block(&func.body, Ghost(fs), Ghost(sc)) {
        Ok(b) => b,
        Err(err) => return Err(err),
    };
    if !returned {
        let zero = match p.emit_value(Op::Iconst(0)) {
            Ok(v) => v,
            Err(err) => return Err(err),
        };
        p.emit(Op::Return(zero));
    }
    Ok(p.ops)
}

} // verus!
