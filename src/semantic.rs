use vstd::prelude::*;
use vstd::string::StringExecFns;
use crate::ast::{
    Block, Expr, ExprV, Function, FunctionV, Program, Statement, StatementV, expr_view,
    exprs_view, exprs_view_from, function_view, functions_view, names_view, stmt_view, stmts_view,
    stmts_view_from,
};

verus! {

/// Why a parsed program was refused.
#[derive(Debug, Clone, PartialEq)]
pub enum SemanticError {
    DuplicateFunction(String),
    NoMain,
    MainHasParameters,
    DuplicateParameter(String),
    AlreadyDeclared(String),
    UndefinedVariable(String),
    PrintArity,
    UndefinedFunction(String),
    ArityMismatch { name: String, expected: usize, got: usize },
}

pub enum SemanticErrorV {
    DuplicateFunction(Seq<char>),
    NoMain,
    MainHasParameters,
    DuplicateParameter(Seq<char>),
    AlreadyDeclared(Seq<char>),
    UndefinedVariable(Seq<char>),
    PrintArity,
    UndefinedFunction(Seq<char>),
    ArityMismatch { name: Seq<char>, expected: int, got: int },
}

impl View for SemanticError {
    type V = SemanticErrorV;

    open spec fn view(&self) -> SemanticErrorV {
        match self {
            SemanticError::DuplicateFunction(n) => SemanticErrorV::DuplicateFunction(n@),
            SemanticError::NoMain => SemanticErrorV::NoMain,
            SemanticError::MainHasParameters => SemanticErrorV::MainHasParameters,
            SemanticError::DuplicateParameter(n) => SemanticErrorV::DuplicateParameter(n@),
            SemanticError::AlreadyDeclared(n) => SemanticErrorV::AlreadyDeclared(n@),
            SemanticError::UndefinedVariable(n) => SemanticErrorV::UndefinedVariable(n@),
            SemanticError::PrintArity => SemanticErrorV::PrintArity,
            SemanticError::UndefinedFunction(n) => SemanticErrorV::UndefinedFunction(n@),
            SemanticError::ArityMismatch { name, expected, got } => SemanticErrorV::ArityMismatch {
                name: name@,
                expected: *expected as int,
                got: *got as int,
            },
        }
    }
}

pub open spec fn sem_result_view(r: Result<(), SemanticError>) -> Result<(), SemanticErrorV> {
    match r {
        Ok(()) => Ok(()),
        Err(e) => Err(e@),
    }
}

/// A stack of scopes, innermost last; each scope is the names declared in it.
pub type Scopes = Seq<Seq<Seq<char>>>;

pub open spec fn print_name() -> Seq<char> {
    seq!['p', 'r', 'i', 'n', 't']
}

pub open spec fn main_name() -> Seq<char> {
    seq!['m', 'a', 'i', 'n']
}

/// A name is visible when some scope of the stack declares it.
pub open spec fn declared(scopes: Scopes, n: Seq<char>) -> bool {
    exists|i: int| 0 <= i < scopes.len() && #[trigger] scopes[i].contains(n)
}

/// The first function at or after `i` named `name`.
pub open spec fn lookup(fs: Seq<FunctionV>, name: Seq<char>, i: int) -> Option<int>
    decreases fs.len() - i,
{
    if !(0 <= i < fs.len()) {
        None
    } else if fs[i].name == name {
        Some(i)
    } else {
        lookup(fs, name, i + 1)
    }
}

pub open spec fn check_expr(fs: Seq<FunctionV>, scopes: Scopes, e: ExprV) -> Result<
    (),
    SemanticErrorV,
>
    decreases e, 0int,
{
    match e {
        ExprV::Number(_) => Ok(()),
        ExprV::Variable(n) => if declared(scopes, n) {
            Ok(())
        } else {
            Err(SemanticErrorV::UndefinedVariable(n))
        },
        ExprV::Binary { op, left, right } => match check_expr(fs, scopes, *left) {
            Err(err) => Err(err),
            Ok(()) => check_expr(fs, scopes, *right),
        },
        ExprV::Unary { op, operand } => check_expr(fs, scopes, *operand),
        ExprV::Call { name, args } => if name == print_name() {
            if args.len() != 1 {
                Err(SemanticErrorV::PrintArity)
            } else {
                check_args(fs, scopes, args, 0)
            }
        } else {
            match lookup(fs, name, 0) {
                None => Err(SemanticErrorV::UndefinedFunction(name)),
                Some(k) => if args.len() != fs[k].params.len() {
                    Err(
                        SemanticErrorV::ArityMismatch {
                            name,
                            expected: fs[k].params.len() as int,
                            got: args.len() as int,
                        },
                    )
                } else {
                    check_args(fs, scopes, args, 0)
                },
            }
        },
    }
}

/// Checks `args[i..]` in order.
pub open spec fn check_args(fs: Seq<FunctionV>, scopes: Scopes, args: Seq<ExprV>, i: int) -> Result<
    (),
    SemanticErrorV,
>
    decreases args, args.len() - i,
{
    if 0 <= i < args.len() {
        match check_expr(fs, scopes, args[i]) {
            Err(err) => Err(err),
            Ok(()) => check_args(fs, scopes, args, i + 1),
        }
    } else {
        Ok(())
    }
}

/// The scopes after a statement, or the first error in it.
pub open spec fn check_stmt(fs: Seq<FunctionV>, scopes: Scopes, s: StatementV) -> Result<
    Scopes,
    SemanticErrorV,
>
    decreases s, 0int,
{
    match s {
        StatementV::VarDecl { name, value } => match check_expr(fs, scopes, value) {
            Err(err) => Err(err),
            Ok(()) => if scopes.last().contains(name) {
                Err(SemanticErrorV::AlreadyDeclared(name))
            } else {
                Ok(scopes.update(scopes.len() - 1, scopes.last().push(name)))
            },
        },
        StatementV::Assignment { name, value } => match check_expr(fs, scopes, value) {
            Err(err) => Err(err),
            Ok(()) => if declared(scopes, name) {
                Ok(scopes)
            } else {
                Err(SemanticErrorV::UndefinedVariable(name))
            },
        },
        StatementV::If { condition, then_block, else_block } => match check_expr(
            fs,
            scopes,
            condition,
        ) {
            Err(err) => Err(err),
            Ok(()) => match check_block(fs, scopes.push(Seq::empty()), then_block, 0) {
                Err(err) => Err(err),
                Ok(_) => match else_block {
                    None => Ok(scopes),
                    Some(b) => match check_block(fs, scopes.push(Seq::empty()), b, 0) {
                        Err(err) => Err(err),
                        Ok(_) => Ok(scopes),
                    },
                },
            },
        },
        StatementV::While { condition, body } => match check_expr(fs, scopes, condition) {
            Err(err) => Err(err),
            Ok(()) => match check_block(fs, scopes.push(Seq::empty()), body, 0) {
                Err(err) => Err(err),
                Ok(_) => Ok(scopes),
            },
        },
        StatementV::Return { value } => match check_expr(fs, scopes, value) {
            Err(err) => Err(err),
            Ok(()) => Ok(scopes),
        },
        StatementV::ExprStmt { expr } => match check_expr(fs, scopes, expr) {
            Err(err) => Err(err),
            Ok(()) => Ok(scopes),
        },
    }
}

/// Checks `ss[i..]` in order, threading the scopes through.
pub open spec fn check_block(fs: Seq<FunctionV>, scopes: Scopes, ss: Seq<StatementV>, i: int) -> Result<
    Scopes,
    SemanticErrorV,
>
    decreases ss, ss.len() - i,
{
    if 0 <= i < ss.len() {
        match check_stmt(fs, scopes, ss[i]) {
            Err(err) => Err(err),
            Ok(next) => check_block(fs, next, ss, i + 1),
        }
    } else {
        Ok(scopes)
    }
}

/// The scope of a function's parameters `ps[i..]`, after those in `scope`.
pub open spec fn check_params(ps: Seq<Seq<char>>, i: int, scope: Seq<Seq<char>>) -> Result<
    Seq<Seq<char>>,
    SemanticErrorV,
>
    decreases ps.len() - i,
{
    if !(0 <= i < ps.len()) {
        Ok(scope)
    } else if scope.contains(ps[i]) {
        Err(SemanticErrorV::DuplicateParameter(ps[i]))
    } else {
        check_params(ps, i + 1, scope.push(ps[i]))
    }
}

pub open spec fn check_function(fs: Seq<FunctionV>, f: FunctionV) -> Result<(), SemanticErrorV> {
    match check_params(f.params, 0, Seq::empty()) {
        Err(err) => Err(err),
        Ok(scope) => match check_block(fs, seq![Seq::empty(), scope], f.body, 0) {
            Err(err) => Err(err),
            Ok(_) => Ok(()),
        },
    }
}

/// The first function at or after `i` whose name an earlier one already has.
pub open spec fn check_unique(fs: Seq<FunctionV>, i: int) -> Result<(), SemanticErrorV>
    decreases fs.len() - i,
{
    if !(0 <= i < fs.len()) {
        Ok(())
    } else if exists|k: int| 0 <= k < i && #[trigger] fs[k].name == fs[i].name {
        Err(SemanticErrorV::DuplicateFunction(fs[i].name))
    } else {
        check_unique(fs, i + 1)
    }
}

pub open spec fn check_functions(fs: Seq<FunctionV>, i: int) -> Result<(), SemanticErrorV>
    decreases fs.len() - i,
{
    if !(0 <= i < fs.len()) {
        Ok(())
    } else {
        match check_function(fs, fs[i]) {
            Err(err) => Err(err),
            Ok(()) => check_functions(fs, i + 1),
        }
    }
}

/// The verdict on a whole program.
pub open spec fn check_program(fs: Seq<FunctionV>) -> Result<(), SemanticErrorV> {
    match check_unique(fs, 0) {
        Err(err) => Err(err),
        Ok(()) => match lookup(fs, main_name(), 0) {
            None => Err(SemanticErrorV::NoMain),
            Some(k) => if fs[k].params.len() != 0 {
                Err(SemanticErrorV::MainHasParameters)
            } else {
                check_functions(fs, 0)
            },
        },
    }
}

pub proof fn lemma_lookup(fs: Seq<FunctionV>, name: Seq<char>, i: int)
    requires
        0 <= i,
    ensures
        match lookup(fs, name, i) {
            Some(k) => i <= k < fs.len() && fs[k].name == name && forall|m: int|
                i <= m < k ==> #[trigger] fs[m].name != name,
            None => forall|m: int| i <= m < fs.len() ==> #[trigger] fs[m].name != name,
        },
    decreases fs.len() - i,
{
    if 0 <= i < fs.len() && fs[i].name != name {
        lemma_lookup(fs, name, i + 1);
    }
}

pub proof fn lemma_exprs_view_index(s: Seq<Expr>, i: int)
    requires
        0 <= i <= s.len(),
    ensures
        exprs_view_from(s, i).len() == s.len() - i,
        forall|k: int|
            0 <= k < s.len() - i ==> #[trigger] exprs_view_from(s, i)[k] == expr_view(s[i + k]),
    decreases s.len() - i,
{
    if i < s.len() {
        lemma_exprs_view_index(s, i + 1);
        assert forall|k: int| 0 <= k < s.len() - i implies #[trigger] exprs_view_from(s, i)[k]
            == expr_view(s[i + k]) by {
            if k > 0 {
                assert(exprs_view_from(s, i)[k] == exprs_view_from(s, i + 1)[k - 1]);
            }
        }
    }
}

pub proof fn lemma_stmts_view_index(s: Seq<Statement>, i: int)
    requires
        0 <= i <= s.len(),
    ensures
        stmts_view_from(s, i).len() == s.len() - i,
        forall|k: int|
            0 <= k < s.len() - i ==> #[trigger] stmts_view_from(s, i)[k] == stmt_view(s[i + k]),
    decreases s.len() - i,
{
    if i < s.len() {
        lemma_stmts_view_index(s, i + 1);
        assert forall|k: int| 0 <= k < s.len() - i implies #[trigger] stmts_view_from(s, i)[k]
            == stmt_view(s[i + k]) by {
            if k > 0 {
                assert(stmts_view_from(s, i)[k] == stmts_view_from(s, i + 1)[k - 1]);
            }
        }
    }
}

/// A search of the recorded signatures answers as a search of the functions does.
pub proof fn lemma_sig_lookup(
    sigs: Seq<FunctionSignature>,
    fs: Seq<FunctionV>,
    name: Seq<char>,
    r: Option<usize>,
)
    requires
        sigs_match(sigs, fs),
        match r {
            Some(k) => k < sigs.len() && sigs[k as int].name@ == name && forall|m: int|
                0 <= m < k ==> #[trigger] sigs[m].name@ != name,
            None => forall|m: int| 0 <= m < sigs.len() ==> #[trigger] sigs[m].name@ != name,
        },
    ensures
        match r {
            Some(k) => lookup(fs, name, 0) == Some(k as int),
            None => lookup(fs, name, 0) is None,
        },
{
    lemma_lookup(fs, name, 0);
    match lookup(fs, name, 0) {
        Some(j) => {
            assert(sigs[j].name@ == fs[j].name);
            match r {
                Some(k) => {
                    assert(sigs[k as int].name@ == fs[k as int].name);
                },
                None => {},
            }
        },
        None => {
            match r {
                Some(k) => {
                    assert(sigs[k as int].name@ == fs[k as int].name);
                },
                None => {},
            }
        },
    }
}

/// What the analyzer records of a function before it reads any body.
#[derive(Debug, Clone)]
pub struct FunctionSignature {
    pub name: String,
    pub param_count: usize,
}

/// The recorded signatures are those of `fs`, in order.
pub open spec fn sigs_match(sigs: Seq<FunctionSignature>, fs: Seq<FunctionV>) -> bool {
    &&& sigs.len() == fs.len()
    &&& forall|k: int|
        0 <= k < sigs.len() ==> (#[trigger] sigs[k]).name@ == fs[k].name && sigs[k].param_count
            == fs[k].params.len()
}

pub open spec fn scopes_view(s: Seq<Vec<String>>) -> Scopes {
    s.map_values(|v: Vec<String>| names_view(v@))
}

pub struct SemanticAnalyzer {
    functions: Vec<FunctionSignature>,
    scopes: Vec<Vec<String>>,
}

/// True when `names` holds `name`.
fn names_contain(names: &Vec<String>, name: &String) -> (r: bool)
    ensures
        r == names_view(names@).contains(name@),
{
    let mut i: usize = 0;
    while i < names.len()
        invariant
            i <= names.len(),
            forall|k: int| 0 <= k < i ==> names@[k]@ != name@,
        decreases names.len() - i,
    {
        if names[i] == *name {
            assert(names_view(names@)[i as int] == name@);
            return true;
        }
        i = i + 1;
    }
    assert(!names_view(names@).contains(name@)) by {
        if names_view(names@).contains(name@) {
            let k = choose|k: int| 0 <= k < names_view(names@).len() && names_view(names@)[k] == name@;
            assert(names@[k]@ == name@);
        }
    }
    false
}

impl SemanticAnalyzer {
    pub closed spec fn scopes(&self) -> Scopes {
        scopes_view(self.scopes@)
    }

    pub closed spec fn signatures(&self) -> Seq<FunctionSignature> {
        self.functions@
    }

    pub fn new() -> (r: Self)
        ensures
            r.signatures().len() == 0,
            r.scopes() == seq![Seq::<Seq<char>>::empty()],
    {
        let mut scopes: Vec<Vec<String>> = Vec::new();
        let global: Vec<String> = Vec::new();
        assert(names_view(global@) =~= Seq::empty());
        scopes.push(global);
        let r = SemanticAnalyzer { functions: Vec::new(), scopes };
        assert(r.scopes() =~= seq![Seq::<Seq<char>>::empty()]);
        r
    }

    /// Checks a whole program; the state of earlier runs is discarded first.
    pub fn analyze(&mut self, program: &Program) -> (r: Result<(), SemanticError>)
        ensures
            sem_result_view(r) == check_program(functions_view(program.functions@)),
    {
        let ghost fs = functions_view(program.functions@);
        self.functions = Vec::new();
        let mut scopes: Vec<Vec<String>> = Vec::new();
        scopes.push(Vec::new());
        self.scopes = scopes;
        let n = program.functions.len();
        let mut i: usize = 0;
        while i < n
            invariant
                n == program.functions.len(),
                fs == functions_view(program.functions@),
                i <= n,
                sigs_match(self.functions@, fs.take(i as int)),
                check_unique(fs, 0) == check_unique(fs, i as int),
                self.scopes@.len() == 1,
                self.scopes@[0]@.len() == 0,
            decreases n - i,
        {
            let f = &program.functions[i];
            let found = self.lookup_function(&f.name);
            proof {
                lemma_lookup(fs.take(i as int), f.name@, 0);
            }
            if found.is_some() {
                proof {
                    let k = found->0 as int;
                    assert(fs[k].name == fs[i as int].name);
                }
                return Err(SemanticError::DuplicateFunction(f.name.clone()));
            }
            proof {
                assert(!exists|k: int| 0 <= k < i && #[trigger] fs[k].name == fs[i as int].name)
                    by {
                    if exists|k: int| 0 <= k < i && #[trigger] fs[k].name == fs[i as int].name {
                        let k = choose|k: int| 0 <= k < i && #[trigger] fs[k].name == fs[i as int].name;
                        assert(fs.take(i as int)[k].name == fs[i as int].name);
                        assert(self.functions@[k].name@ == f.name@);
                    }
                }
            }
            self.functions.push(FunctionSignature { name: f.name.clone(), param_count: f.params.len() });
            i = i + 1;
        }
        assert(fs.take(n as int) =~= fs);
        proof {
            reveal_strlit("main");
            assert("main"@ =~= main_name());
        }
        let main_str = String::from_str("main");
        let main = self.lookup_function(&main_str);
        proof {
            lemma_sig_lookup(self.functions@, fs, main_name(), main);
        }
        match main {
            None => {
                return Err(SemanticError::NoMain);
            },
            Some(k) => {
                if self.functions[k].param_count != 0 {
                    return Err(SemanticError::MainHasParameters);
                }
            },
        }
        assert(self.scopes() =~= seq![Seq::<Seq<char>>::empty()]) by {
            assert(names_view(self.scopes@[0]@) =~= Seq::empty());
        }
        let mut i: usize = 0;
        while i < n
            invariant
                n == program.functions.len(),
                fs == functions_view(program.functions@),
                i <= n,
                sigs_match(self.functions@, fs),
                check_program(fs) == check_functions(fs, i as int),
                self.scopes() == seq![Seq::<Seq<char>>::empty()],
            decreases n - i,
        {
            match self.analyze_function(&program.functions[i], Ghost(fs)) {
                Ok(()) => {},
                Err(e) => return Err(e),
            }
            i = i + 1;
        }
        Ok(())
    }

    fn analyze_function(&mut self, func: &Function, Ghost(fs): Ghost<Seq<FunctionV>>) -> (r: Result<
        (),
        SemanticError,
    >)
        requires
            old(self).scopes() == seq![Seq::<Seq<char>>::empty()],
            sigs_match(old(self).signatures(), fs),
        ensures
            final(self).signatures() == old(self).signatures(),
            sem_result_view(r) == check_function(fs, function_view(*func)),
            r is Ok ==> final(self).scopes() == old(self).scopes(),
    {
        let ghost ps = names_view(func.params@);
        self.enter_scope();
        let mut i: usize = 0;
        assert(self.scopes().last() =~= Seq::<Seq<char>>::empty());
        while i < func.params.len()
            invariant
                i <= func.params.len(),
                ps == names_view(func.params@),
                self.functions@ == old(self).functions@,
                self.scopes().len() == 2,
                self.scopes()[0] == Seq::<Seq<char>>::empty(),
                check_params(ps, 0, Seq::empty()) == check_params(ps, i as int, self.scopes().last()),
            decreases func.params.len() - i,
        {
            let param = &func.params[i];
            if self.current_scope_contains(param) {
                return Err(SemanticError::DuplicateParameter(param.clone()));
            }
            self.declare_variable(param.clone());
            i = i + 1;
        }
        assert(self.scopes() =~= seq![Seq::<Seq<char>>::empty(), self.scopes().last()]);
        match self.analyze_block(&func.body, Ghost(fs)) {
            Ok(()) => {},
            Err(e) => return Err(e),
        }
        self.exit_scope();
        assert(self.scopes() =~= seq![Seq::<Seq<char>>::empty()]);
        Ok(())
    }

    fn analyze_block(&mut self, block: &Block, Ghost(fs): Ghost<Seq<FunctionV>>) -> (r: Result<
        (),
        SemanticError,
    >)
        requires
            old(self).scopes().len() >= 1,
            sigs_match(old(self).signatures(), fs),
        ensures
            final(self).signatures() == old(self).signatures(),
            match check_block(fs, old(self).scopes(), stmts_view(block.statements@), 0) {
                Ok(sc) => r is Ok && final(self).scopes() == sc,
                Err(e) => r is Err && r->Err_0@ == e,
            },
            r is Ok ==> final(self).scopes().len() == old(self).scopes().len()
                && final(self).scopes().drop_last() == old(self).scopes().drop_last(),
        decreases block, 1int,
    {
        let ghost sv = stmts_view(block.statements@);
        proof {
            lemma_stmts_view_index(block.statements@, 0);
        }
        let mut i: usize = 0;
        while i < block.statements.len()
            invariant
                i <= block.statements.len(),
                sv == stmts_view(block.statements@),
                sv.len() == block.statements@.len(),
                forall|k: int| 0 <= k < sv.len() ==> #[trigger] sv[k] == stmt_view(block.statements@[k]),
                self.functions@ == old(self).functions@,
                sigs_match(self.functions@, fs),
                old(self).scopes().len() >= 1,
                self.scopes().len() == old(self).scopes().len(),
                self.scopes().drop_last() == old(self).scopes().drop_last(),
                check_block(fs, old(self).scopes(), sv, 0) == check_block(fs, self.scopes(), sv, i as int),
            decreases block.statements.len() - i,
        {
            proof {
                vstd::std_specs::vec::axiom_vec_index_decreases(block.statements, i as int);
                assert(sv[i as int] == stmt_view(block.statements@[i as int]));
            }
            match self.analyze_statement(&block.statements[i], Ghost(fs)) {
                Ok(()) => {},
                Err(e) => return Err(e),
            }
            i = i + 1;
        }
        Ok(())
    }

    fn analyze_statement(&mut self, stmt: &Statement, Ghost(fs): Ghost<Seq<FunctionV>>) -> (r: Result<
        (),
        SemanticError,
    >)
        requires
            old(self).scopes().len() >= 1,
            sigs_match(old(self).signatures(), fs),
        ensures
            final(self).signatures() == old(self).signatures(),
            match check_stmt(fs, old(self).scopes(), stmt_view(*stmt)) {
                Ok(sc) => r is Ok && final(self).scopes() == sc,
                Err(e) => r is Err && r->Err_0@ == e,
            },
            r is Ok ==> final(self).scopes().len() == old(self).scopes().len()
                && final(self).scopes().drop_last() == old(self).scopes().drop_last(),
        decreases stmt, 0int,
    {
        let ghost sc0 = self.scopes();
        match stmt {
            Statement::VarDecl { name, value } => {
                match self.analyze_expr(value, Ghost(fs)) {
                    Ok(()) => {},
                    Err(e) => return Err(e),
                }
                if self.current_scope_contains(name) {
                    return Err(SemanticError::AlreadyDeclared(name.clone()));
                }
                self.declare_variable(name.clone());
                assert(self.scopes().drop_last() =~= sc0.drop_last());
                Ok(())
            },
            Statement::Assignment { name, value } => {
                match self.analyze_expr(value, Ghost(fs)) {
                    Ok(()) => {},
                    Err(e) => return Err(e),
                }
                if !self.is_variable_declared(name) {
                    return Err(SemanticError::UndefinedVariable(name.clone()));
                }
                Ok(())
            },
            Statement::If { condition, then_block, else_block } => {
                match self.analyze_expr(condition, Ghost(fs)) {
                    Ok(()) => {},
                    Err(e) => return Err(e),
                }
                self.enter_scope();
                match self.analyze_block(then_block, Ghost(fs)) {
                    Ok(()) => {},
                    Err(e) => return Err(e),
                }
                self.exit_scope();
                assert(self.scopes() =~= sc0);
                match else_block {
                    Some(else_blk) => {
                        self.enter_scope();
                        match self.analyze_block(else_blk, Ghost(fs)) {
                            Ok(()) => {},
                            Err(e) => return Err(e),
                        }
                        self.exit_scope();
                        assert(self.scopes() =~= sc0);
                    },
                    None => {},
                }
                Ok(())
            },
            Statement::While { condition, body } => {
                match self.analyze_expr(condition, Ghost(fs)) {
                    Ok(()) => {},
                    Err(e) => return Err(e),
                }
                self.enter_scope();
                match self.analyze_block(body, Ghost(fs)) {
                    Ok(()) => {},
                    Err(e) => return Err(e),
                }
                self.exit_scope();
                assert(self.scopes() =~= sc0);
                Ok(())
            },
            Statement::Return { value } => self.analyze_expr(value, Ghost(fs)),
            Statement::ExprStmt { expr } => self.analyze_expr(expr, Ghost(fs)),
        }
    }

    fn analyze_expr(&self, expr: &Expr, Ghost(fs): Ghost<Seq<FunctionV>>) -> (r: Result<
        (),
        SemanticError,
    >)
        requires
            sigs_match(self.signatures(), fs),
        ensures
            sem_result_view(r) == check_expr(fs, self.scopes(), expr_view(*expr)),
        decreases expr,
    {
        match expr {
            Expr::Number(_) => Ok(()),
            Expr::Variable(name) => {
                if !self.is_variable_declared(name) {
                    return Err(SemanticError::UndefinedVariable(name.clone()));
                }
                Ok(())
            },
            Expr::Binary { left, right, .. } => {
                match self.analyze_expr(left, Ghost(fs)) {
                    Ok(()) => {},
                    Err(e) => return Err(e),
                }
                self.analyze_expr(right, Ghost(fs))
            },
            Expr::Unary { operand, .. } => self.analyze_expr(operand, Ghost(fs)),
            Expr::Call { name, args } => {
                let ghost av = exprs_view(args@);
                proof {
                    lemma_exprs_view_index(args@, 0);
                    reveal_strlit("print");
                    assert("print"@ =~= print_name());
                }
                let print = String::from_str("print");
                if *name == print {
                    if args.len() != 1 {
                        return Err(SemanticError::PrintArity);
                    }
                } else {
                    let found = self.lookup_function(name);
                    proof {
                        lemma_sig_lookup(self.functions@, fs, name@, found);
                    }
                    match found {
                        None => {
                            return Err(SemanticError::UndefinedFunction(name.clone()));
                        },
                        Some(k) => {
                            let expected = self.functions[k].param_count;
                            if args.len() != expected {
                                return Err(
                                    SemanticError::ArityMismatch {
                                        name: name.clone(),
                                        expected,
                                        got: args.len(),
                                    },
                                );
                            }
                        },
                    }
                }
                assert(decreases_to!(*expr => args@));
                assert(check_expr(fs, self.scopes(), expr_view(*expr)) == check_args(fs, self.scopes(), av, 0));
                let mut i: usize = 0;
                while i < args.len()
                    invariant
                        decreases_to!(*expr => args@),
                        check_expr(fs, self.scopes(), expr_view(*expr)) == check_args(fs, self.scopes(), av, 0),
                        i <= args.len(),
                        av == exprs_view(args@),
                        av.len() == args@.len(),
                        forall|k: int| 0 <= k < av.len() ==> #[trigger] av[k] == expr_view(args@[k]),
                        sigs_match(self.signatures(), fs),
                        check_args(fs, self.scopes(), av, 0) == check_args(
                            fs,
                            self.scopes(),
                            av,
                            i as int,
                        ),
                    decreases args.len() - i,
                {
                    proof {
                        assert(decreases_to!(args@ => args@[i as int]));
                        assert(av[i as int] == expr_view(args@[i as int]));
                    }
                    let ghost sc = self.scopes();
                    match self.analyze_expr(&args[i], Ghost(fs)) {
                        Ok(()) => {},
                        Err(e) => {
                            assert(check_args(fs, sc, av, i as int) == Err::<(), SemanticErrorV>(e@));
                            return Err(e);
                        },
                    }
                    i = i + 1;
                }
                Ok(())
            },
        }
    }

    /// The index of the first recorded function named `name`.
    fn lookup_function(&self, name: &String) -> (r: Option<usize>)
        ensures
            match r {
                Some(k) => k < self.functions@.len() && self.functions@[k as int].name@ == name@
                    && forall|m: int| 0 <= m < k ==> #[trigger] self.functions@[m].name@ != name@,
                None => forall|m: int|
                    0 <= m < self.functions@.len() ==> #[trigger] self.functions@[m].name@ != name@,
            },
    {
        let mut i: usize = 0;
        while i < self.functions.len()
            invariant
                i <= self.functions.len(),
                forall|m: int| 0 <= m < i ==> #[trigger] self.functions@[m].name@ != name@,
            decreases self.functions.len() - i,
        {
            if self.functions[i].name == *name {
                return Some(i);
            }
            i = i + 1;
        }
        None
    }

    fn enter_scope(&mut self)
        ensures
            final(self).signatures() == old(self).signatures(),
            final(self).scopes() == old(self).scopes().push(Seq::empty()),
    {
        let scope: Vec<String> = Vec::new();
        assert(names_view(scope@) =~= Seq::empty());
        self.scopes.push(scope);
        assert(self.scopes() =~= old(self).scopes().push(Seq::empty()));
    }

    fn exit_scope(&mut self)
        requires
            old(self).scopes().len() >= 1,
        ensures
            final(self).signatures() == old(self).signatures(),
            final(self).scopes() == old(self).scopes().drop_last(),
    {
        self.scopes.pop();
        assert(self.scopes() =~= old(self).scopes().drop_last());
    }

    fn current_scope_contains(&self, name: &String) -> (r: bool)
        requires
            self.scopes().len() >= 1,
        ensures
            r == self.scopes().last().contains(name@),
    {
        let last = self.scopes.len() - 1;
        names_contain(&self.scopes[last], name)
    }

    fn declare_variable(&mut self, name: String)
        requires
            old(self).scopes().len() >= 1,
        ensures
            final(self).signatures() == old(self).signatures(),
            final(self).scopes() == old(self).scopes().update(
                old(self).scopes().len() - 1,
                old(self).scopes().last().push(name@),
            ),
    {
        let mut scope = self.scopes.pop().unwrap();
        let ghost before = scope@;
        scope.push(name);
        assert(names_view(scope@) =~= names_view(before).push(name@));
        self.scopes.push(scope);
        assert(self.scopes() =~= old(self).scopes().update(
            old(self).scopes().len() - 1,
            old(self).scopes().last().push(name@),
        ));
    }

    fn is_variable_declared(&self, name: &String) -> (r: bool)
        ensures
            r == declared(self.scopes(), name@),
    {
        let mut i: usize = self.scopes.len();
        while i > 0
            invariant
                i <= self.scopes.len(),
                forall|k: int| i <= k < self.scopes@.len() ==> !(#[trigger] self.scopes()[k]).contains(name@),
            decreases i,
        {
            i = i - 1;
            if names_contain(&self.scopes[i], name) {
                assert(self.scopes()[i as int] == names_view(self.scopes@[i as int]@));
                return true;
            }
        }
        false
    }
}

} // verus!
