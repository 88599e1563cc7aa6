use edust::analyze_source;
use edust::ast::BinOp;
use edust::codegen::{lower_binop, ArithOp, IntCond, Lowering, VarTable};
use edust::plan::{plan_function, Op};

fn plan_of(src: &str, index: usize) -> Vec<Op> {
    let program = analyze_source(src).unwrap();
    plan_function(&program.functions[index]).unwrap()
}

#[test]
fn straight_line_function_plan() {
    let ops = plan_of("func main() { let x = 42; return x; }", 0);
    assert!(matches!(ops[0], Op::CreateBlock));
    assert!(matches!(ops[1], Op::AppendParams(0)));
    assert!(matches!(ops[2], Op::SwitchTo(0)));
    assert!(matches!(ops[3], Op::Seal(0)));
    assert!(matches!(ops[4], Op::Iconst(42)));
    assert!(matches!(ops[5], Op::DeclareVar { var: 0, value: 0 }));
    assert!(matches!(ops[6], Op::UseVar(0)));
    assert!(matches!(ops[7], Op::Return(1)));
    assert_eq!(ops.len(), 8);
}

#[test]
fn missing_return_gets_return_zero() {
    let ops = plan_of("func main() { print(1); }", 0);
    let n = ops.len();
    assert!(matches!(ops[n - 2], Op::Iconst(0)));
    assert!(matches!(ops[n - 1], Op::Return(_)));
    assert!(ops.iter().any(|o| matches!(o, Op::CallPrint(_))));
}

#[test]
fn statements_after_return_are_not_planned() {
    let ops = plan_of("func main() { return 1; return 2; }", 0);
    let returns = ops.iter().filter(|o| matches!(o, Op::Return(_))).count();
    assert_eq!(returns, 1);
    assert!(!ops.iter().any(|o| matches!(o, Op::Iconst(2))));
}

#[test]
fn parameters_come_from_the_entry_block() {
    let ops = plan_of("func add(a, b) { return a + b; } func main() { return add(10, 20); }", 0);
    assert!(matches!(ops[4], Op::DeclareParam { var: 0, index: 0 }));
    assert!(matches!(ops[5], Op::DeclareParam { var: 1, index: 1 }));
    assert!(ops.iter().any(|o| matches!(
        o,
        Op::Binary { lowering: Lowering::Arith(ArithOp::Iadd), .. }
    )));
    let main = plan_of("func add(a, b) { return a + b; } func main() { return add(10, 20); }", 1);
    assert!(main.iter().any(|o| matches!(o, Op::Call { name, argc: 2 } if name == "add")));
    assert_eq!(main.iter().filter(|o| matches!(o, Op::Arg(_))).count(), 2);
}

#[test]
fn loop_header_is_sealed_after_the_back_edge() {
    let ops = plan_of(
        "func main() { let i = 0; let sum = 0; while i < 5 { sum = sum + i; i = i + 1; } return sum; }",
        0,
    );
    // Blocks: 0 entry, 1 header, 2 body, 3 exit.
    let back_edge = ops.iter().rposition(|o| matches!(o, Op::Jump(1))).unwrap();
    let seal_header = ops.iter().position(|o| matches!(o, Op::Seal(1))).unwrap();
    let switch_exit = ops.iter().position(|o| matches!(o, Op::SwitchTo(3))).unwrap();
    assert!(back_edge < seal_header);
    assert!(seal_header < switch_exit);
    assert!(ops.iter().any(|o| matches!(o, Op::Brif { then_block: 2, else_block: 3, .. })));
}

#[test]
fn if_else_plan_has_three_blocks() {
    let ops = plan_of("func main() { let x = 5; if x > 3 { return 1; } else { return 0; } }", 0);
    let creates = ops.iter().filter(|o| matches!(o, Op::CreateBlock)).count();
    assert_eq!(creates, 4);
    assert!(ops.iter().any(|o| matches!(o, Op::Brif { then_block: 1, else_block: 2, .. })));
    assert!(ops.iter().any(|o| matches!(
        o,
        Op::Binary { lowering: Lowering::Compare(IntCond::SignedGreaterThan), .. }
    )));
    // Both branches return, so neither jumps to the merge block.
    assert!(!ops.iter().any(|o| matches!(o, Op::Jump(3))));
}

#[test]
fn logical_operators_evaluate_both_operands() {
    let ops = plan_of("func main() { return print(1) && print(0); }", 0);
    let prints: Vec<usize> = ops
        .iter()
        .enumerate()
        .filter(|(_, o)| matches!(o, Op::CallPrint(_)))
        .map(|(i, _)| i)
        .collect();
    assert_eq!(prints.len(), 2);
    let and_at = ops
        .iter()
        .position(|o| matches!(o, Op::Binary { lowering: Lowering::LogicAnd, .. }))
        .unwrap();
    assert!(prints[1] < and_at);
    assert!(!ops.iter().any(|o| matches!(o, Op::Brif { .. })));
}

#[test]
fn inner_binding_inside_outer_after() {
    let ops = plan_of(
        "func main() { let x = 1; if 1 { let x = 2; print(x); } return x; }",
        0,
    );
    // x outside is variable 0, x inside is variable 1.
    let inner_use = ops.iter().position(|o| matches!(o, Op::UseVar(1))).unwrap();
    let last_use = ops.iter().rposition(|o| matches!(o, Op::UseVar(_))).unwrap();
    assert!(inner_use < last_use);
    assert!(matches!(ops[last_use], Op::UseVar(0)));
}

#[test]
fn operator_lowerings() {
    assert_eq!(lower_binop(BinOp::Add), Lowering::Arith(ArithOp::Iadd));
    assert_eq!(lower_binop(BinOp::Div), Lowering::Arith(ArithOp::Sdiv));
    assert_eq!(lower_binop(BinOp::Mod), Lowering::Arith(ArithOp::Srem));
    assert_eq!(lower_binop(BinOp::Le), Lowering::Compare(IntCond::SignedLessThanOrEqual));
    assert_eq!(lower_binop(BinOp::Ne), Lowering::Compare(IntCond::NotEqual));
    assert_eq!(lower_binop(BinOp::Or), Lowering::LogicOr);
}

#[test]
fn var_table_scopes() {
    let mut t = VarTable::new();
    let x = "x".to_string();
    assert_eq!(t.lookup(&x), None);
    let outer = t.declare(x.clone());
    assert_eq!(outer, 0);
    let mark = t.scope_mark();
    let inner = t.declare(x.clone());
    assert_eq!(inner, 1);
    assert_eq!(t.lookup(&x), Some(1));
    t.leave_scope(mark);
    assert_eq!(t.lookup(&x), Some(0));
    assert_eq!(t.count(), 2);
    assert_eq!(t.declare("y".to_string()), 2);
}

#[test]
fn signed_division_and_remainder_plan() {
    let ops = plan_of("func main() { return -7 / 2 * 10 + -7 % 2; }", 0);
    assert!(ops.iter().any(|o| matches!(o, Op::Binary { lowering: Lowering::Arith(ArithOp::Sdiv), .. })));
    assert!(ops.iter().any(|o| matches!(o, Op::Binary { lowering: Lowering::Arith(ArithOp::Srem), .. })));
    assert_eq!(ops.iter().filter(|o| matches!(o, Op::Neg(_))).count(), 2);
}

#[test]
fn nested_return_ends_its_block() {
    let ops = plan_of(
        "func main() { let a = 1; let b = 0; if a && !b { if a || b { return 1; } } return 0; }",
        0,
    );
    assert_eq!(ops.iter().filter(|o| matches!(o, Op::Return(_))).count(), 2);
    assert!(matches!(ops[ops.len() - 1], Op::Return(_)));
    assert!(ops.iter().any(|o| matches!(o, Op::Not(_))));
}
