use rand::rngs::Xoshiro128PlusPlus;
use rand::SeedableRng;

use opt_eqsat::analyses::{standard_eclass_analysis, Analyses};
use opt_eqsat::ast::{ExprAST, StmtAST};
use opt_eqsat::domains::Interval;
use opt_eqsat::ast::{BinaryOp, UnaryOp};
use opt_eqsat::generate::{binary_op_for, generate, sample_binary_op, sample_unary_op, unary_op_for};
use opt_eqsat::rewrites::optimistic_equality_saturation;
use opt_eqsat::ssa::{dce, interpret, is_well_scoped, naive_ssa_translation, BlockId, SSAGraph};

fn check(ssa: &SSAGraph, analyses: &Analyses, block: BlockId, output: i64, iter: u64) {
    assert_eq!(analyses.unreachable_blocks[block], Some(false));
    let root = ssa
        .roots
        .iter()
        .find(|(b, _)| *b == block)
        .map(|(_, r)| *r)
        .unwrap();
    let interval = analyses.intervals[root].unwrap();
    assert!(
        Interval::from_constant(output).leq(&interval),
        "Check failed at iter {}",
        iter
    );
}

#[test]
fn generated() {
    for i in 0..1000u64 {
        let mut rng = Xoshiro128PlusPlus::seed_from_u64(i);
        let program = generate(10, &mut rng);
        let (mut ssa, mut cfg) = naive_ssa_translation(&program);
        dce(&mut ssa, &cfg);
        let result = interpret(&ssa, &cfg, &[], 100);
        let analyses1 = optimistic_equality_saturation(&mut ssa, &mut cfg, 2, 2);
        let analyses2 = standard_eclass_analysis(&ssa, &cfg).0;
        if let Some((block, output)) = result {
            check(&ssa, &analyses1, block, output, i);
            check(&ssa, &analyses2, block, output, i);
        }
    }
}

#[test]
fn generated_programs_are_well_scoped() {
    for i in 0..200u64 {
        let mut rng = Xoshiro128PlusPlus::seed_from_u64(i);
        let program = generate(20, &mut rng);
        assert_eq!(program.name, "generated");
        assert!(program.params.is_empty());
        assert!(is_well_scoped(&program));
    }
}

#[test]
fn generated_program_ends_in_return() {
    let mut rng = Xoshiro128PlusPlus::seed_from_u64(7);
    let program = generate(0, &mut rng);
    match program.body {
        StmtAST::Block(stmts) => {
            assert_eq!(stmts.len(), 1);
            assert!(matches!(stmts[0], StmtAST::Return(_)));
        }
        _ => panic!("body is not a block"),
    }
}

#[test]
fn generated_numbers_are_small() {
    fn small(e: &ExprAST) -> bool {
        match e {
            ExprAST::Number(n) => -100 < *n && *n < 100,
            ExprAST::Variable(_) => true,
            ExprAST::Unary(_, x) => small(x),
            ExprAST::Binary(_, l, r) => small(l) && small(r),
        }
    }
    fn stmt_small(s: &StmtAST) -> bool {
        match s {
            StmtAST::Block(v) => v.iter().all(stmt_small),
            StmtAST::Assign(_, e) => small(e),
            StmtAST::IfElse(c, t, e) => small(c) && stmt_small(t) && stmt_small(e),
            StmtAST::While(c, b) => small(c) && stmt_small(b),
            StmtAST::Return(e) => small(e),
        }
    }
    for i in 0..50u64 {
        let mut rng = Xoshiro128PlusPlus::seed_from_u64(i);
        let program = generate(15, &mut rng);
        assert!(stmt_small(&program.body));
    }
}

#[test]
fn sampled_operators_vary() {
    let mut rng = Xoshiro128PlusPlus::seed_from_u64(3);
    let mut binary = Vec::new();
    let mut unary = Vec::new();
    for _ in 0..200 {
        let op = sample_binary_op(&mut rng);
        if !binary.contains(&op) {
            binary.push(op);
        }
        let op = sample_unary_op(&mut rng);
        if !unary.contains(&op) {
            unary.push(op);
        }
    }
    assert_eq!(binary.len(), 9);
    assert_eq!(unary.len(), 2);
}

#[test]
fn draws_map_to_operators() {
    assert_eq!(binary_op_for(0), BinaryOp::Add);
    assert_eq!(binary_op_for(10), BinaryOp::Sub);
    assert_eq!(binary_op_for(2), BinaryOp::Mul);
    assert_eq!(binary_op_for(21), BinaryOp::EE);
    assert_eq!(binary_op_for(4), BinaryOp::NE);
    assert_eq!(binary_op_for(5), BinaryOp::LT);
    assert_eq!(binary_op_for(6), BinaryOp::LE);
    assert_eq!(binary_op_for(7), BinaryOp::GT);
    assert_eq!(binary_op_for(8), BinaryOp::GE);
    assert_eq!(binary_op_for(u32::MAX), BinaryOp::EE);
    assert_eq!(unary_op_for(true), UnaryOp::Neg);
    assert_eq!(unary_op_for(false), UnaryOp::Not);
}
