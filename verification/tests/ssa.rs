use opt_eqsat::grammar::ProgramParser;
use opt_eqsat::ast::{BinaryOp, UnaryOp};
use opt_eqsat::ssa::{
    decode_key, dce, encode_value, interpret, is_well_scoped, naive_ssa_translation, SSAValue,
};

fn interpret_helper(program: &str, args: &[i64]) -> i64 {
    let parsed = ProgramParser::new().parse(program).unwrap();
    assert_eq!(parsed.len(), 1);
    let (mut ssa, cfg) = naive_ssa_translation(&parsed[0]);
    dce(&mut ssa, &cfg);
    interpret(&ssa, &cfg, args, 1000).unwrap().1
}

#[test]
fn interpret1() {
    let program = r#"
fn test(x) { return x + 1; }
"#;
    assert_eq!(interpret_helper(program, &[42]), 43);
}

#[test]
fn interpret2() {
    let program = r#"
fn test(x, y) { while x < y { x = x + 1; } return x; }
"#;
    assert_eq!(interpret_helper(program, &[24, 42]), 42);
}

#[test]
fn interpret3() {
    let program = r#"
fn test(x, y) { if x < y { return x + y; } else { y = 42; } return x - y; }
"#;
    assert_eq!(interpret_helper(program, &[73, 9]), 31);
}

#[test]
fn interpret4() {
    let program = r#"
fn test(x) { while x { while x { return 24; } } return x; }
"#;
    assert_eq!(interpret_helper(program, &[42]), 24);
}

#[test]
fn translation_rejects_undefined_reads() {
    let parsed = ProgramParser::new()
        .parse("fn test(x) { if x { y = 1; } return y; }")
        .unwrap();
    assert!(!is_well_scoped(&parsed[0]));
    let parsed = ProgramParser::new()
        .parse("fn test(x) { if x { y = 1; } else { y = 2; } return y; }")
        .unwrap();
    assert!(is_well_scoped(&parsed[0]));
    let parsed = ProgramParser::new()
        .parse("fn test(x) { if x { return 3; } else { y = 2; } return y; }")
        .unwrap();
    assert!(is_well_scoped(&parsed[0]));
}

#[test]
fn translation_has_one_root_per_return() {
    let parsed = ProgramParser::new()
        .parse("fn test(x) { if x { return 1; } return 2; }")
        .unwrap();
    let (ssa, cfg) = naive_ssa_translation(&parsed[0]);
    assert_eq!(ssa.roots.len(), 2);
    assert!(cfg.len() >= 3);
    assert!(cfg[0].is_empty());
}

#[test]
fn dce_removes_unused_values() {
    let parsed = ProgramParser::new()
        .parse("fn test(x) { y = x * 7; z = y + 3; return x; }")
        .unwrap();
    let (mut ssa, cfg) = naive_ssa_translation(&parsed[0]);
    let before = ssa.num_values();
    dce(&mut ssa, &cfg);
    let after = ssa.num_values();
    assert!(after < before);
    assert_eq!(after, 1);
    assert_eq!(ssa.lookup(SSAValue::Param(0)), Some(ssa.roots[0].1));
    assert_eq!(ssa.lookup(SSAValue::Constant(7)), None);
}

#[test]
fn interpret_runs_out_of_juice() {
    let parsed = ProgramParser::new()
        .parse("fn test(x) { while 1 { x = x + 1; } return x; }")
        .unwrap();
    let (mut ssa, cfg) = naive_ssa_translation(&parsed[0]);
    dce(&mut ssa, &cfg);
    assert_eq!(interpret(&ssa, &cfg, &[0], 50), None);
}

#[test]
fn value_kinds() {
    let c = SSAValue::Constant(3);
    let p = SSAValue::Param(1);
    let phi = SSAValue::Phi(2, 4, 5);
    let u = SSAValue::Unary(UnaryOp::Neg, 6);
    let b = SSAValue::Binary(BinaryOp::Sub, 7, 8);
    assert!(c.is_constant() && !c.is_param());
    assert!(p.is_param() && !p.is_constant());
    assert_eq!(phi.try_phi(), Some((2, 4, 5)));
    assert_eq!(b.try_phi(), None);
    assert_eq!(c.uses(), Vec::<usize>::new());
    assert_eq!(u.uses(), vec![6]);
    assert_eq!(b.uses(), vec![7, 8]);
    let mut m = SSAValue::Binary(BinaryOp::Add, 1, 2);
    m.map_uses(|x| x + 10);
    assert_eq!(m, SSAValue::Binary(BinaryOp::Add, 11, 12));
    let mut m = SSAValue::Constant(9);
    m.map_uses(|x| x + 10);
    assert_eq!(m, SSAValue::Constant(9));
}

#[test]
fn keys_round_trip() {
    let values = [
        SSAValue::Constant(-3),
        SSAValue::Param(1),
        SSAValue::Phi(2, 4, 5),
        SSAValue::Unary(UnaryOp::Not, 6),
        SSAValue::Binary(BinaryOp::GE, 7, 8),
    ];
    for v in values {
        assert_eq!(decode_key(encode_value(v)), v);
    }
    assert_ne!(
        encode_value(SSAValue::Binary(BinaryOp::Add, 1, 2)),
        encode_value(SSAValue::Binary(BinaryOp::Sub, 1, 2))
    );
}

#[test]
fn more_juice_keeps_the_result() {
    let parsed = ProgramParser::new()
        .parse("fn test(x, y) { while x < y { x = x + 1; } return x; }")
        .unwrap();
    let (mut ssa, cfg) = naive_ssa_translation(&parsed[0]);
    dce(&mut ssa, &cfg);
    assert_eq!(interpret(&ssa, &cfg, &[0, 10], 3), None);
    let r = interpret(&ssa, &cfg, &[0, 10], 100);
    assert!(r.is_some());
    assert_eq!(r.unwrap().1, 10);
    assert_eq!(interpret(&ssa, &cfg, &[0, 10], 1000), r);
}

#[test]
fn translation_of_if_else_builds_diamond() {
    let parsed = ProgramParser::new()
        .parse("fn test(x) { if x { y = 3; } else { y = 5; } return y; }")
        .unwrap();
    let (ssa, cfg) = naive_ssa_translation(&parsed[0]);
    let p = ssa.lookup(SSAValue::Param(0)).unwrap();
    let n = ssa.lookup(SSAValue::Unary(UnaryOp::Not, p)).unwrap();
    let o = ssa.lookup(SSAValue::Constant(1)).unwrap();
    let three = ssa.lookup(SSAValue::Constant(3)).unwrap();
    let five = ssa.lookup(SSAValue::Constant(5)).unwrap();
    let phi = ssa.lookup(SSAValue::Phi(3, three, five)).unwrap();
    assert_eq!(cfg.len(), 4);
    assert!(cfg[0].is_empty());
    assert_eq!(cfg[1], vec![(0, p, false)]);
    assert_eq!(cfg[2], vec![(0, n, false)]);
    assert_eq!(cfg[3], vec![(1, o, false), (2, o, false)]);
    assert_eq!(ssa.roots, vec![(3, phi)]);
}

#[test]
fn translation_roots_follow_returns() {
    let parsed = ProgramParser::new().parse("fn test(x) { y = x; }").unwrap();
    let (ssa, _) = naive_ssa_translation(&parsed[0]);
    assert!(ssa.roots.is_empty());
    let parsed = ProgramParser::new()
        .parse("fn test(x) { while x { return 1; } y = 2; }")
        .unwrap();
    let (ssa, _) = naive_ssa_translation(&parsed[0]);
    assert_eq!(ssa.roots.len(), 1);
}

#[test]
fn translated_blocks_are_settled() {
    let parsed = ProgramParser::new()
        .parse("fn test(x, y) { while x < y { if x { x = x + 2; } else { x = x + 1; } } return x; }")
        .unwrap();
    let (ssa, cfg) = naive_ssa_translation(&parsed[0]);
    assert!(cfg[0].is_empty());
    for b in 1..cfg.len() {
        assert!(!cfg[b].is_empty() && cfg[b].len() <= 2);
        assert!(!cfg[b][0].2);
        for &(pred, cond, back) in &cfg[b] {
            if back {
                assert!(pred > b);
            } else {
                assert!(pred < b);
            }
            assert!(cond < ssa.uf.num_ids());
        }
    }
    assert!(cfg.iter().any(|preds| preds.iter().any(|p| p.2)));
}
