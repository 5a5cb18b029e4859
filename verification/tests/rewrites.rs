use std::collections::HashSet;

use opt_eqsat::analyses::{outer_fixpoint, Analyses};
use opt_eqsat::ast::BinaryOp;
use opt_eqsat::domains::{ClassId, Interval};
use opt_eqsat::grammar::ProgramParser;
use opt_eqsat::rewrites::{optimistic_equality_saturation, saturate};
use opt_eqsat::ssa::{dce, naive_ssa_translation, SSAGraph, SSAValue};

fn distinct_roots(ssa: &SSAGraph) -> usize {
    ssa.roots.iter().map(|(_, root)| *root).collect::<HashSet<_>>().len()
}

fn test_roots_eq(program: &str) {
    let parsed = ProgramParser::new().parse(program).unwrap();
    assert_eq!(parsed.len(), 1);
    let (mut ssa, mut cfg) = naive_ssa_translation(&parsed[0]);
    dce(&mut ssa, &cfg);
    let analyses = outer_fixpoint(&ssa, &cfg).0;
    saturate(&mut ssa, &mut cfg, &analyses, 3);
    assert_eq!(distinct_roots(&ssa), 1);
}

fn opt_eqsat(
    program: &str,
    max_outer_iters: usize,
    max_rewrite_iters: usize,
) -> (SSAGraph, Analyses, ClassId) {
    let parsed = ProgramParser::new().parse(program).unwrap();
    assert_eq!(parsed.len(), 1);
    let (mut ssa, mut cfg) = naive_ssa_translation(&parsed[0]);
    dce(&mut ssa, &cfg);
    let result =
        optimistic_equality_saturation(&mut ssa, &mut cfg, max_outer_iters, max_rewrite_iters);
    assert_eq!(distinct_roots(&ssa), 1);
    let root = ssa.roots[0].1;
    (ssa, result, root)
}

#[test]
fn rewrite1() {
    let program = r#"
fn test(x) { if x { return x + x; } else { return 2 * x; } }
"#;
    test_roots_eq(program);
}

#[test]
fn rewrite2() {
    let program = r#"
fn test(x) { if x { y = 2; } else { y = 1 + 1; } y = y - 1; z = x + 1; if x { return y * z; } else { return z; } }
"#;
    test_roots_eq(program);
}

#[test]
#[should_panic]
fn bad_rewrite1() {
    let program = r#"
fn test(x) { if x { return x + x + x; } else { return 2 * x; } }
"#;
    test_roots_eq(program);
}

#[test]
fn opt_eqsat1() {
    let program = r#"
fn test() { x = 1; while 1 { x = x + (1 * 5); } return x; }
"#;
    let (ssa, result, root) = opt_eqsat(program, 2, 2);
    let one = ssa.lookup(SSAValue::Constant(1)).unwrap();
    let five = ssa.lookup(SSAValue::Constant(5)).unwrap();
    assert_eq!(
        ssa.lookup(SSAValue::Binary(BinaryOp::Mul, one, five)).unwrap(),
        five
    );
    assert_eq!(result.intervals[root].unwrap(), Interval::from_low(1),);
}

#[test]
fn opt_eqsat2() {
    let program = r#"
fn test(a, b, c) { if a { return a + (b + c); } else { return (a + b) + c; } }
"#;
    opt_eqsat(program, 2, 2);
}

#[test]
fn opt_eqsat3() {
    let program = r#"
fn test(a, b, c) { if a { return a * (b + c); } else { return a * b + a * c; } }
"#;
    opt_eqsat(program, 2, 2);
}

#[test]
fn opt_eqsat4() {
    let program = r#"
fn test(a, b) { if a { return a; } else { return (a + b) - b; } }
"#;
    opt_eqsat(program, 2, 2);
}

#[test]
fn opt_eqsat5() {
    let program = r#"
fn test(y) { x = -6; while y < 10 { y = y + 1; x = x + 8; x = x - 8; } return x + 2; }
"#;
    let (_, analyses, root) = opt_eqsat(program, 2, 2);
    assert!(analyses.intervals[root].unwrap().is_cons(-4));
}

#[test]
fn opt_eqsat6() {
    let program = r#"
fn test(y) { x = -6; z = 42; while y < 10 { y = y + 1; x = x + 8; if x != 2 { z = 24; } x = x - 8; } return z + 7; }
"#;
    let (_, analyses, root) = opt_eqsat(program, 2, 2);
    assert!(analyses.intervals[root].unwrap().is_cons(49));
}

#[test]
fn opt_eqsat7() {
    let program = r#"
fn test(y, z) { if y { return ((2 + y) + z) * y; } else { return 2 * y + (y * y + z * y); } }
"#;
    opt_eqsat(program, 2, 2);
}

#[test]
fn opt_eqsat8() {
    let program = r#"
fn test(y) { z = 42; while 1 { if y != y { z = 24; } } return z + 3; }
"#;
    let (_, analyses, root) = opt_eqsat(program, 2, 2);
    assert!(analyses.intervals[root].unwrap().is_cons(45));
}

#[test]
fn opt_eqsat9() {
    let program = r#"
fn test(x) { y = x; while 1 { x = x + 1; y = y + 1; } return x - y; }
"#;
    let (ssa, _, root) = opt_eqsat(program, 2, 2);
    let correct = ssa.lookup(SSAValue::Constant(0)).unwrap();
    assert_eq!(root, correct);
}

#[test]
fn opt_eqsat10() {
    let program = r#"
fn test(x) { y = x; while 1 { xt = x; x = x + 1; y = xt + 1; } return x - y; }
"#;
    let (ssa, _, root) = opt_eqsat(program, 2, 2);
    let correct = ssa.lookup(SSAValue::Constant(0)).unwrap();
    assert_eq!(root, correct);
}

#[test]
fn opt_eqsat11() {
    let program = r#"
fn test(x) { y = x; while 1 { xt = x; x = y + 1; y = xt + 1; } return x - y; }
"#;
    let (ssa, _, root) = opt_eqsat(program, 2, 2);
    let correct = ssa.lookup(SSAValue::Constant(0)).unwrap();
    assert_eq!(root, correct);
}

#[test]
fn opt_eqsat12() {
    let program = r#"
fn test(x) { y = x; while 1 { x = x + x; y = 2 * y; } return x - y; }
"#;
    let (ssa, _, root) = opt_eqsat(program, 2, 2);
    let correct = ssa.lookup(SSAValue::Constant(0)).unwrap();
    assert_eq!(root, correct);
}

#[test]
fn opt_eqsat13() {
    let program = r#"
fn test(y) {
while y {
    y = y + 1;
    if ((2 + y) * y) != (2 * y + y * y) {}
}
return y;
}
"#;
    opt_eqsat(program, 2, 2);
}

#[test]
fn opt_eqsat14() {
    let program = r#"
fn test() { v0 = 0; while v0 { if 1 { } else { } } return 0; }
"#;
    let (_, analyses, root) = opt_eqsat(program, 2, 2);
    assert_eq!(analyses.intervals[root].unwrap(), Interval::from_constant(0));
}

#[test]
fn opt_eqsat15() {
    let program = r#"
fn test() { v0 = 0; while v0 { if 23 { v0 = 44; } } return !-34; }
"#;
    let (_, analyses, root) = opt_eqsat(program, 2, 2);
    assert_eq!(analyses.intervals[root].unwrap(), Interval::from_constant(0));
}

#[test]
fn opt_eqsat16() {
    let program = r#"
fn test() { v0 = 0; while v0 { while (v0 - v0) { } } return v0 + 0; }
"#;
    let (_, analyses, root) = opt_eqsat(program, 2, 2);
    assert_eq!(analyses.intervals[root].unwrap(), Interval::from_constant(0));
}

#[test]
#[should_panic]
fn bad_opt_eqsat1() {
    let program = r#"
fn test(a, b, c) { if a { return a + (b + c); } else { return (a + b) + a; } }
"#;
    opt_eqsat(program, 2, 2);
}

#[test]
fn paper_example1() {
    let program = r#"
fn example1(y) {
x = -6;
z = 42;
while y < 10 {
    y = y + 1;
    x = x + 8;
    if (((x + y) + z) * y) != (2 * y + (y * y + z * y)) {
        z = 24;
    }
    x = x - 8;
}
return z + 7;
}
"#;
    let (_, analyses, root) = opt_eqsat(program, 2, 3);
    assert!(analyses.intervals[root].unwrap().is_cons(49));
}

#[test]
fn paper_example2() {
    let program = r#"
fn example2(x) {
y = x;
while y < 10 {
    xt = x;
    x = y * y + y * 5;
    y = xt * (y + 5 + 0);
}

return x - y;
}
"#;
    let (_, analyses, root) = opt_eqsat(program, 2, 2);
    assert!(analyses.intervals[root].unwrap().is_cons(0));
}

#[test]
fn saturate_reports_changes() {
    let parsed = ProgramParser::new().parse("fn t(x) return x;").unwrap();
    let (mut ssa, mut cfg) = naive_ssa_translation(&parsed[0]);
    dce(&mut ssa, &cfg);
    let analyses = outer_fixpoint(&ssa, &cfg).0;
    let before = ssa.num_values();
    assert!(!saturate(&mut ssa, &mut cfg, &analyses, 0));
    assert!(!saturate(&mut ssa, &mut cfg, &analyses, 4));
    assert_eq!(ssa.num_values(), before);

    let parsed = ProgramParser::new().parse("fn t(x, y) return x + y;").unwrap();
    let (mut ssa, mut cfg) = naive_ssa_translation(&parsed[0]);
    dce(&mut ssa, &cfg);
    let analyses = outer_fixpoint(&ssa, &cfg).0;
    assert!(saturate(&mut ssa, &mut cfg, &analyses, 4));
    let x = ssa.lookup(SSAValue::Param(0)).unwrap();
    let y = ssa.lookup(SSAValue::Param(1)).unwrap();
    let root = ssa.roots[0].1;
    assert_eq!(ssa.lookup(SSAValue::Binary(BinaryOp::Add, x, y)), Some(root));
    assert_eq!(ssa.lookup(SSAValue::Binary(BinaryOp::Add, y, x)), Some(root));
}

#[test]
fn saturation_merges_zero_addition() {
    let parsed = ProgramParser::new().parse("fn t(x) return x + 0;").unwrap();
    let (mut ssa, mut cfg) = naive_ssa_translation(&parsed[0]);
    dce(&mut ssa, &cfg);
    let analyses = optimistic_equality_saturation(&mut ssa, &mut cfg, 2, 2);
    let root = ssa.roots[0].1;
    assert_eq!(ssa.lookup(SSAValue::Param(0)), Some(root));
    assert_eq!(analyses.intervals[root], Some(Interval::top()));
}
