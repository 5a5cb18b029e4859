use opt_eqsat::analyses::{
    dependents, outer_fixpoint, standard_eclass_analysis, AnalysisStatistics, Analyses,
};
use opt_eqsat::domains::Interval;
use opt_eqsat::grammar::ProgramParser;
use opt_eqsat::ssa::{dce, naive_ssa_translation};

fn acyclic_test_interval(program: &str, low: Option<i64>, high: Option<i64>) {
    let parsed = ProgramParser::new().parse(program).unwrap();
    assert_eq!(parsed.len(), 1);
    let (mut ssa, cfg) = naive_ssa_translation(&parsed[0]);
    dce(&mut ssa, &cfg);
    assert_eq!(ssa.roots.len(), 1);
    let root = ssa.roots[0].1;
    let dependents = dependents(&ssa, &cfg);
    let mut analysis = Analyses::top(ssa.uf.num_ids());
    let mut statistics = AnalysisStatistics::new(0, 0, 0, 0);
    analysis.inner_fixpoint(&cfg, &dependents, None, &mut statistics);
    assert_eq!(
        analysis.intervals[root].unwrap(),
        Interval::from_option_low_high(low, high)
    );
}

fn cyclic_test_interval(program: &str, low: Option<i64>, high: Option<i64>) {
    let parsed = ProgramParser::new().parse(program).unwrap();
    assert_eq!(parsed.len(), 1);
    let (mut ssa, cfg) = naive_ssa_translation(&parsed[0]);
    dce(&mut ssa, &cfg);
    assert_eq!(ssa.roots.len(), 1);
    let root = ssa.roots[0].1;
    let analysis = outer_fixpoint(&ssa, &cfg).0;
    assert_eq!(
        analysis.intervals[root].unwrap(),
        Interval::from_option_low_high(low, high)
    );
}

fn cyclic_test_gvn(program: &str) {
    let parsed = ProgramParser::new().parse(program).unwrap();
    assert_eq!(parsed.len(), 1);
    let (mut ssa, cfg) = naive_ssa_translation(&parsed[0]);
    dce(&mut ssa, &cfg);
    assert_eq!(ssa.roots.len(), 2);
    let root1 = ssa.roots[0].1;
    let root2 = ssa.roots[1].1;
    let mut analysis = outer_fixpoint(&ssa, &cfg).0;
    assert!(analysis.value_number_uf.query(root1, root2));
}

fn cyclic_test_interval_multiroot(program: &str, low: Option<i64>, high: Option<i64>) {
    let parsed = ProgramParser::new().parse(program).unwrap();
    assert_eq!(parsed.len(), 1);
    let (mut ssa, cfg) = naive_ssa_translation(&parsed[0]);
    dce(&mut ssa, &cfg);
    let analysis = outer_fixpoint(&ssa, &cfg).0;
    for (block, root) in &ssa.roots {
        if !analysis.unreachable_blocks[*block].unwrap() {
            assert_eq!(
                analysis.intervals[*root].unwrap(),
                Interval::from_option_low_high(low, high)
            );
        }
    }
}

#[test]
fn acyclic_analysis1() {
    let program = r#"
fn test() { if 1 { x = 5; } else { x = 9; } return x; }
"#;
    acyclic_test_interval(program, Some(5), Some(5));
}

#[test]
fn acyclic_analysis2() {
    let program = r#"
fn test() { x = 5; if x < 3 { y = 7; } else { y = 9; } return y; }
"#;
    acyclic_test_interval(program, Some(9), Some(9));
}

#[test]
fn acyclic_analysis3() {
    let program = r#"
fn test() { x = 5; y = x + 7; if y > x { y = 3; } return y; }
"#;
    acyclic_test_interval(program, Some(3), Some(3));
}

#[test]
fn acyclic_analysis4() {
    let program = r#"
fn test(x) { if x { y = 3; } else { y = 5; } return y; }
"#;
    acyclic_test_interval(program, Some(3), Some(5));
}

#[test]
fn acyclic_analysis5() {
    let program = r#"
fn test(x) { y = 7; while x - y { y = y + 1; } return y; }
"#;
    acyclic_test_interval(program, Some(7), Some(7));
}

#[test]
fn cyclic_analysis1() {
    let program = r#"
fn test() { x = -10; while x { x = x + 1; } return x; }
"#;
    cyclic_test_interval(program, Some(-10), None);
}

#[test]
fn cyclic_analysis2() {
    let program = r#"
fn test(y) { x = -10; while y { y = y + 1; if y == 7 { x = 10; } } return x; }
"#;
    cyclic_test_interval(program, Some(-10), None);
}

#[test]
fn cyclic_analysis3() {
    let program = r#"
fn test(y) { x = 10; while y { y = y + 1; if y == 7 { x = -10; } } return x; }
"#;
    cyclic_test_interval(program, None, Some(10));
}

#[test]
fn cyclic_analysis4() {
    let program = r#"
fn test(x) { a = x; b = x; while x {} if x { return a; } else { return b; } }
"#;
    cyclic_test_gvn(program);
}

#[test]
fn cyclic_analysis5() {
    let program = r#"
fn test(x) { a = x; b = x; while x { at = a; a = b + 1; b = at + 1; } if x { return a; } else { return b; } }
"#;
    cyclic_test_gvn(program);
}

#[test]
fn cyclic_analysis6() {
    let program = r#"
fn test(x) { a = x; b = x; while x { a = a + 3; b = b + 3; a = a + 2; b = b + 2; } if x { return a; } else { return b; } }
"#;
    cyclic_test_gvn(program);
}

#[test]
fn cyclic_analysis7() {
    let program = r#"
fn test(c) { x = 0; while c { while c { x = x + 1; } } return x; }
"#;
    cyclic_test_interval(program, Some(0), None);
}

#[test]
fn cyclic_analysis8() {
    let program = r#"
fn test(c) { x = 0; while c { x = x + 1; } while c { x = x + 1; } return x; }
"#;
    cyclic_test_interval(program, Some(0), None);
}

#[test]
fn cyclic_analysis9() {
    let program = r#"
fn test(c) { x = 0; while c { while c { while c { while c { while c { while c { x = x + 1; } } } } } } return x; }
"#;
    cyclic_test_interval(program, Some(0), None);
}

#[test]
fn cyclic_analysis10() {
    let program = r#"
fn test(c) { x = 0; while c { while c { while c { while c { while c { while c { x = x + 1; } } } } } } while c { while c { while c { while c { while c { while c { x = x + 1; } } } } } } return x; }
"#;
    cyclic_test_interval(program, Some(0), None);
}

#[test]
fn cyclic_analysis11() {
    let program = r#"
fn test(c) { x = 0; while c { } return x; }
"#;
    cyclic_test_interval(program, Some(0), Some(0));
}

#[test]
fn cyclic_analysis12() {
    let program = r#"
fn test(c) { x = 0; while c { if x { return c; } else { return x; } return x; } return x; return x; return c; }
"#;
    cyclic_test_interval_multiroot(program, Some(0), Some(0));
}

#[test]
fn statistics_start_empty() {
    let s = AnalysisStatistics::new(5, 4, 3, 2);
    assert_eq!(s.num_nodes, 5);
    assert_eq!(s.num_blocks, 4);
    assert_eq!(s.num_edges, 3);
    assert_eq!(s.num_component_heads, 2);
    assert!(s.num_loop_visits.is_empty());
}

#[test]
fn statistics_of_a_loop() {
    let parsed = ProgramParser::new()
        .parse("fn test(c) { x = 0; while c { x = x + 1; } return x; }")
        .unwrap();
    let (mut ssa, cfg) = naive_ssa_translation(&parsed[0]);
    dce(&mut ssa, &cfg);
    let (analysis, stats) = outer_fixpoint(&ssa, &cfg);
    assert_eq!(stats.num_blocks, cfg.len());
    assert_eq!(stats.num_component_heads, 1);
    assert_eq!(stats.num_nodes, ssa.num_values());
    assert!(!stats.num_loop_visits.is_empty());
    let root = ssa.roots[0].1;
    assert_eq!(analysis.intervals[root].unwrap(), Interval::from_low(0));
}

#[test]
fn standard_analysis_is_not_optimistic() {
    let program = "fn test(x) { y = x; while 1 { x = x + 1; y = y + 1; } return x - y; }";
    let parsed = ProgramParser::new().parse(program).unwrap();
    let (mut ssa, cfg) = naive_ssa_translation(&parsed[0]);
    dce(&mut ssa, &cfg);
    let (analysis, _) = standard_eclass_analysis(&ssa, &cfg);
    assert_eq!(analysis.unreachable_blocks[0], Some(false));
    let root = ssa.roots[0].1;
    assert!(analysis.intervals[root].is_some());
}

#[test]
fn unreachable_branch_is_found() {
    let program = "fn test(x) { if 0 { return 1; } return 2; }";
    let parsed = ProgramParser::new().parse(program).unwrap();
    let (mut ssa, cfg) = naive_ssa_translation(&parsed[0]);
    dce(&mut ssa, &cfg);
    let analysis = outer_fixpoint(&ssa, &cfg).0;
    let mut reachable_roots = 0;
    for (block, root) in ssa.roots.iter() {
        if analysis.unreachable_blocks[*block] == Some(false) {
            reachable_roots += 1;
            assert_eq!(analysis.intervals[*root].unwrap(), Interval::from_constant(2));
        }
    }
    assert_eq!(reachable_roots, 1);
}

#[test]
fn dependents_cover_every_node() {
    let parsed = ProgramParser::new()
        .parse("fn test(a) { b = a + 1; return b * 2; }")
        .unwrap();
    let (mut ssa, cfg) = naive_ssa_translation(&parsed[0]);
    dce(&mut ssa, &cfg);
    let d = dependents(&ssa, &cfg);
    assert_eq!(d.nodes.len(), ssa.num_values());
}
