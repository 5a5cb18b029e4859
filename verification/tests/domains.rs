use opt_eqsat::ast::{BinaryOp, UnaryOp};
use opt_eqsat::domains::{Interval, UnionFind};

fn iv(low: i64, high: i64) -> Interval {
    Interval::from_option_low_high(Some(low), Some(high))
}

#[test]
fn interval_constructors() {
    assert_eq!(Interval::top(), Interval { low: i64::MIN, high: i64::MAX });
    assert!(Interval::bottom().is_bottom());
    assert_eq!(Interval::from_constant(4), iv(4, 4));
    assert_eq!(Interval::from_low(3), Interval { low: 3, high: i64::MAX });
    assert_eq!(Interval::from_high(3), Interval { low: i64::MIN, high: 3 });
    assert_eq!(Interval::from_option_low_high(None, Some(2)), Interval::from_high(2));
    assert_eq!(Interval::from_option_low_high(Some(5), Some(2)), Interval::bottom());
}

#[test]
fn interval_predicates() {
    assert!(iv(0, 0).is_zero());
    assert!(Interval::bottom().is_zero());
    assert!(!iv(0, 1).is_zero());
    assert!(iv(7, 7).is_cons(7));
    assert!(!iv(6, 7).is_cons(7));
    assert!(!iv(6, 7).is_bottom());
}

#[test]
fn join_is_least_upper_bound() {
    let a = iv(1, 3);
    let b = iv(5, 7);
    let j = a.join(&b);
    assert_eq!(j, iv(1, 7));
    assert!(a.leq(&j) && b.leq(&j));
    assert!(j.leq(&iv(0, 8)));
    assert_eq!(a.join(&Interval::bottom()), a);
}

#[test]
fn meet_is_intersection() {
    assert_eq!(iv(1, 5).meet(&iv(3, 9)), iv(3, 5));
    assert!(iv(1, 2).meet(&iv(3, 9)).is_bottom());
    assert_eq!(iv(1, 2).meet(&iv(3, 9)), Interval::bottom());
}

#[test]
fn widen_goes_to_infinity() {
    assert_eq!(iv(0, 5).widen(&iv(0, 6)), Interval::from_low(0));
    assert_eq!(iv(0, 5).widen(&iv(-1, 5)), Interval::from_high(5));
    assert_eq!(iv(0, 5).widen(&iv(1, 4)), iv(0, 5));
    assert_eq!(Interval::bottom().widen(&iv(1, 4)), iv(1, 4));
}

#[test]
fn forward_unary_values() {
    assert_eq!(iv(1, 3).forward_unary(UnaryOp::Neg), iv(-3, -1));
    assert_eq!(Interval::from_high(3).forward_unary(UnaryOp::Neg), Interval::top());
    assert_eq!(iv(0, 0).forward_unary(UnaryOp::Not), iv(1, 1));
    assert_eq!(iv(1, 5).forward_unary(UnaryOp::Not), iv(0, 0));
    assert_eq!(iv(-1, 5).forward_unary(UnaryOp::Not), iv(0, 1));
    assert!(Interval::bottom().forward_unary(UnaryOp::Neg).is_bottom());
}

#[test]
fn forward_binary_values() {
    assert_eq!(iv(1, 2).forward_binary(&iv(3, 4), BinaryOp::Add), iv(4, 6));
    assert_eq!(iv(1, 2).forward_binary(&iv(3, 4), BinaryOp::Sub), iv(-3, -1));
    assert_eq!(iv(-2, 3).forward_binary(&iv(4, 5), BinaryOp::Mul), iv(-10, 15));
    assert_eq!(iv(1, 2).forward_binary(&iv(3, 4), BinaryOp::LT), iv(1, 1));
    assert_eq!(iv(1, 5).forward_binary(&iv(3, 4), BinaryOp::LT), iv(0, 1));
    assert_eq!(iv(3, 3).forward_binary(&iv(3, 3), BinaryOp::EE), iv(1, 1));
    assert_eq!(iv(3, 3).forward_binary(&iv(4, 9), BinaryOp::NE), iv(1, 1));
    assert!(iv(1, 2).forward_binary(&Interval::bottom(), BinaryOp::Add).is_bottom());
}

#[test]
fn forward_binary_holds_results() {
    let a = iv(-3, 4);
    let b = iv(-2, 6);
    let ops = [
        BinaryOp::Add,
        BinaryOp::Sub,
        BinaryOp::Mul,
        BinaryOp::EE,
        BinaryOp::NE,
        BinaryOp::LT,
        BinaryOp::LE,
        BinaryOp::GT,
        BinaryOp::GE,
    ];
    for op in ops {
        let r = a.forward_binary(&b, op);
        for x in -3..=4i64 {
            for y in -2..=6i64 {
                let v = match op {
                    BinaryOp::Add => x + y,
                    BinaryOp::Sub => x - y,
                    BinaryOp::Mul => x * y,
                    BinaryOp::EE => (x == y) as i64,
                    BinaryOp::NE => (x != y) as i64,
                    BinaryOp::LT => (x < y) as i64,
                    BinaryOp::LE => (x <= y) as i64,
                    BinaryOp::GT => (x > y) as i64,
                    BinaryOp::GE => (x >= y) as i64,
                };
                assert!(Interval::from_constant(v).leq(&r));
            }
        }
    }
}

#[test]
fn constant_leq_is_membership() {
    assert!(Interval::from_constant(3).leq(&iv(1, 5)));
    assert!(!Interval::from_constant(3).leq(&iv(4, 5)));
    assert!(Interval::bottom().leq(&iv(4, 5)));
}

#[test]
fn union_find_basics() {
    let mut uf = UnionFind::from_num_ids(4);
    assert_eq!(uf.num_ids(), 4);
    assert_eq!(uf.num_classes(), 4);
    assert!(!uf.query(0, 1));
    uf.union(0, 1);
    assert!(uf.query(0, 1));
    assert_eq!(uf.num_classes(), 3);
    uf.union(1, 0);
    assert_eq!(uf.num_classes(), 3);
    uf.union(2, 3);
    uf.union(3, 0);
    assert_eq!(uf.num_classes(), 1);
    assert!(uf.query(2, 1));
    let r = uf.find(3);
    assert_eq!(uf.find(0), r);
    assert_eq!(uf.root_of(2), r);
    let id = uf.mk();
    assert_eq!(id, 4);
    assert_eq!(uf.num_classes(), 2);
    assert!(!uf.query(4, 0));
}

#[test]
fn union_find_new_is_empty() {
    let mut uf = UnionFind::new();
    assert_eq!(uf.num_ids(), 0);
    assert_eq!(uf.num_classes(), 0);
    assert_eq!(uf.mk(), 0);
    assert_eq!(uf.find(0), 0);
}
