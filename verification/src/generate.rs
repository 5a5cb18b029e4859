//! Random programs for testing and benchmarking, drawn with the
//! `Xoshiro128PlusPlus` generator of the `rand` crate. Every generated
//! program reads only variables it has assigned on every path, so that it
//! can be translated into SSA form.
use vstd::prelude::*;
use vstd::string::StringExecFns;

use rand::RngExt;
use rand::rngs::Xoshiro128PlusPlus;
use rand::seq::IteratorRandom;
use rustc_hash::FxHashSet;

use crate::ast::{BinaryOp, ExprAST, FuncAST, StmtAST, UnaryOp, decimal_chars, push_decimal};
use crate::ssa::{block_scope, expr_defined, param_names, stmt_scope, well_scoped};

verus! {

#[verifier::external_type_specification]
#[verifier::external_body]
pub struct ExXoshiro128PlusPlus(Xoshiro128PlusPlus);

/// A random `u32` from the generator: `RngExt::random::<u32>`. Nothing is
/// stated of the value.
#[verifier::external_body]
fn random_u32(rng: &mut Xoshiro128PlusPlus) -> u32 {
    rng.random::<u32>()
}

/// A random `bool` from the generator: `RngExt::random::<bool>`. Nothing is
/// stated of the value.
#[verifier::external_body]
fn random_bool(rng: &mut Xoshiro128PlusPlus) -> bool {
    rng.random::<bool>()
}

/// A random `i64` from the generator: `RngExt::random::<i64>`. Nothing is
/// stated of the value.
#[verifier::external_body]
fn random_i64(rng: &mut Xoshiro128PlusPlus) -> i64 {
    rng.random::<i64>()
}

/// The names of a set of variables.
pub open spec fn scope_names(s: FxHashSet<String>) -> Set<Seq<char>> {
    s@.map(|x: String| x@)
}

/// One of the names, picked at random: `IteratorRandom::choose` on the
/// set's iterator, which is `None` exactly on an empty set and otherwise
/// one of its elements (cloned here). Which element is not stated.
#[verifier::external_body]
fn choose_name(names: &FxHashSet<String>, rng: &mut Xoshiro128PlusPlus) -> (r: Option<String>)
    ensures
        r is None <==> names@.is_empty(),
        r matches Some(s) ==> scope_names(*names).contains(s@),
{
    names.iter().choose(rng).cloned()
}

/// Adds a copy of `name` to the set: `HashSet::insert`, which keeps one
/// copy of each string.
#[verifier::external_body]
fn scope_insert(names: &mut FxHashSet<String>, name: &String)
    ensures
        scope_names(*final(names)) == scope_names(*old(names)).insert(name@),
{
    names.insert(name.clone());
}

/// A copy of the set: `HashSet::clone`, which clones every string.
#[verifier::external_body]
fn clone_scope(names: &FxHashSet<String>) -> (r: FxHashSet<String>)
    ensures
        scope_names(r) == scope_names(*names),
{
    names.clone()
}

/// The names in both sets: `HashSet::intersection`, its items cloned and
/// collected into a new set.
#[verifier::external_body]
fn intersect_scopes(a: &FxHashSet<String>, b: &FxHashSet<String>) -> (r: FxHashSet<String>)
    ensures
        scope_names(r) == scope_names(*a).intersect(scope_names(*b)),
{
    a.intersection(b).cloned().collect()
}

/// The name `v` followed by the decimal digits of `index`.
fn var_name(index: usize) -> (r: String)
    ensures
        r@ == "v"@ + decimal_chars(index as nat),
{
    let mut s = String::new();
    s.append("v");
    push_decimal(&mut s, index as u64);
    s
}

/// The kinds of statement the generator draws.
#[derive(PartialEq, Eq, Structural, Clone, Copy, Debug)]
pub enum StmtKind {
    Block,
    Assign,
    IfElse,
    While,
    Return,
}

/// The kind of statement a draw `n` stands for, by `n % 100`: below 10 a
/// block, below 50 an assignment, below 70 an `if`, below 98 a `while`, and
/// otherwise a `return`.
pub open spec fn stmt_kind_spec(n: u32) -> StmtKind {
    let k = n % 100;
    if k < 10 {
        StmtKind::Block
    } else if k < 50 {
        StmtKind::Assign
    } else if k < 70 {
        StmtKind::IfElse
    } else if k < 98 {
        StmtKind::While
    } else {
        StmtKind::Return
    }
}

/// The kind of statement the draw `n` stands for.
pub fn stmt_kind_for(n: u32) -> (k: StmtKind)
    ensures
        k == stmt_kind_spec(n),
{
    let k = n % 100;
    if k < 10 {
        StmtKind::Block
    } else if k < 50 {
        StmtKind::Assign
    } else if k < 70 {
        StmtKind::IfElse
    } else if k < 98 {
        StmtKind::While
    } else {
        StmtKind::Return
    }
}

/// The binary operator that a draw `n` stands for: `n % 9` indexes
/// `+ - * == != < <= > >=` in that order.
pub open spec fn binary_op_for_spec(n: u32) -> BinaryOp {
    let k = n % 9;
    if k == 0 {
        BinaryOp::Add
    } else if k == 1 {
        BinaryOp::Sub
    } else if k == 2 {
        BinaryOp::Mul
    } else if k == 3 {
        BinaryOp::EE
    } else if k == 4 {
        BinaryOp::NE
    } else if k == 5 {
        BinaryOp::LT
    } else if k == 6 {
        BinaryOp::LE
    } else if k == 7 {
        BinaryOp::GT
    } else {
        BinaryOp::GE
    }
}

/// The binary operator that the draw `n` stands for.
pub fn binary_op_for(n: u32) -> (op: BinaryOp)
    ensures
        op == binary_op_for_spec(n),
{
    match n % 9 {
        0 => BinaryOp::Add,
        1 => BinaryOp::Sub,
        2 => BinaryOp::Mul,
        3 => BinaryOp::EE,
        4 => BinaryOp::NE,
        5 => BinaryOp::LT,
        6 => BinaryOp::LE,
        7 => BinaryOp::GT,
        _ => BinaryOp::GE,
    }
}

/// The unary operator that a random bit stands for: negation on `true`,
/// logical not on `false`.
pub fn unary_op_for(bit: bool) -> (op: UnaryOp)
    ensures
        op == (if bit {
            UnaryOp::Neg
        } else {
            UnaryOp::Not
        }),
{
    if bit {
        UnaryOp::Neg
    } else {
        UnaryOp::Not
    }
}

/// A random binary operator: a random `u32` taken modulo nine, so each
/// operator is about equally likely.
pub fn sample_binary_op(rng: &mut Xoshiro128PlusPlus) -> BinaryOp {
    let n = random_u32(rng);
    binary_op_for(n)
}

/// A random unary operator: negation or logical not, from a random bit.
pub fn sample_unary_op(rng: &mut Xoshiro128PlusPlus) -> UnaryOp {
    let b = random_bool(rng);
    unary_op_for(b)
}

/// Whether statement `s`, translated in `scope`, reads only defined
/// variables and, where control falls through, defines at least `names`.
pub open spec fn stmt_ok(s: StmtAST, scope: Set<Seq<char>>, names: Set<Seq<char>>) -> bool {
    match stmt_scope(s, scope) {
        None => false,
        Some(None) => true,
        Some(Some(t)) => names.subset_of(t),
    }
}

/// `stmt_ok` for a sequence of statements.
pub open spec fn block_ok(stmts: Seq<StmtAST>, scope: Set<Seq<char>>, names: Set<Seq<char>>) -> bool {
    match block_scope(stmts, scope) {
        None => false,
        Some(None) => true,
        Some(Some(t)) => names.subset_of(t),
    }
}

proof fn lemma_expr_defined_mono(e: ExprAST, s0: Set<Seq<char>>, s1: Set<Seq<char>>)
    requires
        expr_defined(e, s0),
        s0.subset_of(s1),
    ensures
        expr_defined(e, s1),
    decreases e,
{
    match e {
        ExprAST::Unary(_, x) => lemma_expr_defined_mono(*x, s0, s1),
        ExprAST::Binary(_, l, r) => {
            lemma_expr_defined_mono(*l, s0, s1);
            lemma_expr_defined_mono(*r, s0, s1);
        },
        _ => {},
    }
}

/// The scope of a sequence with one more statement.
proof fn lemma_block_scope_push(stmts: Seq<StmtAST>, s: StmtAST, scope: Set<Seq<char>>)
    ensures
        block_scope(stmts.push(s), scope) == match block_scope(stmts, scope) {
            None => None,
            Some(None) => Some(None),
            Some(Some(t)) => stmt_scope(s, t),
        },
    decreases stmts.len(),
{
    let p = stmts.push(s);
    if stmts.len() == 0 {
        assert(p.subrange(1, p.len() as int) =~= Seq::<StmtAST>::empty());
        assert(p[0] == s);
        reveal_with_fuel(block_scope, 2);
    } else {
        assert(p[0] == stmts[0]);
        assert(p.subrange(1, p.len() as int) =~= stmts.subrange(1, stmts.len() as int).push(s));
        if let Some(Some(t)) = stmt_scope(stmts[0], scope) {
            lemma_block_scope_push(stmts.subrange(1, stmts.len() as int), s, t);
        }
    }
}

/// Whether every number in the expression lies strictly between -100 and
/// 100.
pub open spec fn small_numbers(e: ExprAST) -> bool
    decreases e,
{
    match e {
        ExprAST::Number(n) => -100 < n < 100,
        ExprAST::Variable(_) => true,
        ExprAST::Unary(_, x) => small_numbers(*x),
        ExprAST::Binary(_, l, r) => small_numbers(*l) && small_numbers(*r),
    }
}

/// The empty block, which defines nothing and reads nothing.
fn empty_block() -> (s: StmtAST)
    ensures
        s matches StmtAST::Block(stmts) && stmts@.len() == 0,
        forall|scope: Set<Seq<char>>, names: Set<Seq<char>>|
            names.subset_of(scope) ==> #[trigger] stmt_ok(s, scope, names),
{
    let none: Vec<StmtAST> = Vec::new();
    let s = StmtAST::Block(none);
    proof {
        assert forall|scope: Set<Seq<char>>, names: Set<Seq<char>>| names.subset_of(scope) implies #[trigger] stmt_ok(s, scope, names) by {
            assert(none@.len() == 0);
            assert(block_scope(none@, scope) == Some(Some(scope)));
        }
    }
    s
}

/// A random expression over the variables `in_scope`; each node drawn takes
/// one unit of `juice`, and where none is left it is the number 0. Nesting
/// is bounded by `depth`.
fn generate_expr(juice: &mut usize, rng: &mut Xoshiro128PlusPlus, in_scope: &FxHashSet<String>, depth: usize) -> (e: ExprAST)
    ensures
        expr_defined(e, scope_names(*in_scope)),
        *final(juice) <= *old(juice),
        *old(juice) > 0 && depth > 0 && !in_scope@.is_empty() ==> *final(juice) < *old(juice),
        *old(juice) == 0 ==> e is Number,
        small_numbers(e),
    decreases depth,
{
    if depth == 0 {
        return ExprAST::Number(0);
    }
    match random_u32(rng) % 4 {
        0 => {
            let num = random_i64(rng) % 100;
            *juice = juice.saturating_sub(1);
            ExprAST::Number(num)
        },
        1 => {
            if !in_scope.is_empty() && *juice > 0 {
                match choose_name(in_scope, rng) {
                    Some(var) => {
                        *juice = juice.saturating_sub(1);
                        ExprAST::Variable(var)
                    },
                    None => ExprAST::Number(0),
                }
            } else {
                ExprAST::Number(0)
            }
        },
        2 => {
            if *juice > 0 {
                let op = sample_unary_op(rng);
                let input = generate_expr(juice, rng, in_scope, depth - 1);
                *juice = juice.saturating_sub(1);
                ExprAST::Unary(op, Box::new(input))
            } else {
                ExprAST::Number(0)
            }
        },
        _ => {
            if *juice > 0 {
                let op = sample_binary_op(rng);
                let lhs = generate_expr(juice, rng, in_scope, depth - 1);
                if *juice > 0 {
                    let rhs = generate_expr(juice, rng, in_scope, depth - 1);
                    *juice = juice.saturating_sub(1);
                    ExprAST::Binary(op, Box::new(lhs), Box::new(rhs))
                } else {
                    lhs
                }
            } else {
                ExprAST::Number(0)
            }
        },
    }
}

/// A random statement over the variables `in_scope`, which it extends with
/// the variables it assigns on every path: a block of up to 19 statements,
/// an assignment (to a new variable or one in scope), an `if`, a `while`, or
/// a `return`. Nesting is bounded by `depth`.
fn generate_stmt(juice: &mut usize, rng: &mut Xoshiro128PlusPlus, in_scope: &mut FxHashSet<String>, depth: usize) -> (s: StmtAST)
    ensures
        scope_names(*old(in_scope)).subset_of(scope_names(*final(in_scope))),
        forall|scope: Set<Seq<char>>|
            scope_names(*old(in_scope)).subset_of(scope) ==> #[trigger] stmt_ok(s, scope, scope_names(*final(in_scope))),
        *final(juice) <= *old(juice),
        *old(juice) > 0 && depth > 1 ==> *final(juice) < *old(juice) || (s is Return && old(in_scope)@.is_empty()),
    decreases depth,
{
    let ghost n0 = scope_names(*in_scope);
    let ghost j0 = *juice;
    if depth == 0 {
        return empty_block();
    }
    match stmt_kind_for(random_u32(rng)) {
        StmtKind::Block => {
            let mut max_num = random_u32(rng) % 20;
            let mut block: Vec<StmtAST> = Vec::new();
            proof {
                assert forall|scope: Set<Seq<char>>| n0.subset_of(scope) implies #[trigger] block_ok(block@, scope, scope_names(*in_scope)) by {
                }
            }
            while max_num > 0 && *juice > 0
                invariant
                    n0 == scope_names(*old(in_scope)),
                    *juice <= j0,
                    n0.subset_of(scope_names(*in_scope)),
                    depth > 0,
                    forall|scope: Set<Seq<char>>| n0.subset_of(scope) ==> #[trigger] block_ok(block@, scope, scope_names(*in_scope)),
                decreases max_num,
            {
                max_num = max_num - 1;
                let ghost b0 = block@;
                let ghost n1 = scope_names(*in_scope);
                let s = generate_stmt(juice, rng, in_scope, depth - 1);
                block.push(s);
                proof {
                    assert forall|scope: Set<Seq<char>>| n0.subset_of(scope) implies #[trigger] block_ok(block@, scope, scope_names(*in_scope)) by {
                        assert(block_ok(b0, scope, n1));
                        lemma_block_scope_push(b0, s, scope);
                        if let Some(Some(t)) = block_scope(b0, scope) {
                            assert(stmt_ok(s, t, scope_names(*in_scope)));
                        }
                    }
                }
            }
            *juice = juice.saturating_sub(1);
            proof {
                assert forall|scope: Set<Seq<char>>| n0.subset_of(scope) implies #[trigger] stmt_ok(StmtAST::Block(block), scope, scope_names(*in_scope)) by {
                    assert(block_ok(block@, scope, scope_names(*in_scope)));
                }
            }
            StmtAST::Block(block)
        },
        StmtKind::Assign => {
            let new = random_bool(rng);
            if new || in_scope.is_empty() {
                let var = var_name(in_scope.len());
                let expr = generate_expr(juice, rng, in_scope, depth - 1);
                scope_insert(in_scope, &var);
                *juice = juice.saturating_sub(1);
                proof {
                    assert forall|scope: Set<Seq<char>>| n0.subset_of(scope) implies #[trigger] stmt_ok(StmtAST::Assign(var, expr), scope, scope_names(*in_scope)) by {
                        lemma_expr_defined_mono(expr, n0, scope);
                    }
                }
                StmtAST::Assign(var, expr)
            } else {
                match choose_name(in_scope, rng) {
                    Some(var) => {
                        let expr = generate_expr(juice, rng, in_scope, depth - 1);
                        *juice = juice.saturating_sub(1);
                        proof {
                            assert forall|scope: Set<Seq<char>>| n0.subset_of(scope) implies #[trigger] stmt_ok(StmtAST::Assign(var, expr), scope, scope_names(*in_scope)) by {
                                lemma_expr_defined_mono(expr, n0, scope);
                            }
                        }
                        StmtAST::Assign(var, expr)
                    },
                    None => {
                        empty_block()
                    },
                }
            }
        },
        StmtKind::IfElse => {
            let cond = generate_expr(juice, rng, in_scope, depth - 1);
            let mut then_scope = clone_scope(in_scope);
            let then_stmt = if *juice > 0 {
                generate_stmt(juice, rng, &mut then_scope, depth - 1)
            } else {
                empty_block()
            };
            let mut else_scope = clone_scope(in_scope);
            let else_stmt = if *juice > 0 {
                generate_stmt(juice, rng, &mut else_scope, depth - 1)
            } else {
                empty_block()
            };
            *in_scope = intersect_scopes(&then_scope, &else_scope);
            *juice = juice.saturating_sub(1);
            let s = StmtAST::IfElse(cond, Box::new(then_stmt), Box::new(else_stmt));
            proof {
                let nt = scope_names(then_scope);
                let ne = scope_names(else_scope);
                assert forall|scope: Set<Seq<char>>| n0.subset_of(scope) implies #[trigger] stmt_ok(s, scope, scope_names(*in_scope)) by {
                    lemma_expr_defined_mono(cond, n0, scope);
                    assert(stmt_ok(then_stmt, scope, nt));
                    assert(stmt_ok(else_stmt, scope, ne));
                }
            }
            s
        },
        StmtKind::While => {
            let cond = generate_expr(juice, rng, in_scope, depth - 1);
            let mut inside_scope = clone_scope(in_scope);
            let body = if *juice > 0 {
                generate_stmt(juice, rng, &mut inside_scope, depth - 1)
            } else {
                empty_block()
            };
            *juice = juice.saturating_sub(1);
            let s = StmtAST::While(cond, Box::new(body));
            proof {
                let ni = scope_names(inside_scope);
                assert forall|scope: Set<Seq<char>>| n0.subset_of(scope) implies #[trigger] stmt_ok(s, scope, scope_names(*in_scope)) by {
                    lemma_expr_defined_mono(cond, n0, scope);
                    assert(stmt_ok(body, scope, ni));
                }
            }
            s
        },
        StmtKind::Return => {
            let e = generate_expr(juice, rng, in_scope, depth - 1);
            proof {
                assert forall|scope: Set<Seq<char>>| n0.subset_of(scope) implies #[trigger] stmt_ok(StmtAST::Return(e), scope, scope_names(*in_scope)) by {
                    lemma_expr_defined_mono(e, n0, scope);
                }
            }
            StmtAST::Return(e)
        },
    }
}

/// A random program named `generated` with no parameters: statements are
/// drawn while `juice` lasts (each takes at least one unit, but for a
/// `return`, which may take none; at most `usize::MAX` are drawn), then a
/// final `return` of an expression with ten more units. The program reads
/// no variable before assigning it, so the SSA translation accepts it.
pub fn generate(juice: usize, rng: &mut Xoshiro128PlusPlus) -> (f: FuncAST)
    ensures
        well_scoped(f),
        f.params@.len() == 0,
        f.name@ == "generated"@,
        f.body is Block,
        f.body->Block_0@.len() >= 1,
        f.body->Block_0@.last() is Return,
        juice > 0 <==> f.body->Block_0@.len() >= 2,
{
    let ghost juice0 = juice;
    let mut juice = juice;
    let mut in_scope: FxHashSet<String> = FxHashSet::default();
    let mut body: Vec<StmtAST> = Vec::new();
    let ghost n0 = scope_names(in_scope);
    proof {
        assert(n0 =~= Set::<Seq<char>>::empty());
        assert(block_ok(body@, n0, scope_names(in_scope))) by {
            assert(body@ =~= Seq::<StmtAST>::empty());
        }
    }
    let mut rounds: usize = 0;
    while juice > 0 && rounds < usize::MAX
        invariant
            n0 =~= Set::<Seq<char>>::empty(),
            block_ok(body@, n0, scope_names(in_scope)),
            body@.len() == rounds,
            rounds == 0 ==> juice == juice0,
            rounds > 0 ==> juice0 > 0,
        decreases usize::MAX - rounds,
    {
        let ghost b0 = body@;
        let ghost n1 = scope_names(in_scope);
        let s = generate_stmt(&mut juice, rng, &mut in_scope, usize::MAX);
        body.push(s);
        proof {
            lemma_block_scope_push(b0, s, n0);
            if let Some(Some(t)) = block_scope(b0, n0) {
                assert(stmt_ok(s, t, scope_names(in_scope)));
            }
        }
        rounds = rounds + 1;
    }
    juice = juice.saturating_add(10);
    let e = generate_expr(&mut juice, rng, &in_scope, usize::MAX);
    let ghost b0 = body@;
    body.push(StmtAST::Return(e));
    let name = String::from_str("generated");
    let params: Vec<String> = Vec::new();
    proof {
        lemma_block_scope_push(b0, StmtAST::Return(e), n0);
        if let Some(Some(t)) = block_scope(b0, n0) {
            lemma_expr_defined_mono(e, scope_names(in_scope), t);
        }
        assert(param_names(params@) =~= n0);
        assert(body@.len() == rounds + 1);
    }
    FuncAST { name, params, body: StmtAST::Block(body) }
}

} // verus!
