//! Abstract syntax of the small imperative language, and the meaning of its
//! operators on 64-bit integers.
use vstd::prelude::*;
use vstd::string::StringExecFns;

verus! {

/// A function: a name, its parameters, and a body statement.
#[derive(Debug, PartialEq, Eq)]
pub struct FuncAST {
    pub name: String,
    pub params: Vec<String>,
    pub body: StmtAST,
}

#[derive(Debug, PartialEq, Eq)]
pub enum StmtAST {
    Block(Vec<StmtAST>),
    Assign(String, ExprAST),
    IfElse(ExprAST, Box<StmtAST>, Box<StmtAST>),
    While(ExprAST, Box<StmtAST>),
    Return(ExprAST),
}

#[derive(Debug, PartialEq, Eq)]
pub enum ExprAST {
    Number(i64),
    Variable(String),
    Unary(UnaryOp, Box<ExprAST>),
    Binary(BinaryOp, Box<ExprAST>, Box<ExprAST>),
}

#[derive(Debug, Clone, Copy, PartialEq, Eq, Hash, Structural)]
pub enum UnaryOp {
    Neg,
    Not,
}

#[derive(Debug, Clone, Copy, PartialEq, Eq, Hash, Structural)]
pub enum BinaryOp {
    Add,
    Sub,
    Mul,
    EE,
    NE,
    LT,
    LE,
    GT,
    GE,
}

/// The integer that a boolean denotes.
pub open spec fn bool_int(b: bool) -> i64 {
    if b {
        1
    } else {
        0
    }
}

/// Whether a mathematical integer fits in an `i64`.
pub open spec fn fits_i64(x: int) -> bool {
    i64::MIN <= x <= i64::MAX
}

/// The value of a unary operator applied to `x`. Negation wraps around on
/// `i64::MIN`, as the language's arithmetic does in optimized builds; logical
/// not maps zero to one and everything else to zero.
pub open spec fn unary_spec(op: UnaryOp, x: i64) -> i64 {
    match op {
        UnaryOp::Neg => if x == i64::MIN {
            i64::MIN
        } else {
            (-x) as i64
        },
        UnaryOp::Not => bool_int(x == 0),
    }
}

/// The value of a binary operator applied to `x` and `y`, or `None` where an
/// addition, subtraction or multiplication overflows `i64`.
pub open spec fn binary_spec(op: BinaryOp, x: i64, y: i64) -> Option<i64> {
    match op {
        BinaryOp::Add => if fits_i64(x + y) {
            Some((x + y) as i64)
        } else {
            None
        },
        BinaryOp::Sub => if fits_i64(x - y) {
            Some((x - y) as i64)
        } else {
            None
        },
        BinaryOp::Mul => if fits_i64(x * y) {
            Some((x * y) as i64)
        } else {
            None
        },
        BinaryOp::EE => Some(bool_int(x == y)),
        BinaryOp::NE => Some(bool_int(x != y)),
        BinaryOp::LT => Some(bool_int(x < y)),
        BinaryOp::LE => Some(bool_int(x <= y)),
        BinaryOp::GT => Some(bool_int(x > y)),
        BinaryOp::GE => Some(bool_int(x >= y)),
    }
}

/// Applies a unary operator.
pub fn apply_unary(op: UnaryOp, x: i64) -> (r: i64)
    ensures
        r == unary_spec(op, x),
{
    match op {
        UnaryOp::Neg => if x == i64::MIN {
            i64::MIN
        } else {
            -x
        },
        UnaryOp::Not => if x == 0 {
            1
        } else {
            0
        },
    }
}

/// Applies a binary operator; `None` where the arithmetic overflows.
pub fn apply_binary(op: BinaryOp, x: i64, y: i64) -> (r: Option<i64>)
    ensures
        r == binary_spec(op, x, y),
{
    match op {
        BinaryOp::Add => x.checked_add(y),
        BinaryOp::Sub => x.checked_sub(y),
        BinaryOp::Mul => x.checked_mul(y),
        BinaryOp::EE => Some(if x == y { 1 } else { 0 }),
        BinaryOp::NE => Some(if x != y { 1 } else { 0 }),
        BinaryOp::LT => Some(if x < y { 1 } else { 0 }),
        BinaryOp::LE => Some(if x <= y { 1 } else { 0 }),
        BinaryOp::GT => Some(if x > y { 1 } else { 0 }),
        BinaryOp::GE => Some(if x >= y { 1 } else { 0 }),
    }
}

/// The decimal digits of `n`.
pub open spec fn decimal_chars(n: nat) -> Seq<char>
    decreases n,
{
    if n < 10 {
        seq![(48 + n) as char]
    } else {
        decimal_chars(n / 10).push((48 + n % 10) as char)
    }
}

/// An integer in decimal, with a minus sign when it is negative.
pub open spec fn int_text(n: int) -> Seq<char> {
    if n < 0 {
        "-"@ + decimal_chars((-n) as nat)
    } else {
        decimal_chars(n as nat)
    }
}

/// How a unary operator is written.
pub open spec fn unary_text(op: UnaryOp) -> Seq<char> {
    match op {
        UnaryOp::Neg => "-"@,
        UnaryOp::Not => "!"@,
    }
}

/// How a binary operator is written.
pub open spec fn binary_text(op: BinaryOp) -> Seq<char> {
    match op {
        BinaryOp::Add => "+"@,
        BinaryOp::Sub => "-"@,
        BinaryOp::Mul => "*"@,
        BinaryOp::EE => "=="@,
        BinaryOp::NE => "!="@,
        BinaryOp::LT => "<"@,
        BinaryOp::LE => "<="@,
        BinaryOp::GT => ">"@,
        BinaryOp::GE => ">="@,
    }
}

/// How an expression is written: a binary operation in parentheses with
/// spaces around the operator, a unary operator right before its operand.
pub open spec fn expr_text(e: ExprAST) -> Seq<char>
    decreases e,
{
    match e {
        ExprAST::Number(n) => int_text(n as int),
        ExprAST::Variable(name) => name@,
        ExprAST::Unary(op, x) => unary_text(op) + expr_text(*x),
        ExprAST::Binary(op, l, r) => "("@ + expr_text(*l) + " "@ + binary_text(op) + " "@ + expr_text(*r) + ")"@,
    }
}

/// How a statement is written.
pub open spec fn stmt_text(s: StmtAST) -> Seq<char>
    decreases s,
{
    match s {
        StmtAST::Block(stmts) => "{ "@ + stmts_text(stmts@) + "}"@,
        StmtAST::Assign(name, e) => name@ + " = "@ + expr_text(e) + ";"@,
        StmtAST::IfElse(c, t, e) => "if "@ + expr_text(c) + " { "@ + stmt_text(*t) + " } else { "@ + stmt_text(*e) + " }"@,
        StmtAST::While(c, b) => "while "@ + expr_text(c) + " { "@ + stmt_text(*b) + " }"@,
        StmtAST::Return(e) => "return "@ + expr_text(e) + ";"@,
    }
}

/// Statements in a row, each followed by a space.
pub open spec fn stmts_text(stmts: Seq<StmtAST>) -> Seq<char>
    decreases stmts,
{
    if stmts.len() == 0 {
        Seq::empty()
    } else {
        stmts_text(stmts.subrange(0, stmts.len() - 1)) + stmt_text(stmts[stmts.len() - 1]) + " "@
    }
}

/// Names separated by a comma and a space.
pub open spec fn params_text(params: Seq<String>) -> Seq<char>
    decreases params.len(),
{
    if params.len() == 0 {
        Seq::empty()
    } else if params.len() == 1 {
        params[0]@
    } else {
        params_text(params.subrange(0, params.len() - 1)) + ", "@ + params[params.len() - 1]@
    }
}

/// How a function is written.
pub open spec fn func_text(f: FuncAST) -> Seq<char> {
    "fn "@ + f.name@ + "("@ + params_text(f.params@) + ") "@ + stmt_text(f.body)
}

/// The text of one decimal digit.
fn digit_text(d: u64) -> (r: &'static str)
    requires
        d < 10,
    ensures
        r@ == seq![(48 + d) as char],
{
    proof {
        reveal_strlit("0");
        reveal_strlit("1");
        reveal_strlit("2");
        reveal_strlit("3");
        reveal_strlit("4");
        reveal_strlit("5");
        reveal_strlit("6");
        reveal_strlit("7");
        reveal_strlit("8");
        reveal_strlit("9");
    }
    match d {
        0 => "0",
        1 => "1",
        2 => "2",
        3 => "3",
        4 => "4",
        5 => "5",
        6 => "6",
        7 => "7",
        8 => "8",
        _ => "9",
    }
}

/// Appends the decimal digits of `n`.
pub(crate) fn push_decimal(out: &mut String, n: u64)
    ensures
        final(out)@ == old(out)@ + decimal_chars(n as nat),
    decreases n,
{
    if n >= 10 {
        push_decimal(out, n / 10);
    }
    out.append(digit_text(n % 10));
    proof {
        if n >= 10 {
            assert(final(out)@ =~= old(out)@ + decimal_chars(n as nat));
        } else {
            assert(n % 10 == n);
        }
    }
}

/// Appends an integer in decimal.
fn push_int(out: &mut String, n: i64)
    ensures
        final(out)@ == old(out)@ + int_text(n as int),
{
    if n < 0 {
        out.append("-");
        let m: u64 = if n == i64::MIN {
            9223372036854775808u64
        } else {
            (-n) as u64
        };
        push_decimal(out, m);
        proof {
            assert(final(out)@ =~= old(out)@ + int_text(n as int));
        }
    } else {
        push_decimal(out, n as u64);
    }
}

/// Appends the text of an operator.
fn push_unary(out: &mut String, op: UnaryOp)
    ensures
        final(out)@ == old(out)@ + unary_text(op),
{
    match op {
        UnaryOp::Neg => out.append("-"),
        UnaryOp::Not => out.append("!"),
    }
}

/// Appends the text of an operator.
fn push_binary(out: &mut String, op: BinaryOp)
    ensures
        final(out)@ == old(out)@ + binary_text(op),
{
    match op {
        BinaryOp::Add => out.append("+"),
        BinaryOp::Sub => out.append("-"),
        BinaryOp::Mul => out.append("*"),
        BinaryOp::EE => out.append("=="),
        BinaryOp::NE => out.append("!="),
        BinaryOp::LT => out.append("<"),
        BinaryOp::LE => out.append("<="),
        BinaryOp::GT => out.append(">"),
        BinaryOp::GE => out.append(">="),
    }
}

/// Appends the text of an expression.
fn push_expr(out: &mut String, e: &ExprAST)
    ensures
        final(out)@ == old(out)@ + expr_text(*e),
    decreases e,
{
    match e {
        ExprAST::Number(n) => push_int(out, *n),
        ExprAST::Variable(name) => out.append(name.as_str()),
        ExprAST::Unary(op, x) => {
            push_unary(out, *op);
            push_expr(out, x);
            proof {
                assert(final(out)@ =~= old(out)@ + expr_text(*e));
            }
        },
        ExprAST::Binary(op, l, r) => {
            out.append("(");
            push_expr(out, l);
            out.append(" ");
            push_binary(out, *op);
            out.append(" ");
            push_expr(out, r);
            out.append(")");
            proof {
                assert(final(out)@ =~= old(out)@ + expr_text(*e));
            }
        },
    }
}

/// Appends the text of a statement.
fn push_stmt(out: &mut String, s: &StmtAST)
    ensures
        final(out)@ == old(out)@ + stmt_text(*s),
    decreases s,
{
    let ghost out0 = out@;
    match s {
        StmtAST::Block(stmts) => {
            out.append("{ ");
            let ghost start = out@;
            let mut i: usize = 0;
            while i < stmts.len()
                invariant
                    i <= stmts@.len(),
                    *s == StmtAST::Block(*stmts),
                    out@ == start + stmts_text(stmts@.subrange(0, i as int)),
                decreases stmts@.len() - i,
            {
                proof {
                    assert(decreases_to!(*s => (*s)->Block_0));
                    assert((*s)->Block_0 == *stmts);
                    assert(decreases_to!(*stmts => stmts@));
                    assert(decreases_to!(stmts@ => stmts@[i as int]));
                }
                let ghost before = out@;
                push_stmt(out, &stmts[i]);
                out.append(" ");
                proof {
                    let p = stmts@.subrange(0, i as int + 1);
                    assert(p.subrange(0, p.len() - 1) =~= stmts@.subrange(0, i as int));
                    assert(p[p.len() - 1] == stmts@[i as int]);
                    assert(out@ =~= start + stmts_text(p));
                }
                i = i + 1;
            }
            out.append("}");
            proof {
                assert(stmts@.subrange(0, i as int) =~= stmts@);
                assert(out@ =~= out0 + stmt_text(*s));
            }
        },
        StmtAST::Assign(name, e) => {
            out.append(name.as_str());
            out.append(" = ");
            push_expr(out, e);
            out.append(";");
            proof {
                assert(out@ =~= out0 + stmt_text(*s));
            }
        },
        StmtAST::IfElse(c, t, e) => {
            out.append("if ");
            push_expr(out, c);
            out.append(" { ");
            push_stmt(out, t);
            out.append(" } else { ");
            push_stmt(out, e);
            out.append(" }");
            proof {
                assert(out@ =~= out0 + stmt_text(*s));
            }
        },
        StmtAST::While(c, b) => {
            out.append("while ");
            push_expr(out, c);
            out.append(" { ");
            push_stmt(out, b);
            out.append(" }");
            proof {
                assert(out@ =~= out0 + stmt_text(*s));
            }
        },
        StmtAST::Return(e) => {
            out.append("return ");
            push_expr(out, e);
            out.append(";");
            proof {
                assert(out@ =~= out0 + stmt_text(*s));
            }
        },
    }
}

impl UnaryOp {
    /// How the operator is written.
    pub fn to_string(&self) -> (r: String)
        ensures
            r@ == unary_text(*self),
    {
        let mut out = String::new();
        push_unary(&mut out, *self);
        proof {
            assert(out@ =~= unary_text(*self));
        }
        out
    }
}

impl BinaryOp {
    /// How the operator is written.
    pub fn to_string(&self) -> (r: String)
        ensures
            r@ == binary_text(*self),
    {
        let mut out = String::new();
        push_binary(&mut out, *self);
        proof {
            assert(out@ =~= binary_text(*self));
        }
        out
    }
}

impl ExprAST {
    /// How the expression is written.
    pub fn to_string(&self) -> (r: String)
        ensures
            r@ == expr_text(*self),
    {
        let mut out = String::new();
        push_expr(&mut out, self);
        proof {
            assert(out@ =~= expr_text(*self));
        }
        out
    }
}

impl StmtAST {
    /// How the statement is written.
    pub fn to_string(&self) -> (r: String)
        ensures
            r@ == stmt_text(*self),
    {
        let mut out = String::new();
        push_stmt(&mut out, self);
        proof {
            assert(out@ =~= stmt_text(*self));
        }
        out
    }
}

impl FuncAST {
    /// How the function is written: its name, its parameters separated by
    /// commas, and its body.
    pub fn to_string(&self) -> (r: String)
        ensures
            r@ == func_text(*self),
    {
        let mut out = String::new();
        out.append("fn ");
        out.append(self.name.as_str());
        out.append("(");
        let ghost start = out@;
        let mut i: usize = 0;
        while i < self.params.len()
            invariant
                i <= self.params@.len(),
                out@ == start + params_text(self.params@.subrange(0, i as int)),
            decreases self.params@.len() - i,
        {
            if i != 0 {
                out.append(", ");
            }
            out.append(self.params[i].as_str());
            proof {
                let p = self.params@.subrange(0, i as int + 1);
                assert(p.subrange(0, p.len() - 1) =~= self.params@.subrange(0, i as int));
                if i == 0 {
                    assert(self.params@.subrange(0, 0) =~= Seq::<String>::empty());
                }
                assert(out@ =~= start + params_text(p));
            }
            i = i + 1;
        }
        out.append(") ");
        push_stmt(&mut out, &self.body);
        proof {
            assert(self.params@.subrange(0, i as int) =~= self.params@);
            assert(out@ =~= func_text(*self));
        }
        out
    }
}

} // verus!
