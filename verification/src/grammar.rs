//! The parser of the small language. A program is a sequence of functions
//! `fn name(params) stmt`. A statement is a block `{ stmt* }`, an assignment
//! `x = e;`, `if e stmt` with an optional `else stmt`, `while e stmt` or
//! `return e;`. Expressions bind, from loosest to tightest: the comparisons
//! `== != < <= > >=`, then `+ -`, then `*` (all left-associative), then the
//! prefix operators `-` and `!`, then numbers, variables and parentheses.
//! Numbers are decimal digits that fit in an `i64`; names are letters,
//! digits and underscores not starting with a digit, other than the keywords
//! `fn if else while return`; spaces, tabs and line breaks separate tokens.
//!
//! The grammar is stated by the spec functions `p_*` over the bytes of the
//! input, and the executable parser is proved to compute them.
use vstd::prelude::*;

use vstd::string::StringSliceAdditionalSpecFns;

use crate::ast::{BinaryOp, ExprAST, FuncAST, StmtAST, UnaryOp, binary_text, unary_text};

verus! {

/// An expression as the grammar sees it: names are byte sequences.
pub enum SExpr {
    Number(i64),
    Variable(Seq<u8>),
    Unary(UnaryOp, Box<SExpr>),
    Binary(BinaryOp, Box<SExpr>, Box<SExpr>),
}

/// A statement as the grammar sees it.
pub enum SStmt {
    Block(Seq<SStmt>),
    Assign(Seq<u8>, SExpr),
    IfElse(SExpr, Box<SStmt>, Box<SStmt>),
    While(SExpr, Box<SStmt>),
    Return(SExpr),
}

/// A function as the grammar sees it.
pub struct SFunc {
    pub name: Seq<u8>,
    pub params: Seq<Seq<u8>>,
    pub body: SStmt,
}

/// The bytes of a name.
pub open spec fn name_view(s: String) -> Seq<u8> {
    s@.map_values(|c: char| c as u8)
}

/// An expression as the grammar sees it: names as bytes.
pub open spec fn expr_view(e: ExprAST) -> SExpr
    decreases e,
{
    match e {
        ExprAST::Number(n) => SExpr::Number(n),
        ExprAST::Variable(name) => SExpr::Variable(name_view(name)),
        ExprAST::Unary(op, x) => SExpr::Unary(op, Box::new(expr_view(*x))),
        ExprAST::Binary(op, l, r) => SExpr::Binary(op, Box::new(expr_view(*l)), Box::new(expr_view(*r))),
    }
}

/// A statement as the grammar sees it.
pub open spec fn stmt_view(s: StmtAST) -> SStmt
    decreases s,
{
    match s {
        StmtAST::Block(stmts) => SStmt::Block(stmts_view(stmts@)),
        StmtAST::Assign(name, e) => SStmt::Assign(name_view(name), expr_view(e)),
        StmtAST::IfElse(c, t, e) => SStmt::IfElse(expr_view(c), Box::new(stmt_view(*t)), Box::new(stmt_view(*e))),
        StmtAST::While(c, b) => SStmt::While(expr_view(c), Box::new(stmt_view(*b))),
        StmtAST::Return(e) => SStmt::Return(expr_view(e)),
    }
}

/// Statements as the grammar sees them.
pub open spec fn stmts_view(stmts: Seq<StmtAST>) -> Seq<SStmt>
    decreases stmts,
{
    if stmts.len() == 0 {
        Seq::empty()
    } else {
        stmts_view(stmts.subrange(0, stmts.len() - 1)).push(stmt_view(stmts[stmts.len() - 1]))
    }
}

/// Names as bytes.
pub open spec fn names_view(names: Seq<String>) -> Seq<Seq<u8>> {
    names.map_values(|s: String| name_view(s))
}

/// A function as the grammar sees it.
pub open spec fn func_view(f: FuncAST) -> SFunc {
    SFunc { name: name_view(f.name), params: names_view(f.params@), body: stmt_view(f.body) }
}

/// Functions as the grammar sees them.
pub open spec fn funcs_view(fs: Seq<FuncAST>) -> Seq<SFunc> {
    fs.map_values(|f: FuncAST| func_view(f))
}

/// Space, tab, carriage return or line feed.
pub open spec fn is_ws(c: u8) -> bool {
    c == 32 || c == 9 || c == 10 || c == 13
}

/// An ASCII decimal digit.
pub open spec fn is_digit(c: u8) -> bool {
    48 <= c <= 57
}

/// A letter or an underscore.
pub open spec fn is_name_start(c: u8) -> bool {
    (65 <= c <= 90) || (97 <= c <= 122) || c == 95
}

/// A letter, a digit or an underscore.
pub open spec fn is_name_char(c: u8) -> bool {
    is_name_start(c) || is_digit(c)
}

/// Whether byte `i` exists and is `c`.
pub open spec fn byte_at(bs: Seq<u8>, i: int, c: u8) -> bool {
    0 <= i < bs.len() && bs[i] == c
}

/// The first position at or after `i` that is not white space.
pub open spec fn skip_ws(bs: Seq<u8>, i: int) -> int
    decreases bs.len() - i,
{
    if 0 <= i < bs.len() && is_ws(bs[i]) {
        skip_ws(bs, i + 1)
    } else {
        i
    }
}

/// The end of the run of name characters starting at `i`.
pub open spec fn name_end(bs: Seq<u8>, i: int) -> int
    decreases bs.len() - i,
{
    if 0 <= i < bs.len() && is_name_char(bs[i]) {
        name_end(bs, i + 1)
    } else {
        i
    }
}

/// The end of the run of digits starting at `i`.
pub open spec fn digits_end(bs: Seq<u8>, i: int) -> int
    decreases bs.len() - i,
{
    if 0 <= i < bs.len() && is_digit(bs[i]) {
        digits_end(bs, i + 1)
    } else {
        i
    }
}

/// The decimal value of the digits from `a` to `b`.
pub open spec fn digits_value(bs: Seq<u8>, a: int, b: int) -> int
    decreases b - a,
{
    if b <= a {
        0
    } else {
        digits_value(bs, a, b - 1) * 10 + (bs[b - 1] - 48)
    }
}

/// Which keyword a word is: 1 `fn`, 2 `if`, 3 `else`, 4 `while`, 5 `return`,
/// 0 none.
pub open spec fn keyword_kind(w: Seq<u8>) -> u8 {
    if w =~= seq![102u8, 110u8] {
        1
    } else if w =~= seq![105u8, 102u8] {
        2
    } else if w =~= seq![101u8, 108u8, 115u8, 101u8] {
        3
    } else if w =~= seq![119u8, 104u8, 105u8, 108u8, 101u8] {
        4
    } else if w =~= seq![114u8, 101u8, 116u8, 117u8, 114u8, 110u8] {
        5
    } else {
        0
    }
}

/// The word (a keyword or a name) that is the next token, by its bounds.
pub open spec fn word_at(bs: Seq<u8>, i: int) -> Option<(int, int)> {
    let j = skip_ws(bs, i);
    if 0 <= j < bs.len() && is_name_start(bs[j]) {
        Some((j, name_end(bs, j)))
    } else {
        None
    }
}

/// The end of the keyword of kind `kw` that is the next token.
pub open spec fn kw_at(bs: Seq<u8>, i: int, kw: u8) -> Option<int> {
    match word_at(bs, i) {
        Some((a, b)) => if keyword_kind(bs.subrange(a, b)) == kw {
            Some(b)
        } else {
            None
        },
        None => None,
    }
}

/// The bounds of the name that is the next token.
pub open spec fn name_at(bs: Seq<u8>, i: int) -> Option<(int, int)> {
    match word_at(bs, i) {
        Some((a, b)) => if keyword_kind(bs.subrange(a, b)) == 0 {
            Some((a, b))
        } else {
            None
        },
        None => None,
    }
}

/// The end of the one-byte token `c` that is the next token.
pub open spec fn punct_at(bs: Seq<u8>, i: int, c: u8) -> Option<int> {
    let j = skip_ws(bs, i);
    if byte_at(bs, j, c) {
        Some(j + 1)
    } else {
        None
    }
}

/// The end of the `=` of an assignment (an `=` not followed by `=`).
pub open spec fn assign_at(bs: Seq<u8>, i: int) -> Option<int> {
    let j = skip_ws(bs, i);
    if byte_at(bs, j, 61) && !byte_at(bs, j + 1, 61) {
        Some(j + 1)
    } else {
        None
    }
}

/// The comparison operator that is the next token, and its end.
pub open spec fn comparison_op_at(bs: Seq<u8>, i: int) -> Option<(BinaryOp, int)> {
    let j = skip_ws(bs, i);
    if byte_at(bs, j, 61) && byte_at(bs, j + 1, 61) {
        Some((BinaryOp::EE, j + 2))
    } else if byte_at(bs, j, 33) && byte_at(bs, j + 1, 61) {
        Some((BinaryOp::NE, j + 2))
    } else if byte_at(bs, j, 60) && byte_at(bs, j + 1, 61) {
        Some((BinaryOp::LE, j + 2))
    } else if byte_at(bs, j, 62) && byte_at(bs, j + 1, 61) {
        Some((BinaryOp::GE, j + 2))
    } else if byte_at(bs, j, 60) {
        Some((BinaryOp::LT, j + 1))
    } else if byte_at(bs, j, 62) {
        Some((BinaryOp::GT, j + 1))
    } else {
        None
    }
}

/// The bytes of an ASCII text.
pub open spec fn ascii_bytes(t: Seq<char>) -> Seq<u8> {
    t.map_values(|c: char| c as u8)
}

/// Law: each comparison operator is read back from the text it is printed
/// as: where the next token is `binary_text(op)`, not followed by `=`, the
/// operator read is `op`, and it ends right after that text.
pub proof fn lemma_comparison_op_reads_text(bs: Seq<u8>, i: int, op: BinaryOp)
    requires
        op is EE || op is NE || op is LT || op is LE || op is GT || op is GE,
        ({
            let j = skip_ws(bs, i);
            let t = ascii_bytes(binary_text(op));
            &&& 0 <= j
            &&& j + t.len() <= bs.len()
            &&& bs.subrange(j, j + t.len()) == t
            &&& !byte_at(bs, j + t.len(), 61)
        }),
    ensures
        comparison_op_at(bs, i) == Some((op, skip_ws(bs, i) + ascii_bytes(binary_text(op)).len())),
{
    reveal_strlit("==");
    reveal_strlit("!=");
    reveal_strlit("<");
    reveal_strlit("<=");
    reveal_strlit(">");
    reveal_strlit(">=");
    let j = skip_ws(bs, i);
    let t = ascii_bytes(binary_text(op));
    assert(bs[j] == t[0]);
    if t.len() == 2 {
        assert(bs[j + 1] == t[1]);
    }
}

/// The additive operator that is the next token, and its end.
pub open spec fn add_op_at(bs: Seq<u8>, i: int) -> Option<(BinaryOp, int)> {
    let j = skip_ws(bs, i);
    if byte_at(bs, j, 43) {
        Some((BinaryOp::Add, j + 1))
    } else if byte_at(bs, j, 45) {
        Some((BinaryOp::Sub, j + 1))
    } else {
        None
    }
}

/// The prefix operator that is the next token, and its end (`!=` is not one).
pub open spec fn unary_op_at(bs: Seq<u8>, i: int) -> Option<(UnaryOp, int)> {
    let j = skip_ws(bs, i);
    if byte_at(bs, j, 45) {
        Some((UnaryOp::Neg, j + 1))
    } else if byte_at(bs, j, 33) && !byte_at(bs, j + 1, 61) {
        Some((UnaryOp::Not, j + 1))
    } else {
        None
    }
}

/// Law: `+` and `-` are read back from the text they are printed as: where
/// the next token is `binary_text(op)`, the operator read is `op`.
pub proof fn lemma_add_op_reads_text(bs: Seq<u8>, i: int, op: BinaryOp)
    requires
        op is Add || op is Sub,
        ({
            let j = skip_ws(bs, i);
            let t = ascii_bytes(binary_text(op));
            &&& 0 <= j
            &&& j + t.len() <= bs.len()
            &&& bs.subrange(j, j + t.len()) == t
        }),
    ensures
        add_op_at(bs, i) == Some((op, skip_ws(bs, i) + 1)),
{
    reveal_strlit("+");
    reveal_strlit("-");
    let j = skip_ws(bs, i);
    let t = ascii_bytes(binary_text(op));
    assert(bs[j] == t[0]);
}

/// Law: the prefix operators are read back from the text they are printed
/// as: where the next token is `unary_text(op)`, not followed by `=`, the
/// operator read is `op`.
pub proof fn lemma_unary_op_reads_text(bs: Seq<u8>, i: int, op: UnaryOp)
    requires
        ({
            let j = skip_ws(bs, i);
            let t = ascii_bytes(unary_text(op));
            &&& 0 <= j
            &&& j + t.len() <= bs.len()
            &&& bs.subrange(j, j + t.len()) == t
            &&& !byte_at(bs, j + t.len(), 61)
        }),
    ensures
        unary_op_at(bs, i) == Some((op, skip_ws(bs, i) + 1)),
{
    reveal_strlit("-");
    reveal_strlit("!");
    let j = skip_ws(bs, i);
    let t = ascii_bytes(unary_text(op));
    assert(bs[j] == t[0]);
}

/// Law: an operator is read only where its printed text is the next token:
/// a comparison, `+`/`-` or prefix operator read at `i` is exactly the bytes
/// of its text, after the white space.
pub proof fn lemma_ops_read_only_their_text(bs: Seq<u8>, i: int)
    ensures
        comparison_op_at(bs, i) matches Some((op, e)) ==> bs.subrange(skip_ws(bs, i), e) == ascii_bytes(binary_text(op)),
        add_op_at(bs, i) matches Some((op, e)) ==> bs.subrange(skip_ws(bs, i), e) == ascii_bytes(binary_text(op)),
        unary_op_at(bs, i) matches Some((op, e)) ==> bs.subrange(skip_ws(bs, i), e) == ascii_bytes(unary_text(op)),
{
    reveal_strlit("==");
    reveal_strlit("!=");
    reveal_strlit("<");
    reveal_strlit("<=");
    reveal_strlit(">");
    reveal_strlit(">=");
    reveal_strlit("+");
    reveal_strlit("-");
    reveal_strlit("!");
    let j = skip_ws(bs, i);
    if let Some((op, e)) = comparison_op_at(bs, i) {
        assert(bs.subrange(j, e) =~= ascii_bytes(binary_text(op)));
    }
    if let Some((op, e)) = add_op_at(bs, i) {
        assert(bs.subrange(j, e) =~= ascii_bytes(binary_text(op)));
    }
    if let Some((op, e)) = unary_op_at(bs, i) {
        assert(bs.subrange(j, e) =~= ascii_bytes(unary_text(op)));
    }
}

/// An expression starting at `i`, and where it ends.
pub open spec fn p_expr(bs: Seq<u8>, i: int) -> Option<(SExpr, int)>
    decreases bs.len() - i, 7int,
{
    if !(0 <= i <= bs.len()) {
        None
    } else {
        match p_sum(bs, i) {
            Some((e, k)) => if i <= k <= bs.len() {
                p_comparison_rest(bs, k, e)
            } else {
                None
            },
            None => None,
        }
    }
}

/// The comparisons that follow the left operand `acc`.
pub open spec fn p_comparison_rest(bs: Seq<u8>, i: int, acc: SExpr) -> Option<(SExpr, int)>
    decreases bs.len() - i, 6int,
{
    if !(0 <= i <= bs.len()) {
        None
    } else {
        match comparison_op_at(bs, i) {
            Some((op, j)) => if i < j <= bs.len() {
                match p_sum(bs, j) {
                    Some((e, k)) => if j <= k <= bs.len() {
                        p_comparison_rest(bs, k, SExpr::Binary(op, Box::new(acc), Box::new(e)))
                    } else {
                        None
                    },
                    None => None,
                }
            } else {
                None
            },
            None => Some((acc, i)),
        }
    }
}

/// A sum or difference starting at `i`.
pub open spec fn p_sum(bs: Seq<u8>, i: int) -> Option<(SExpr, int)>
    decreases bs.len() - i, 5int,
{
    if !(0 <= i <= bs.len()) {
        None
    } else {
        match p_term(bs, i) {
            Some((e, k)) => if i <= k <= bs.len() {
                p_sum_rest(bs, k, e)
            } else {
                None
            },
            None => None,
        }
    }
}

/// The additions and subtractions that follow the left operand `acc`.
pub open spec fn p_sum_rest(bs: Seq<u8>, i: int, acc: SExpr) -> Option<(SExpr, int)>
    decreases bs.len() - i, 4int,
{
    if !(0 <= i <= bs.len()) {
        None
    } else {
        match add_op_at(bs, i) {
            Some((op, j)) => if i < j <= bs.len() {
                match p_term(bs, j) {
                    Some((e, k)) => if j <= k <= bs.len() {
                        p_sum_rest(bs, k, SExpr::Binary(op, Box::new(acc), Box::new(e)))
                    } else {
                        None
                    },
                    None => None,
                }
            } else {
                None
            },
            None => Some((acc, i)),
        }
    }
}

/// A product starting at `i`.
pub open spec fn p_term(bs: Seq<u8>, i: int) -> Option<(SExpr, int)>
    decreases bs.len() - i, 3int,
{
    if !(0 <= i <= bs.len()) {
        None
    } else {
        match p_unary(bs, i) {
            Some((e, k)) => if i <= k <= bs.len() {
                p_term_rest(bs, k, e)
            } else {
                None
            },
            None => None,
        }
    }
}

/// The multiplications that follow the left operand `acc`.
pub open spec fn p_term_rest(bs: Seq<u8>, i: int, acc: SExpr) -> Option<(SExpr, int)>
    decreases bs.len() - i, 2int,
{
    if !(0 <= i <= bs.len()) {
        None
    } else {
        match punct_at(bs, i, 42) {
            Some(j) => if i < j <= bs.len() {
                match p_unary(bs, j) {
                    Some((e, k)) => if j <= k <= bs.len() {
                        p_term_rest(bs, k, SExpr::Binary(BinaryOp::Mul, Box::new(acc), Box::new(e)))
                    } else {
                        None
                    },
                    None => None,
                }
            } else {
                None
            },
            None => Some((acc, i)),
        }
    }
}

/// A prefix operator applied to an operand, or a primary expression.
pub open spec fn p_unary(bs: Seq<u8>, i: int) -> Option<(SExpr, int)>
    decreases bs.len() - i, 1int,
{
    if !(0 <= i <= bs.len()) {
        None
    } else {
        match unary_op_at(bs, i) {
            Some((op, j)) => if i < j <= bs.len() {
                match p_unary(bs, j) {
                    Some((e, k)) => Some((SExpr::Unary(op, Box::new(e)), k)),
                    None => None,
                }
            } else {
                None
            },
            None => p_primary(bs, i),
        }
    }
}

/// A number, a variable, or a parenthesized expression.
pub open spec fn p_primary(bs: Seq<u8>, i: int) -> Option<(SExpr, int)>
    decreases bs.len() - i, 0int,
{
    if !(0 <= i <= bs.len()) {
        None
    } else {
        let j = skip_ws(bs, i);
        if 0 <= j < bs.len() && is_digit(bs[j]) {
            let e = digits_end(bs, j);
            let v = digits_value(bs, j, e);
            if v <= i64::MAX {
                Some((SExpr::Number(v as i64), e))
            } else {
                None
            }
        } else {
            match name_at(bs, i) {
                Some((a, b)) => Some((SExpr::Variable(bs.subrange(a, b)), b)),
                None => match punct_at(bs, i, 40) {
                    Some(j1) => if i < j1 <= bs.len() {
                        match p_expr(bs, j1) {
                            Some((e, k)) => match punct_at(bs, k, 41) {
                                Some(k1) => Some((e, k1)),
                                None => None,
                            },
                            None => None,
                        }
                    } else {
                        None
                    },
                    None => None,
                },
            }
        }
    }
}

/// A statement starting at `i`, and where it ends.
pub open spec fn p_stmt(bs: Seq<u8>, i: int) -> Option<(SStmt, int)>
    decreases bs.len() - i, 2int,
{
    if !(0 <= i <= bs.len()) {
        None
    } else {
        match punct_at(bs, i, 123) {
            Some(j) => if i < j <= bs.len() {
                p_stmts(bs, j, Seq::empty())
            } else {
                None
            },
            None => match kw_at(bs, i, 2) {
                Some(j) => if i < j <= bs.len() {
                    p_if(bs, i, j)
                } else {
                    None
                },
                None => match kw_at(bs, i, 4) {
                    Some(j) => if i < j <= bs.len() {
                        p_while(bs, i, j)
                    } else {
                        None
                    },
                    None => match kw_at(bs, i, 5) {
                        Some(j) => p_return(bs, j),
                        None => p_assign(bs, i),
                    },
                },
            },
        }
    }
}

/// The rest of an `if` statement that starts at `i`, from `j` after the
/// keyword: the condition, the branch, and an optional `else` branch (an
/// empty block where there is none).
pub open spec fn p_if(bs: Seq<u8>, i: int, j: int) -> Option<(SStmt, int)>
    decreases bs.len() - i, 1int,
{
    if !(0 <= i < j <= bs.len()) {
        None
    } else {
        match p_expr(bs, j) {
            Some((c, k)) => if i < k <= bs.len() {
                match p_stmt(bs, k) {
                    Some((t, k2)) => if i < k2 <= bs.len() {
                        match kw_at(bs, k2, 3) {
                            Some(k3) => if i < k3 <= bs.len() {
                                match p_stmt(bs, k3) {
                                    Some((e, k4)) => Some((SStmt::IfElse(c, Box::new(t), Box::new(e)), k4)),
                                    None => None,
                                }
                            } else {
                                None
                            },
                            None => Some((SStmt::IfElse(c, Box::new(t), Box::new(SStmt::Block(Seq::empty()))), k2)),
                        }
                    } else {
                        None
                    },
                    None => None,
                }
            } else {
                None
            },
            None => None,
        }
    }
}

/// The rest of a `while` statement that starts at `i`, from `j` after the
/// keyword: the condition and the body.
pub open spec fn p_while(bs: Seq<u8>, i: int, j: int) -> Option<(SStmt, int)>
    decreases bs.len() - i, 1int,
{
    if !(0 <= i < j <= bs.len()) {
        None
    } else {
        match p_expr(bs, j) {
            Some((c, k)) => if i < k <= bs.len() {
                match p_stmt(bs, k) {
                    Some((b, k2)) => Some((SStmt::While(c, Box::new(b)), k2)),
                    None => None,
                }
            } else {
                None
            },
            None => None,
        }
    }
}

/// The rest of a `return` statement, from `j` after the keyword.
pub open spec fn p_return(bs: Seq<u8>, j: int) -> Option<(SStmt, int)> {
    match p_expr(bs, j) {
        Some((e, k)) => match punct_at(bs, k, 59) {
            Some(k1) => Some((SStmt::Return(e), k1)),
            None => None,
        },
        None => None,
    }
}

/// An assignment starting at `i`.
pub open spec fn p_assign(bs: Seq<u8>, i: int) -> Option<(SStmt, int)> {
    match name_at(bs, i) {
        Some((a, b)) => match assign_at(bs, b) {
            Some(j) => match p_expr(bs, j) {
                Some((e, k)) => match punct_at(bs, k, 59) {
                    Some(k1) => Some((SStmt::Assign(bs.subrange(a, b), e), k1)),
                    None => None,
                },
                None => None,
            },
            None => None,
        },
        None => None,
    }
}

/// The statements of a block after those in `acc`, up to its `}`.
pub open spec fn p_stmts(bs: Seq<u8>, i: int, acc: Seq<SStmt>) -> Option<(SStmt, int)>
    decreases bs.len() - i, 3int,
{
    if !(0 <= i <= bs.len()) {
        None
    } else {
        match punct_at(bs, i, 125) {
            Some(j) => Some((SStmt::Block(acc), j)),
            None => match p_stmt(bs, i) {
                Some((s, k)) => if i < k <= bs.len() {
                    p_stmts(bs, k, acc.push(s))
                } else {
                    None
                },
                None => None,
            },
        }
    }
}

/// The parameters after those in `acc`, up to the closing `)`; a trailing
/// comma is allowed.
pub open spec fn p_params(bs: Seq<u8>, i: int, acc: Seq<Seq<u8>>) -> Option<(Seq<Seq<u8>>, int)>
    decreases bs.len() - i,
{
    if !(0 <= i <= bs.len()) {
        None
    } else {
        match punct_at(bs, i, 41) {
            Some(j) => Some((acc, j)),
            None => match name_at(bs, i) {
                Some((a, b)) => if i < b <= bs.len() {
                    match punct_at(bs, b, 44) {
                        Some(j) => if i < j <= bs.len() {
                            p_params(bs, j, acc.push(bs.subrange(a, b)))
                        } else {
                            None
                        },
                        None => match punct_at(bs, b, 41) {
                            Some(j) => Some((acc.push(bs.subrange(a, b)), j)),
                            None => None,
                        },
                    }
                } else {
                    None
                },
                None => None,
            },
        }
    }
}

/// A function starting at `i`, and where it ends.
pub open spec fn p_func(bs: Seq<u8>, i: int) -> Option<(SFunc, int)> {
    match kw_at(bs, i, 1) {
        Some(j) => match name_at(bs, j) {
            Some((a, b)) => match punct_at(bs, b, 40) {
                Some(k) => match p_params(bs, k, Seq::empty()) {
                    Some((ps, k2)) => match p_stmt(bs, k2) {
                        Some((body, k3)) => Some((SFunc { name: bs.subrange(a, b), params: ps, body }, k3)),
                        None => None,
                    },
                    None => None,
                },
                None => None,
            },
            None => None,
        },
        None => None,
    }
}

/// The functions from `i` to the end of the input, after those in `acc`.
pub open spec fn p_program(bs: Seq<u8>, i: int, acc: Seq<SFunc>) -> Option<Seq<SFunc>>
    decreases bs.len() - i,
{
    if !(0 <= i <= bs.len()) {
        None
    } else if skip_ws(bs, i) >= bs.len() {
        Some(acc)
    } else {
        match p_func(bs, i) {
            Some((f, k)) => if i < k <= bs.len() {
                p_program(bs, k, acc.push(f))
            } else {
                None
            },
            None => None,
        }
    }
}

/// Why a program was not accepted.
#[derive(Debug, Clone, Copy, PartialEq, Eq)]
pub enum ParseError {
    /// The input holds a character outside ASCII.
    NonAscii,
    /// The input does not follow the grammar.
    Syntax,
}

/// The bytes are those of an ASCII input.
pub open spec fn input_ok(input: &str, bs: Seq<u8>) -> bool {
    &&& vstd::string::is_ascii(input)
    &&& bs == input.spec_bytes()
    &&& bs.len() == input@.len()
    &&& forall|k: int| 0 <= k < bs.len() ==> #[trigger] bs[k] == input@[k] as u8
}

/// What an expression parser returns agrees with the grammar.
pub open spec fn expr_agrees(r: Option<(ExprAST, usize)>, s: Option<(SExpr, int)>, i: int, n: int) -> bool {
    match r {
        Some((e, j)) => s == Some((expr_view(e), j as int)) && i < j <= n,
        None => s is None,
    }
}

/// What a parser of the rest of an expression returns agrees with the
/// grammar.
pub open spec fn rest_agrees(r: Option<(ExprAST, usize)>, s: Option<(SExpr, int)>, i: int, n: int) -> bool {
    match r {
        Some((e, j)) => s == Some((expr_view(e), j as int)) && i <= j <= n,
        None => s is None,
    }
}

/// What a statement parser returns agrees with the grammar.
pub open spec fn stmt_agrees(r: Option<(StmtAST, usize)>, s: Option<(SStmt, int)>, i: int, n: int) -> bool {
    match r {
        Some((st, j)) => s == Some((stmt_view(st), j as int)) && i < j <= n,
        None => s is None,
    }
}

fn skip_ws_exec(bs: &[u8], i: usize) -> (r: usize)
    requires
        i <= bs@.len(),
    ensures
        r == skip_ws(bs@, i as int),
        i <= r <= bs@.len(),
{
    let mut j = i;
    while j < bs.len() && (bs[j] == 32 || bs[j] == 9 || bs[j] == 10 || bs[j] == 13)
        invariant
            i <= j <= bs@.len(),
            skip_ws(bs@, i as int) == skip_ws(bs@, j as int),
        decreases bs@.len() - j,
    {
        j = j + 1;
    }
    j
}

fn name_end_exec(bs: &[u8], i: usize) -> (r: usize)
    requires
        i <= bs@.len(),
    ensures
        r == name_end(bs@, i as int),
        i <= r <= bs@.len(),
{
    let mut j = i;
    while j < bs.len() && ((65 <= bs[j] && bs[j] <= 90) || (97 <= bs[j] && bs[j] <= 122) || bs[j] == 95 || (48
        <= bs[j] && bs[j] <= 57))
        invariant
            i <= j <= bs@.len(),
            name_end(bs@, i as int) == name_end(bs@, j as int),
        decreases bs@.len() - j,
    {
        j = j + 1;
    }
    j
}

fn digits_end_exec(bs: &[u8], i: usize) -> (r: usize)
    requires
        i <= bs@.len(),
    ensures
        r == digits_end(bs@, i as int),
        i <= r <= bs@.len(),
        forall|k: int| i <= k < r ==> is_digit(#[trigger] bs@[k]),
{
    let mut j = i;
    while j < bs.len() && 48 <= bs[j] && bs[j] <= 57
        invariant
            i <= j <= bs@.len(),
            digits_end(bs@, i as int) == digits_end(bs@, j as int),
            forall|k: int| i <= k < j ==> is_digit(#[trigger] bs@[k]),
        decreases bs@.len() - j,
    {
        j = j + 1;
    }
    j
}

proof fn lemma_digits_value_mono(bs: Seq<u8>, a: int, k: int, b: int)
    requires
        a <= k <= b <= bs.len(),
        0 <= a,
        forall|x: int| a <= x < b ==> is_digit(#[trigger] bs[x]),
    ensures
        0 <= digits_value(bs, a, k) <= digits_value(bs, a, b),
    decreases b - k,
{
    if k < b {
        lemma_digits_value_mono(bs, a, k, b - 1);
        assert(is_digit(bs[b - 1]));
    } else {
        lemma_digits_value_nonneg(bs, a, b);
    }
}

proof fn lemma_digits_value_nonneg(bs: Seq<u8>, a: int, b: int)
    requires
        0 <= a,
        b <= bs.len(),
        forall|x: int| a <= x < b ==> is_digit(#[trigger] bs[x]),
    ensures
        0 <= digits_value(bs, a, b),
    decreases b - a,
{
    if b > a {
        lemma_digits_value_nonneg(bs, a, b - 1);
        assert(is_digit(bs[b - 1]));
    }
}

/// The value of the digits from `a` to `b`, if it fits in an `i64`.
fn number_value(bs: &[u8], a: usize, b: usize) -> (r: Option<i64>)
    requires
        a <= b <= bs@.len(),
        forall|k: int| a <= k < b ==> is_digit(#[trigger] bs@[k]),
    ensures
        r == (if digits_value(bs@, a as int, b as int) <= i64::MAX {
            Some(digits_value(bs@, a as int, b as int) as i64)
        } else {
            None
        }),
{
    let mut v: i64 = 0;
    let mut k = a;
    while k < b
        invariant
            a <= k <= b <= bs@.len(),
            forall|x: int| a <= x < b ==> is_digit(#[trigger] bs@[x]),
            v == digits_value(bs@, a as int, k as int),
            0 <= v,
        decreases b - k,
    {
        let d: i64 = (bs[k] - 48) as i64;
        proof {
            assert(is_digit(bs@[k as int]));
        }
        if v > (i64::MAX - d) / 10 {
            proof {
                assert(v * 10 + d > i64::MAX) by (nonlinear_arith)
                    requires
                        v > (i64::MAX - d) / 10,
                        0 <= d <= 9,
                ;
                assert(digits_value(bs@, a as int, (k + 1) as int) == v * 10 + d);
                lemma_digits_value_mono(bs@, a as int, (k + 1) as int, b as int);
            }
            return None;
        }
        proof {
            assert(v * 10 + d <= i64::MAX) by (nonlinear_arith)
                requires
                    v <= (i64::MAX - d) / 10,
                    0 <= d <= 9,
                    0 <= v,
            ;
        }
        v = v * 10 + d;
        k = k + 1;
    }
    Some(v)
}

fn keyword_kind_exec(bs: &[u8], a: usize, b: usize) -> (r: u8)
    requires
        a <= b <= bs@.len(),
    ensures
        r == keyword_kind(bs@.subrange(a as int, b as int)),
{
    let ghost w = bs@.subrange(a as int, b as int);
    let len = b - a;
    if len == 2 && bs[a] == 102 && bs[a + 1] == 110 {
        proof {
            assert(w =~= seq![102u8, 110u8]);
        }
        1
    } else if len == 2 && bs[a] == 105 && bs[a + 1] == 102 {
        proof {
            assert(w =~= seq![105u8, 102u8]);
            assert(!(w =~= seq![102u8, 110u8]));
        }
        2
    } else if len == 4 && bs[a] == 101 && bs[a + 1] == 108 && bs[a + 2] == 115 && bs[a + 3] == 101 {
        proof {
            assert(w =~= seq![101u8, 108u8, 115u8, 101u8]);
        }
        3
    } else if len == 5 && bs[a] == 119 && bs[a + 1] == 104 && bs[a + 2] == 105 && bs[a + 3] == 108 && bs[a + 4]
        == 101 {
        proof {
            assert(w =~= seq![119u8, 104u8, 105u8, 108u8, 101u8]);
        }
        4
    } else if len == 6 && bs[a] == 114 && bs[a + 1] == 101 && bs[a + 2] == 116 && bs[a + 3] == 117 && bs[a + 4]
        == 114 && bs[a + 5] == 110 {
        proof {
            assert(w =~= seq![114u8, 101u8, 116u8, 117u8, 114u8, 110u8]);
        }
        5
    } else {
        proof {
            if w =~= seq![102u8, 110u8] {
                assert(w[0] == 102u8 && w[1] == 110u8);
            }
            if w =~= seq![105u8, 102u8] {
                assert(w[0] == 105u8 && w[1] == 102u8);
            }
            if w =~= seq![101u8, 108u8, 115u8, 101u8] {
                assert(w[0] == 101u8 && w[1] == 108u8 && w[2] == 115u8 && w[3] == 101u8);
            }
            if w =~= seq![119u8, 104u8, 105u8, 108u8, 101u8] {
                assert(w[0] == 119u8 && w[1] == 104u8 && w[2] == 105u8 && w[3] == 108u8 && w[4] == 101u8);
            }
            if w =~= seq![114u8, 101u8, 116u8, 117u8, 114u8, 110u8] {
                assert(w[0] == 114u8 && w[1] == 101u8 && w[2] == 116u8 && w[3] == 117u8 && w[4] == 114u8 && w[5]
                    == 110u8);
            }
        }
        0
    }
}

fn word_at_exec(bs: &[u8], i: usize) -> (r: Option<(usize, usize)>)
    requires
        i <= bs@.len(),
    ensures
        match r {
            Some((a, b)) => word_at(bs@, i as int) == Some((a as int, b as int)) && i <= a < b <= bs@.len(),
            None => word_at(bs@, i as int) is None,
        },
{
    let j = skip_ws_exec(bs, i);
    if j < bs.len() && ((65 <= bs[j] && bs[j] <= 90) || (97 <= bs[j] && bs[j] <= 122) || bs[j] == 95) {
        let e = name_end_exec(bs, j + 1);
        proof {
            assert(name_end(bs@, j as int) == name_end(bs@, j + 1));
        }
        Some((j, e))
    } else {
        None
    }
}

fn kw_at_exec(bs: &[u8], i: usize, kw: u8) -> (r: Option<usize>)
    requires
        i <= bs@.len(),
    ensures
        match r {
            Some(j) => kw_at(bs@, i as int, kw) == Some(j as int) && i < j <= bs@.len(),
            None => kw_at(bs@, i as int, kw) is None,
        },
{
    match word_at_exec(bs, i) {
        Some((a, b)) => if keyword_kind_exec(bs, a, b) == kw {
            Some(b)
        } else {
            None
        },
        None => None,
    }
}

fn name_at_exec(bs: &[u8], i: usize) -> (r: Option<(usize, usize)>)
    requires
        i <= bs@.len(),
    ensures
        match r {
            Some((a, b)) => name_at(bs@, i as int) == Some((a as int, b as int)) && i <= a < b <= bs@.len(),
            None => name_at(bs@, i as int) is None,
        },
{
    match word_at_exec(bs, i) {
        Some((a, b)) => if keyword_kind_exec(bs, a, b) == 0 {
            Some((a, b))
        } else {
            None
        },
        None => None,
    }
}

fn punct_at_exec(bs: &[u8], i: usize, c: u8) -> (r: Option<usize>)
    requires
        i <= bs@.len(),
    ensures
        match r {
            Some(j) => punct_at(bs@, i as int, c) == Some(j as int) && i < j <= bs@.len(),
            None => punct_at(bs@, i as int, c) is None,
        },
{
    let j = skip_ws_exec(bs, i);
    if j < bs.len() && bs[j] == c {
        Some(j + 1)
    } else {
        None
    }
}

fn assign_at_exec(bs: &[u8], i: usize) -> (r: Option<usize>)
    requires
        i <= bs@.len(),
    ensures
        match r {
            Some(j) => assign_at(bs@, i as int) == Some(j as int) && i < j <= bs@.len(),
            None => assign_at(bs@, i as int) is None,
        },
{
    let j = skip_ws_exec(bs, i);
    if j < bs.len() && bs[j] == 61 && !(j + 1 < bs.len() && bs[j + 1] == 61) {
        Some(j + 1)
    } else {
        None
    }
}

fn comparison_op_at_exec(bs: &[u8], i: usize) -> (r: Option<(BinaryOp, usize)>)
    requires
        i <= bs@.len(),
    ensures
        match r {
            Some((op, j)) => comparison_op_at(bs@, i as int) == Some((op, j as int)) && i < j <= bs@.len(),
            None => comparison_op_at(bs@, i as int) is None,
        },
{
    let j = skip_ws_exec(bs, i);
    let next_eq = j < bs.len() && j + 1 < bs.len() && bs[j + 1] == 61;
    if j < bs.len() && bs[j] == 61 && next_eq {
        Some((BinaryOp::EE, j + 2))
    } else if j < bs.len() && bs[j] == 33 && next_eq {
        Some((BinaryOp::NE, j + 2))
    } else if j < bs.len() && bs[j] == 60 && next_eq {
        Some((BinaryOp::LE, j + 2))
    } else if j < bs.len() && bs[j] == 62 && next_eq {
        Some((BinaryOp::GE, j + 2))
    } else if j < bs.len() && bs[j] == 60 {
        Some((BinaryOp::LT, j + 1))
    } else if j < bs.len() && bs[j] == 62 {
        Some((BinaryOp::GT, j + 1))
    } else {
        None
    }
}

fn add_op_at_exec(bs: &[u8], i: usize) -> (r: Option<(BinaryOp, usize)>)
    requires
        i <= bs@.len(),
    ensures
        match r {
            Some((op, j)) => add_op_at(bs@, i as int) == Some((op, j as int)) && i < j <= bs@.len(),
            None => add_op_at(bs@, i as int) is None,
        },
{
    let j = skip_ws_exec(bs, i);
    if j < bs.len() && bs[j] == 43 {
        Some((BinaryOp::Add, j + 1))
    } else if j < bs.len() && bs[j] == 45 {
        Some((BinaryOp::Sub, j + 1))
    } else {
        None
    }
}

fn unary_op_at_exec(bs: &[u8], i: usize) -> (r: Option<(UnaryOp, usize)>)
    requires
        i <= bs@.len(),
    ensures
        match r {
            Some((op, j)) => unary_op_at(bs@, i as int) == Some((op, j as int)) && i < j <= bs@.len(),
            None => unary_op_at(bs@, i as int) is None,
        },
{
    let j = skip_ws_exec(bs, i);
    if j < bs.len() && bs[j] == 45 {
        Some((UnaryOp::Neg, j + 1))
    } else if j < bs.len() && bs[j] == 33 && !(j + 1 < bs.len() && bs[j + 1] == 61) {
        Some((UnaryOp::Not, j + 1))
    } else {
        None
    }
}

/// The name between `a` and `b`.
fn make_name(input: &str, bs: &[u8], a: usize, b: usize) -> (s: String)
    requires
        input_ok(input, bs@),
        a <= b <= bs@.len(),
    ensures
        name_view(s) == bs@.subrange(a as int, b as int),
{
    let s = String::from_str(input.substring_ascii(a, b));
    proof {
        assert(name_view(s) =~= bs@.subrange(a as int, b as int));
    }
    s
}

fn parse_expr(input: &str, bs: &[u8], i: usize) -> (r: Option<(ExprAST, usize)>)
    requires
        input_ok(input, bs@),
        i <= bs@.len(),
    ensures
        expr_agrees(r, p_expr(bs@, i as int), i as int, bs@.len() as int),
    decreases bs@.len() - i, 7int,
{
    match parse_sum(input, bs, i) {
        Some((e, k)) => parse_comparison_rest(input, bs, k, e),
        None => None,
    }
}

fn parse_comparison_rest(input: &str, bs: &[u8], i: usize, acc: ExprAST) -> (r: Option<(ExprAST, usize)>)
    requires
        input_ok(input, bs@),
        i <= bs@.len(),
    ensures
        rest_agrees(r, p_comparison_rest(bs@, i as int, expr_view(acc)), i as int, bs@.len() as int),
    decreases bs@.len() - i, 6int,
{
    match comparison_op_at_exec(bs, i) {
        Some((op, j)) => match parse_sum(input, bs, j) {
            Some((e, k)) => parse_comparison_rest(input, bs, k, ExprAST::Binary(op, Box::new(acc), Box::new(e))),
            None => None,
        },
        None => Some((acc, i)),
    }
}

fn parse_sum(input: &str, bs: &[u8], i: usize) -> (r: Option<(ExprAST, usize)>)
    requires
        input_ok(input, bs@),
        i <= bs@.len(),
    ensures
        expr_agrees(r, p_sum(bs@, i as int), i as int, bs@.len() as int),
    decreases bs@.len() - i, 5int,
{
    match parse_term(input, bs, i) {
        Some((e, k)) => parse_sum_rest(input, bs, k, e),
        None => None,
    }
}

fn parse_sum_rest(input: &str, bs: &[u8], i: usize, acc: ExprAST) -> (r: Option<(ExprAST, usize)>)
    requires
        input_ok(input, bs@),
        i <= bs@.len(),
    ensures
        rest_agrees(r, p_sum_rest(bs@, i as int, expr_view(acc)), i as int, bs@.len() as int),
    decreases bs@.len() - i, 4int,
{
    match add_op_at_exec(bs, i) {
        Some((op, j)) => match parse_term(input, bs, j) {
            Some((e, k)) => parse_sum_rest(input, bs, k, ExprAST::Binary(op, Box::new(acc), Box::new(e))),
            None => None,
        },
        None => Some((acc, i)),
    }
}

fn parse_term(input: &str, bs: &[u8], i: usize) -> (r: Option<(ExprAST, usize)>)
    requires
        input_ok(input, bs@),
        i <= bs@.len(),
    ensures
        expr_agrees(r, p_term(bs@, i as int), i as int, bs@.len() as int),
    decreases bs@.len() - i, 3int,
{
    match parse_unary(input, bs, i) {
        Some((e, k)) => parse_term_rest(input, bs, k, e),
        None => None,
    }
}

fn parse_term_rest(input: &str, bs: &[u8], i: usize, acc: ExprAST) -> (r: Option<(ExprAST, usize)>)
    requires
        input_ok(input, bs@),
        i <= bs@.len(),
    ensures
        rest_agrees(r, p_term_rest(bs@, i as int, expr_view(acc)), i as int, bs@.len() as int),
    decreases bs@.len() - i, 2int,
{
    match punct_at_exec(bs, i, 42) {
        Some(j) => match parse_unary(input, bs, j) {
            Some((e, k)) => parse_term_rest(input, bs, k, ExprAST::Binary(BinaryOp::Mul, Box::new(acc), Box::new(e))),
            None => None,
        },
        None => Some((acc, i)),
    }
}

fn parse_unary(input: &str, bs: &[u8], i: usize) -> (r: Option<(ExprAST, usize)>)
    requires
        input_ok(input, bs@),
        i <= bs@.len(),
    ensures
        expr_agrees(r, p_unary(bs@, i as int), i as int, bs@.len() as int),
    decreases bs@.len() - i, 1int,
{
    match unary_op_at_exec(bs, i) {
        Some((op, j)) => match parse_unary(input, bs, j) {
            Some((e, k)) => Some((ExprAST::Unary(op, Box::new(e)), k)),
            None => None,
        },
        None => parse_primary(input, bs, i),
    }
}

fn parse_primary(input: &str, bs: &[u8], i: usize) -> (r: Option<(ExprAST, usize)>)
    requires
        input_ok(input, bs@),
        i <= bs@.len(),
    ensures
        expr_agrees(r, p_primary(bs@, i as int), i as int, bs@.len() as int),
    decreases bs@.len() - i, 0int,
{
    let j = skip_ws_exec(bs, i);
    if j < bs.len() && 48 <= bs[j] && bs[j] <= 57 {
        let e = digits_end_exec(bs, j + 1);
        proof {
            assert(digits_end(bs@, j as int) == digits_end(bs@, j + 1));
            assert(is_digit(bs@[j as int]));
            assert(forall|k: int| j <= k < e ==> is_digit(#[trigger] bs@[k]));
        }
        match number_value(bs, j, e) {
            Some(v) => Some((ExprAST::Number(v), e)),
            None => None,
        }
    } else {
        match name_at_exec(bs, i) {
            Some((a, b)) => Some((ExprAST::Variable(make_name(input, bs, a, b)), b)),
            None => match punct_at_exec(bs, i, 40) {
                Some(j1) => match parse_expr(input, bs, j1) {
                    Some((e, k)) => match punct_at_exec(bs, k, 41) {
                        Some(k1) => Some((e, k1)),
                        None => None,
                    },
                    None => None,
                },
                None => None,
            },
        }
    }
}

proof fn lemma_stmts_view_push(stmts: Seq<StmtAST>, s: StmtAST)
    ensures
        stmts_view(stmts.push(s)) == stmts_view(stmts).push(stmt_view(s)),
{
    assert(stmts.push(s).subrange(0, stmts.len() as int) =~= stmts);
}

fn parse_stmt(input: &str, bs: &[u8], i: usize) -> (r: Option<(StmtAST, usize)>)
    requires
        input_ok(input, bs@),
        i <= bs@.len(),
    ensures
        stmt_agrees(r, p_stmt(bs@, i as int), i as int, bs@.len() as int),
    decreases bs@.len() - i, 2int,
{
    match punct_at_exec(bs, i, 123) {
        Some(j) => parse_stmts(input, bs, j),
        None => match kw_at_exec(bs, i, 2) {
            Some(j) => parse_if(input, bs, i, j),
            None => match kw_at_exec(bs, i, 4) {
                Some(j) => parse_while(input, bs, i, j),
                None => match kw_at_exec(bs, i, 5) {
                    Some(j) => parse_return(input, bs, i, j),
                    None => parse_assign(input, bs, i),
                },
            },
        },
    }
}

fn parse_if(input: &str, bs: &[u8], i: usize, j: usize) -> (r: Option<(StmtAST, usize)>)
    requires
        input_ok(input, bs@),
        i < j <= bs@.len(),
    ensures
        stmt_agrees(r, p_if(bs@, i as int, j as int), i as int, bs@.len() as int),
    decreases bs@.len() - i, 1int,
{
    match parse_expr(input, bs, j) {
        Some((c, k)) => match parse_stmt(input, bs, k) {
            Some((t, k2)) => match kw_at_exec(bs, k2, 3) {
                Some(k3) => match parse_stmt(input, bs, k3) {
                    Some((e, k4)) => Some((StmtAST::IfElse(c, Box::new(t), Box::new(e)), k4)),
                    None => None,
                },
                None => {
                    let none: Vec<StmtAST> = Vec::new();
                    proof {
                        assert(none@ =~= Seq::<StmtAST>::empty());
                        assert(stmts_view(none@) =~= Seq::<SStmt>::empty());
                    }
                    let empty = StmtAST::Block(none);
                    let res = StmtAST::IfElse(c, Box::new(t), Box::new(empty));
                    proof {
                        assert(stmt_view(empty) == SStmt::Block(Seq::empty()));
                        assert(stmt_view(res) == SStmt::IfElse(expr_view(c), Box::new(stmt_view(t)), Box::new(SStmt::Block(Seq::empty()))));
                        assert(p_if(bs@, i as int, j as int) == Some((stmt_view(res), k2 as int)));
                    }
                    Some((res, k2))
                },
            },
            None => None,
        },
        None => None,
    }
}

fn parse_while(input: &str, bs: &[u8], i: usize, j: usize) -> (r: Option<(StmtAST, usize)>)
    requires
        input_ok(input, bs@),
        i < j <= bs@.len(),
    ensures
        stmt_agrees(r, p_while(bs@, i as int, j as int), i as int, bs@.len() as int),
    decreases bs@.len() - i, 1int,
{
    match parse_expr(input, bs, j) {
        Some((c, k)) => match parse_stmt(input, bs, k) {
            Some((body, k2)) => Some((StmtAST::While(c, Box::new(body)), k2)),
            None => None,
        },
        None => None,
    }
}

fn parse_return(input: &str, bs: &[u8], i: usize, j: usize) -> (r: Option<(StmtAST, usize)>)
    requires
        input_ok(input, bs@),
        i < j <= bs@.len(),
    ensures
        stmt_agrees(r, p_return(bs@, j as int), i as int, bs@.len() as int),
{
    match parse_expr(input, bs, j) {
        Some((e, k)) => match punct_at_exec(bs, k, 59) {
            Some(k1) => Some((StmtAST::Return(e), k1)),
            None => None,
        },
        None => None,
    }
}

fn parse_assign(input: &str, bs: &[u8], i: usize) -> (r: Option<(StmtAST, usize)>)
    requires
        input_ok(input, bs@),
        i <= bs@.len(),
    ensures
        stmt_agrees(r, p_assign(bs@, i as int), i as int, bs@.len() as int),
{
    match name_at_exec(bs, i) {
        Some((a, b)) => match assign_at_exec(bs, b) {
            Some(j) => match parse_expr(input, bs, j) {
                Some((e, k)) => match punct_at_exec(bs, k, 59) {
                    Some(k1) => Some((StmtAST::Assign(make_name(input, bs, a, b), e), k1)),
                    None => None,
                },
                None => None,
            },
            None => None,
        },
        None => None,
    }
}

/// The statements of a block starting at `i` (after its `{`), through its `}`.
fn parse_stmts(input: &str, bs: &[u8], i: usize) -> (r: Option<(StmtAST, usize)>)
    requires
        input_ok(input, bs@),
        i <= bs@.len(),
    ensures
        stmt_agrees(r, p_stmts(bs@, i as int, Seq::empty()), i as int, bs@.len() as int),
    decreases bs@.len() - i, 3int,
{
    let mut stmts: Vec<StmtAST> = Vec::new();
    let mut k = i;
    proof {
        assert(stmts_view(stmts@) =~= Seq::<SStmt>::empty());
    }
    loop
        invariant
            input_ok(input, bs@),
            i <= k <= bs@.len(),
            p_stmts(bs@, i as int, Seq::empty()) == p_stmts(bs@, k as int, stmts_view(stmts@)),
        decreases bs@.len() - k,
    {
        match punct_at_exec(bs, k, 125) {
            Some(j) => {
                return Some((StmtAST::Block(stmts), j));
            },
            None => match parse_stmt(input, bs, k) {
                Some((s, k2)) => {
                    proof {
                        lemma_stmts_view_push(stmts@, s);
                    }
                    stmts.push(s);
                    k = k2;
                },
                None => {
                    return None;
                },
            },
        }
    }
}

/// The parameters starting at `i` (after the `(`), through the `)`.
fn parse_params(input: &str, bs: &[u8], i: usize) -> (r: Option<(Vec<String>, usize)>)
    requires
        input_ok(input, bs@),
        i <= bs@.len(),
    ensures
        match r {
            Some((ps, j)) => p_params(bs@, i as int, Seq::empty()) == Some((names_view(ps@), j as int)) && i < j <= bs@.len(),
            None => p_params(bs@, i as int, Seq::empty()) is None,
        },
{
    let mut params: Vec<String> = Vec::new();
    let mut k = i;
    proof {
        assert(names_view(params@) =~= Seq::<Seq<u8>>::empty());
    }
    loop
        invariant
            input_ok(input, bs@),
            i <= k <= bs@.len(),
            p_params(bs@, i as int, Seq::empty()) == p_params(bs@, k as int, names_view(params@)),
        decreases bs@.len() - k,
    {
        match punct_at_exec(bs, k, 41) {
            Some(j) => {
                return Some((params, j));
            },
            None => match name_at_exec(bs, k) {
                Some((a, b)) => {
                    let name = make_name(input, bs, a, b);
                    let ghost p0 = params@;
                    params.push(name);
                    proof {
                        assert(names_view(params@) =~= names_view(p0).push(bs@.subrange(a as int, b as int)));
                    }
                    match punct_at_exec(bs, b, 44) {
                        Some(j) => {
                            k = j;
                        },
                        None => match punct_at_exec(bs, b, 41) {
                            Some(j) => {
                                return Some((params, j));
                            },
                            None => {
                                return None;
                            },
                        },
                    }
                },
                None => {
                    return None;
                },
            },
        }
    }
}

fn parse_func(input: &str, bs: &[u8], i: usize) -> (r: Option<(FuncAST, usize)>)
    requires
        input_ok(input, bs@),
        i <= bs@.len(),
    ensures
        match r {
            Some((f, j)) => p_func(bs@, i as int) == Some((func_view(f), j as int)) && i < j <= bs@.len(),
            None => p_func(bs@, i as int) is None,
        },
{
    match kw_at_exec(bs, i, 1) {
        Some(j) => match name_at_exec(bs, j) {
            Some((a, b)) => match punct_at_exec(bs, b, 40) {
                Some(k) => match parse_params(input, bs, k) {
                    Some((params, k2)) => match parse_stmt(input, bs, k2) {
                        Some((body, k3)) => {
                            let name = make_name(input, bs, a, b);
                            Some((FuncAST { name, params, body }, k3))
                        },
                        None => None,
                    },
                    None => None,
                },
                None => None,
            },
            None => None,
        },
        None => None,
    }
}

/// The parser of whole programs.
pub struct ProgramParser {}

impl ProgramParser {
    /// A parser; it holds no state.
    pub fn new() -> (r: Self) {
        ProgramParser {  }
    }

    /// The functions of a program, in order. Fails with `NonAscii` exactly on
    /// input with a character outside ASCII, and with `Syntax` exactly on
    /// ASCII input that does not follow the grammar.
    pub fn parse(&self, input: &str) -> (r: Result<Vec<FuncAST>, ParseError>)
        ensures
            r == Err::<Vec<FuncAST>, ParseError>(ParseError::NonAscii) <==> !vstd::string::is_ascii(input),
            r == Err::<Vec<FuncAST>, ParseError>(ParseError::Syntax) <==> (vstd::string::is_ascii(input) && p_program(
                input.spec_bytes(),
                0,
                Seq::empty(),
            ) is None),
            r matches Ok(fs) ==> p_program(input.spec_bytes(), 0, Seq::empty()) == Some(funcs_view(fs@)),
    {
        if !input.is_ascii() {
            return Err(ParseError::NonAscii);
        }
        let bs = input.as_bytes();
        proof {
            vstd::string::is_ascii_spec_bytes(input);
            assert(forall|k: int| 0 <= k < bs@.len() ==> #[trigger] bs@[k] == input@[k] as u8);
        }
        let mut funcs: Vec<FuncAST> = Vec::new();
        let mut i: usize = 0;
        proof {
            assert(funcs_view(funcs@) =~= Seq::<SFunc>::empty());
        }
        loop
            invariant
                input_ok(input, bs@),
                i <= bs@.len(),
                p_program(bs@, 0, Seq::empty()) == p_program(bs@, i as int, funcs_view(funcs@)),
            decreases bs@.len() - i,
        {
            let j = skip_ws_exec(bs, i);
            if j >= bs.len() {
                return Ok(funcs);
            }
            match parse_func(input, bs, i) {
                Some((f, k)) => {
                    let ghost f0 = funcs@;
                    funcs.push(f);
                    proof {
                        assert(funcs_view(funcs@) =~= funcs_view(f0).push(func_view(f)));
                    }
                    i = k;
                },
                None => {
                    return Err(ParseError::Syntax);
                },
            }
        }
    }
}

} // verus!
