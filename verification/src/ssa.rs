//! SSA e-graphs: hash-consed SSA values over union-find classes, with a
//! control-flow graph of blocks.
use vstd::prelude::*;

use crate::ast::{BinaryOp, ExprAST, FuncAST, StmtAST, UnaryOp, apply_binary, apply_unary, binary_spec, unary_spec};
use crate::domains::{ClassId, UnionFind, coarsens, is_rep_map, lemma_coarsens_trans, lemma_union_coarsens};
use crate::hashcons::{NodeKey, NodeTable, table_contents};

verus! {

/// Identifier of a basic block; block 0 is the entry.
pub type BlockId = usize;

/// An SSA value: a node of the e-graph whose operands are classes.
#[derive(Debug, Clone, Copy, PartialEq, Eq, Hash, Structural)]
pub enum SSAValue {
    Constant(i64),
    Param(usize),
    Phi(BlockId, ClassId, ClassId),
    Unary(UnaryOp, ClassId),
    Binary(BinaryOp, ClassId, ClassId),
}

/// A predecessor of a block: the predecessor block, the class of the
/// condition under which control moves along the edge, and whether the edge
/// is a loop back edge.
pub type Pred = (BlockId, ClassId, bool);

/// The control-flow graph: for every block, its predecessors.
pub type CFG = Vec<Vec<Pred>>;

/// The operand classes of a value, in order.
pub open spec fn uses_of(v: SSAValue) -> Seq<ClassId> {
    match v {
        SSAValue::Constant(_) => seq![],
        SSAValue::Param(_) => seq![],
        SSAValue::Phi(_, l, r) => seq![l, r],
        SSAValue::Unary(_, x) => seq![x],
        SSAValue::Binary(_, l, r) => seq![l, r],
    }
}

/// The value `v` with its operands replaced by `u`, in order.
pub open spec fn with_uses(v: SSAValue, u: Seq<ClassId>) -> SSAValue {
    match v {
        SSAValue::Constant(c) => SSAValue::Constant(c),
        SSAValue::Param(p) => SSAValue::Param(p),
        SSAValue::Phi(b, _, _) => SSAValue::Phi(b, u[0], u[1]),
        SSAValue::Unary(op, _) => SSAValue::Unary(op, u[0]),
        SSAValue::Binary(op, _, _) => SSAValue::Binary(op, u[0], u[1]),
    }
}

/// Whether a use of `v` lies on a forward edge: the use of a phi that comes
/// along a back edge of its block is not.
pub open spec fn use_is_forward(v: SSAValue, k: int, cfg: Seq<Seq<Pred>>) -> bool {
    match v {
        SSAValue::Phi(b, _, _) => if cfg[b as int][0].2 {
            k == 1
        } else if cfg[b as int][1].2 {
            k == 0
        } else {
            true
        },
        _ => true,
    }
}

/// The key tag of a unary operator.
pub open spec fn unary_code(op: UnaryOp) -> u8 {
    match op {
        UnaryOp::Neg => 3,
        UnaryOp::Not => 4,
    }
}

/// The key tag of a binary operator.
pub open spec fn binary_code(op: BinaryOp) -> u8 {
    match op {
        BinaryOp::Add => 5,
        BinaryOp::Sub => 6,
        BinaryOp::Mul => 7,
        BinaryOp::EE => 8,
        BinaryOp::NE => 9,
        BinaryOp::LT => 10,
        BinaryOp::LE => 11,
        BinaryOp::GT => 12,
        BinaryOp::GE => 13,
    }
}

/// The unary operator of a key tag.
pub open spec fn unary_of_code(c: u8) -> UnaryOp {
    if c == 3 {
        UnaryOp::Neg
    } else {
        UnaryOp::Not
    }
}

/// The binary operator of a key tag.
pub open spec fn binary_of_code(c: u8) -> BinaryOp {
    if c == 5 {
        BinaryOp::Add
    } else if c == 6 {
        BinaryOp::Sub
    } else if c == 7 {
        BinaryOp::Mul
    } else if c == 8 {
        BinaryOp::EE
    } else if c == 9 {
        BinaryOp::NE
    } else if c == 10 {
        BinaryOp::LT
    } else if c == 11 {
        BinaryOp::LE
    } else if c == 12 {
        BinaryOp::GT
    } else {
        BinaryOp::GE
    }
}

/// The key under which a value is hash-consed.
pub open spec fn encode(v: SSAValue) -> NodeKey {
    match v {
        SSAValue::Constant(c) => (0u8, c, 0usize, 0usize, 0usize),
        SSAValue::Param(p) => (1u8, 0i64, p, 0usize, 0usize),
        SSAValue::Phi(b, l, r) => (2u8, 0i64, b, l, r),
        SSAValue::Unary(op, x) => (unary_code(op), 0i64, x, 0usize, 0usize),
        SSAValue::Binary(op, l, r) => (binary_code(op), 0i64, l, r, 0usize),
    }
}

/// The value that a key encodes.
pub open spec fn decode(k: NodeKey) -> SSAValue {
    if k.0 == 0 {
        SSAValue::Constant(k.1)
    } else if k.0 == 1 {
        SSAValue::Param(k.2)
    } else if k.0 == 2 {
        SSAValue::Phi(k.2, k.3, k.4)
    } else if k.0 == 3 || k.0 == 4 {
        SSAValue::Unary(unary_of_code(k.0), k.2)
    } else {
        SSAValue::Binary(binary_of_code(k.0), k.2, k.3)
    }
}

/// Whether a key is the key of some value.
pub open spec fn valid_key(k: NodeKey) -> bool {
    encode(decode(k)) == k
}

/// Encoding is injective: decoding inverts it.
pub proof fn lemma_decode_encode(v: SSAValue)
    ensures
        decode(encode(v)) == v,
        valid_key(encode(v)),
{
}

/// The hash-cons key of a value: a tag for its kind and operator, then its
/// constant and its operands.
pub fn encode_value(v: SSAValue) -> (k: NodeKey)
    ensures
        k == encode(v),
{
    match v {
        SSAValue::Constant(c) => (0, c, 0, 0, 0),
        SSAValue::Param(p) => (1, 0, p, 0, 0),
        SSAValue::Phi(b, l, r) => (2, 0, b, l, r),
        SSAValue::Unary(op, x) => (
            match op {
                UnaryOp::Neg => 3,
                UnaryOp::Not => 4,
            },
            0,
            x,
            0,
            0,
        ),
        SSAValue::Binary(op, l, r) => (
            match op {
                BinaryOp::Add => 5,
                BinaryOp::Sub => 6,
                BinaryOp::Mul => 7,
                BinaryOp::EE => 8,
                BinaryOp::NE => 9,
                BinaryOp::LT => 10,
                BinaryOp::LE => 11,
                BinaryOp::GT => 12,
                BinaryOp::GE => 13,
            },
            0,
            l,
            r,
            0,
        ),
    }
}

/// The value that a key stands for.
pub fn decode_key(k: NodeKey) -> (v: SSAValue)
    ensures
        v == decode(k),
{
    let (tag, c, x, y, z) = k;
    if tag == 0 {
        SSAValue::Constant(c)
    } else if tag == 1 {
        SSAValue::Param(x)
    } else if tag == 2 {
        SSAValue::Phi(x, y, z)
    } else if tag == 3 {
        SSAValue::Unary(UnaryOp::Neg, x)
    } else if tag == 4 {
        SSAValue::Unary(UnaryOp::Not, x)
    } else {
        let op = if tag == 5 {
            BinaryOp::Add
        } else if tag == 6 {
            BinaryOp::Sub
        } else if tag == 7 {
            BinaryOp::Mul
        } else if tag == 8 {
            BinaryOp::EE
        } else if tag == 9 {
            BinaryOp::NE
        } else if tag == 10 {
            BinaryOp::LT
        } else if tag == 11 {
            BinaryOp::LE
        } else if tag == 12 {
            BinaryOp::GT
        } else {
            BinaryOp::GE
        };
        SSAValue::Binary(op, x, y)
    }
}

impl SSAValue {
    /// Whether the value is a constant.
    pub fn is_constant(&self) -> (r: bool)
        ensures
            r == (*self is Constant),
    {
        if let SSAValue::Constant(_) = self {
            true
        } else {
            false
        }
    }

    /// Whether the value is a parameter.
    pub fn is_param(&self) -> (r: bool)
        ensures
            r == (*self is Param),
    {
        if let SSAValue::Param(_) = self {
            true
        } else {
            false
        }
    }

    /// The block and operands of a phi, or `None` for any other value.
    pub fn try_phi(&self) -> (r: Option<(BlockId, ClassId, ClassId)>)
        ensures
            r == (match *self {
                SSAValue::Phi(b, l, rr) => Some((b, l, rr)),
                _ => None,
            }),
    {
        if let SSAValue::Phi(block, lhs, rhs) = self {
            Some((*block, *lhs, *rhs))
        } else {
            None
        }
    }

    /// The operand classes, in order.
    pub fn uses(&self) -> (r: Vec<ClassId>)
        ensures
            r@ == uses_of(*self),
    {
        match *self {
            SSAValue::Constant(_) | SSAValue::Param(_) => Vec::new(),
            SSAValue::Phi(_, l, r) | SSAValue::Binary(_, l, r) => {
                let mut v = Vec::new();
                v.push(l);
                v.push(r);
                proof {
                    assert(v@ =~= uses_of(*self));
                }
                v
            },
            SSAValue::Unary(_, x) => {
                let mut v = Vec::new();
                v.push(x);
                proof {
                    assert(v@ =~= uses_of(*self));
                }
                v
            },
        }
    }

    /// Replaces every operand `u` by `f(u)`, left to right.
    pub fn map_uses<F: Fn(ClassId) -> ClassId>(&mut self, f: F)
        requires
            forall|k: int| 0 <= k < uses_of(*old(self)).len() ==> call_requires(f, (#[trigger] uses_of(*old(self))[k],)),
        ensures
            uses_of(*final(self)).len() == uses_of(*old(self)).len(),
            *final(self) == with_uses(*old(self), uses_of(*final(self))),
            forall|k: int|
                0 <= k < uses_of(*old(self)).len() ==> call_ensures(
                    f,
                    (#[trigger] uses_of(*old(self))[k],),
                    uses_of(*final(self))[k],
                ),
    {
        match *self {
            SSAValue::Constant(_) | SSAValue::Param(_) => {},
            SSAValue::Phi(b, l, r) => {
                assert(uses_of(*self)[0] == l && uses_of(*self)[1] == r);
                let l2 = f(l);
                let r2 = f(r);
                *self = SSAValue::Phi(b, l2, r2);
            },
            SSAValue::Binary(op, l, r) => {
                assert(uses_of(*self)[0] == l && uses_of(*self)[1] == r);
                let l2 = f(l);
                let r2 = f(r);
                *self = SSAValue::Binary(op, l2, r2);
            },
            SSAValue::Unary(op, x) => {
                assert(uses_of(*self)[0] == x);
                let x2 = f(x);
                *self = SSAValue::Unary(op, x2);
            },
        }
    }

    /// Replaces every operand `u` that lies on a forward edge by `f(u)`; the
    /// operand of a phi that comes along a back edge of its block is kept.
    pub fn map_non_back_edge_uses<F: Fn(ClassId) -> ClassId>(&mut self, f: F, cfg: &CFG)
        requires
            *old(self) is Phi ==> ((*old(self))->Phi_0 as int) < cfg@.len() && cfg@[(*old(self))->Phi_0 as int]@.len() >= 2,
            forall|k: int|
                0 <= k < uses_of(*old(self)).len() ==> call_requires(f, (#[trigger] uses_of(*old(self))[k],)),
        ensures
            uses_of(*final(self)).len() == uses_of(*old(self)).len(),
            *final(self) == with_uses(*old(self), uses_of(*final(self))),
            forall|k: int|
                0 <= k < uses_of(*old(self)).len() ==> if use_is_forward(*old(self), k, cfg@.map_values(|p: Vec<Pred>| p@)) {
                    call_ensures(f, (#[trigger] uses_of(*old(self))[k],), uses_of(*final(self))[k])
                } else {
                    uses_of(*final(self))[k] == uses_of(*old(self))[k]
                },
    {
        match *self {
            SSAValue::Constant(_) | SSAValue::Param(_) => {},
            SSAValue::Phi(b, l, r) => {
                assert(uses_of(*self)[0] == l && uses_of(*self)[1] == r);
                let preds = &cfg[b];
                if preds[0].2 {
                    let r2 = f(r);
                    *self = SSAValue::Phi(b, l, r2);
                } else if preds[1].2 {
                    let l2 = f(l);
                    *self = SSAValue::Phi(b, l2, r);
                } else {
                    let l2 = f(l);
                    let r2 = f(r);
                    *self = SSAValue::Phi(b, l2, r2);
                }
            },
            SSAValue::Binary(op, l, r) => {
                assert(uses_of(*self)[0] == l && uses_of(*self)[1] == r);
                let l2 = f(l);
                let r2 = f(r);
                *self = SSAValue::Binary(op, l2, r2);
            },
            SSAValue::Unary(op, x) => {
                assert(uses_of(*self)[0] == x);
                let x2 = f(x);
                *self = SSAValue::Unary(op, x2);
            },
        }
    }
}

/// The control-flow graph as a sequence of predecessor lists.
pub open spec fn cfg_view(cfg: &CFG) -> Seq<Seq<Pred>> {
    cfg@.map_values(|p: Vec<Pred>| p@)
}

/// Every predecessor names an existing block and an existing class.
pub open spec fn cfg_wf(cfg: Seq<Seq<Pred>>, num_ids: nat) -> bool {
    forall|b: int, k: int|
        0 <= b < cfg.len() && 0 <= k < cfg[b].len() ==> (#[trigger] cfg[b][k].0 as int) < cfg.len()
            && (cfg[b][k].1 as int) < num_ids
}

/// A value names existing classes, and a phi names a block with exactly two
/// predecessors, not both along back edges.
pub open spec fn value_wf(v: SSAValue, num_ids: nat, cfg: Seq<Seq<Pred>>) -> bool {
    &&& forall|k: int| 0 <= k < uses_of(v).len() ==> (#[trigger] uses_of(v)[k] as int) < num_ids
    &&& v is Phi ==> {
        &&& (v->Phi_0 as int) < cfg.len()
        &&& cfg[v->Phi_0 as int].len() == 2
        &&& !(cfg[v->Phi_0 as int][0].2 && cfg[v->Phi_0 as int][1].2)
    }
}

/// The values that a node table holds, with their classes.
pub open spec fn table_nodes(t: NodeTable) -> Map<SSAValue, ClassId> {
    Map::new(
        |v: SSAValue| table_contents(t).contains_key(encode(v)),
        |v: SSAValue| table_contents(t)[encode(v)],
    )
}

/// An SSA e-graph: the hash-consed values with their classes, the union-find
/// over classes, and for each returning block the class it returns.
pub struct SSAGraph {
    pub values: NodeTable,
    pub uf: UnionFind,
    pub roots: Vec<(BlockId, ClassId)>,
}

impl SSAGraph {
    /// The values of the graph with their classes.
    pub open spec fn nodes(self) -> Map<SSAValue, ClassId> {
        table_nodes(self.values)
    }

    /// The number of class ids.
    pub open spec fn num_ids(self) -> nat {
        self.uf@.len()
    }

    /// Every key of the table is the key of a value.
    pub open spec fn keys_valid(self) -> bool {
        forall|k: NodeKey| #[trigger] table_contents(self.values).contains_key(k) ==> valid_key(k)
    }

    /// Well-formed against `cfg`: every id, block and operand named anywhere
    /// exists, phis have two predecessors, and no block returns twice.
    pub open spec fn wf(self, cfg: Seq<Seq<Pred>>) -> bool {
        &&& self.uf.wf()
        &&& self.keys_valid()
        &&& forall|v: SSAValue|
            #[trigger] self.nodes().contains_key(v) ==> (self.nodes()[v] as int) < self.num_ids()
                && value_wf(v, self.num_ids(), cfg)
        &&& cfg_wf(cfg, self.num_ids())
        &&& forall|i: int|
            0 <= i < self.roots@.len() ==> (#[trigger] self.roots@[i].0 as int) < cfg.len() && (
            self.roots@[i].1 as int) < self.num_ids()
        &&& forall|i: int, j: int|
            0 <= i < self.roots@.len() && 0 <= j < self.roots@.len() && i != j ==> #[trigger] self.roots@[i].0
                != #[trigger] self.roots@[j].0
    }

    /// Every class named by a value, a root or a condition is the
    /// representative of its class.
    pub open spec fn canonical(self, cfg: Seq<Seq<Pred>>) -> bool {
        &&& forall|v: SSAValue| #[trigger] self.nodes().contains_key(v) ==> {
            &&& self.uf@[self.nodes()[v] as int] == self.nodes()[v]
            &&& forall|k: int| 0 <= k < uses_of(v).len() ==> self.uf@[#[trigger] uses_of(v)[k] as int] == uses_of(v)[k]
        }
        &&& forall|i: int| 0 <= i < self.roots@.len() ==> self.uf@[#[trigger] self.roots@[i].1 as int] == self.roots@[i].1
        &&& forall|b: int, k: int|
            0 <= b < cfg.len() && 0 <= k < cfg[b].len() ==> self.uf@[#[trigger] cfg[b][k].1 as int] == cfg[b][k].1
    }

    /// The class of `value`, if the graph holds it.
    pub fn lookup(&self, value: SSAValue) -> (r: Option<ClassId>)
        ensures
            r == (if self.nodes().contains_key(value) {
                Some(self.nodes()[value])
            } else {
                None
            }),
    {
        self.values.get(encode_value(value))
    }

    /// The number of values.
    pub fn num_values(&self) -> (n: usize)
        ensures
            n == table_contents(self.values).len(),
    {
        self.values.len()
    }

    /// The values with their classes, each once, in an unstated order.
    pub fn value_entries(&self) -> (r: Vec<(SSAValue, ClassId)>)
        requires
            self.keys_valid(),
        ensures
            r@.len() == table_contents(self.values).len(),
            forall|i: int|
                0 <= i < r@.len() ==> self.nodes().contains_key(#[trigger] r@[i].0) && self.nodes()[r@[i].0]
                    == r@[i].1,
            forall|i: int, j: int|
                0 <= i < r@.len() && 0 <= j < r@.len() && i != j ==> #[trigger] r@[i].0 != #[trigger] r@[j].0,
            forall|v: SSAValue|
                #[trigger] self.nodes().contains_key(v) ==> exists|i: int| 0 <= i < r@.len() && #[trigger] r@[i].0 == v,
    {
        let entries = self.values.entries();
        let mut r: Vec<(SSAValue, ClassId)> = Vec::new();
        let mut i: usize = 0;
        while i < entries.len()
            invariant
                i <= entries@.len(),
                self.keys_valid(),
                r@.len() == i,
                forall|j: int| 0 <= j < i ==> #[trigger] r@[j] == (decode(entries@[j].0), entries@[j].1),
            decreases entries@.len() - i,
        {
            let (k, id) = entries[i];
            r.push((decode_key(k), id));
            i = i + 1;
        }
        proof {
            assert forall|i: int| 0 <= i < r@.len() implies self.nodes().contains_key(#[trigger] r@[i].0)
                && self.nodes()[r@[i].0] == r@[i].1 by {
                assert(table_contents(self.values).contains_key(entries@[i].0));
                assert(valid_key(entries@[i].0));
            }
            assert forall|i: int, j: int|
                0 <= i < r@.len() && 0 <= j < r@.len() && i != j implies #[trigger] r@[i].0
                != #[trigger] r@[j].0 by {
                assert(table_contents(self.values).contains_key(entries@[i].0));
                assert(table_contents(self.values).contains_key(entries@[j].0));
                assert(valid_key(entries@[i].0));
                assert(valid_key(entries@[j].0));
            }
            assert forall|v: SSAValue| #[trigger] self.nodes().contains_key(v) implies exists|i: int|
                0 <= i < r@.len() && #[trigger] r@[i].0 == v by {
                let k = encode(v);
                assert(table_contents(self.values).contains_key(k));
                let i = choose|i: int| 0 <= i < entries@.len() && #[trigger] entries@[i].0 == k;
                lemma_decode_encode(v);
                assert(r@[i].0 == v);
            }
        }
        r
    }

    /// The class of `value`: the one the graph already gives it, or a new
    /// class made for it.
    fn add_value(&mut self, value: SSAValue) -> (id: ClassId)
        requires
            old(self).uf.wf(),
            old(self).keys_valid(),
        ensures
            final(self).uf.wf(),
            final(self).keys_valid(),
            final(self).roots == old(self).roots,
            old(self).nodes().contains_key(value) ==> {
                &&& final(self).nodes() == old(self).nodes()
                &&& final(self).uf@ == old(self).uf@
                &&& id == old(self).nodes()[value]
            },
            !old(self).nodes().contains_key(value) ==> {
                &&& final(self).nodes() == old(self).nodes().insert(value, id)
                &&& final(self).uf@ == old(self).uf@.push(id)
                &&& id == old(self).uf@.len()
            },
    {
        let key = encode_value(value);
        match self.values.get(key) {
            Some(id) => id,
            None => {
                let id = self.uf.mk();
                self.values.insert(key, id);
                proof {
                    lemma_decode_encode(value);
                    assert forall|v: SSAValue| #[trigger] encode(v) == key implies v == value by {
                        lemma_decode_encode(v);
                    }
                    assert(self.nodes() =~= old(self).nodes().insert(value, id));
                }
                id
            },
        }
    }

    /// A new class with no value yet.
    fn alloc_id(&mut self) -> (id: ClassId)
        requires
            old(self).uf.wf(),
        ensures
            final(self).uf.wf(),
            final(self).values == old(self).values,
            final(self).roots == old(self).roots,
            final(self).uf@ == old(self).uf@.push(id),
            id == old(self).uf@.len(),
    {
        self.uf.mk()
    }

    /// Gives `value` the class `id` unless the graph already holds it;
    /// returns the class it ends up with.
    fn set_value(&mut self, id: ClassId, value: SSAValue) -> (r: ClassId)
        requires
            old(self).keys_valid(),
        ensures
            final(self).keys_valid(),
            final(self).uf == old(self).uf,
            final(self).roots == old(self).roots,
            old(self).nodes().contains_key(value) ==> final(self).nodes() == old(self).nodes() && r
                == old(self).nodes()[value],
            !old(self).nodes().contains_key(value) ==> final(self).nodes() == old(self).nodes().insert(
                value,
                id,
            ) && r == id,
    {
        let key = encode_value(value);
        match self.values.get(key) {
            Some(old) => old,
            None => {
                self.values.insert(key, id);
                proof {
                    lemma_decode_encode(value);
                    assert forall|v: SSAValue| #[trigger] encode(v) == key implies v == value by {
                        lemma_decode_encode(v);
                    }
                    assert(self.nodes() =~= old(self).nodes().insert(value, id));
                }
                id
            },
        }
    }
}

/// Whether every variable that `e` reads is in `scope`.
pub open spec fn expr_defined(e: ExprAST, scope: Set<Seq<char>>) -> bool
    decreases e,
{
    match e {
        ExprAST::Number(_) => true,
        ExprAST::Variable(name) => scope.contains(name@),
        ExprAST::Unary(_, x) => expr_defined(*x, scope),
        ExprAST::Binary(_, l, r) => expr_defined(*l, scope) && expr_defined(*r, scope),
    }
}

/// What translating `s` in `scope` comes to: `None` when it reads a variable
/// that is not defined; `Some(None)` when control leaves the function by a
/// return; `Some(Some(t))` when control falls through with the variables `t`
/// defined.
pub open spec fn stmt_scope(s: StmtAST, scope: Set<Seq<char>>) -> Option<Option<Set<Seq<char>>>>
    decreases s,
{
    match s {
        StmtAST::Block(stmts) => block_scope(stmts@, scope),
        StmtAST::Assign(name, e) => if expr_defined(e, scope) {
            Some(Some(scope.insert(name@)))
        } else {
            None
        },
        StmtAST::IfElse(c, t, e) => if !expr_defined(c, scope) {
            None
        } else {
            match (stmt_scope(*t, scope), stmt_scope(*e, scope)) {
                (Some(a), Some(b)) => Some(
                    match (a, b) {
                        (Some(x), Some(y)) => Some(x.intersect(y)),
                        (Some(x), None) => Some(x),
                        (None, y) => y,
                    },
                ),
                _ => None,
            }
        },
        StmtAST::While(c, b) => if !expr_defined(c, scope) {
            None
        } else {
            match stmt_scope(*b, scope) {
                Some(_) => Some(Some(scope)),
                None => None,
            }
        },
        StmtAST::Return(e) => if expr_defined(e, scope) {
            Some(None)
        } else {
            None
        },
    }
}

/// `stmt_scope` of a sequence of statements; statements after a return are
/// not translated.
pub open spec fn block_scope(stmts: Seq<StmtAST>, scope: Set<Seq<char>>) -> Option<Option<Set<Seq<char>>>>
    decreases stmts,
{
    if stmts.len() == 0 {
        Some(Some(scope))
    } else {
        match stmt_scope(stmts[0], scope) {
            None => None,
            Some(None) => Some(None),
            Some(Some(t)) => block_scope(stmts.subrange(1, stmts.len() as int), t),
        }
    }
}

/// Whether some way through `s`, from a state where `scope` is defined,
/// reaches a `return`; statements after one that always returns are not
/// translated and do not count.
pub open spec fn may_return(s: StmtAST, scope: Set<Seq<char>>) -> bool
    decreases s,
{
    match s {
        StmtAST::Block(stmts) => block_may_return(stmts@, scope),
        StmtAST::Assign(_, _) => false,
        StmtAST::IfElse(_, t, e) => may_return(*t, scope) || may_return(*e, scope),
        StmtAST::While(_, b) => may_return(*b, scope),
        StmtAST::Return(_) => true,
    }
}

/// `may_return` of a sequence of statements.
pub open spec fn block_may_return(stmts: Seq<StmtAST>, scope: Set<Seq<char>>) -> bool
    decreases stmts,
{
    if stmts.len() == 0 {
        false
    } else {
        may_return(stmts[0], scope) || match stmt_scope(stmts[0], scope) {
            Some(Some(t)) => block_may_return(stmts.subrange(1, stmts.len() as int), t),
            _ => false,
        }
    }
}

/// The names in a sequence of strings.
pub open spec fn name_set(names: Seq<String>) -> Set<Seq<char>> {
    Set::new(|n: Seq<char>| exists|i: int| 0 <= i < names.len() && #[trigger] names[i]@ == n)
}

/// The names of a function's parameters.
pub open spec fn param_names(params: Seq<String>) -> Set<Seq<char>> {
    name_set(params)
}

/// Whether a function reads no variable before defining it, so that it can be
/// translated into SSA form.
pub open spec fn well_scoped(func: FuncAST) -> bool {
    stmt_scope(func.body, param_names(func.params@)) is Some
}

proof fn lemma_scope_grows(s: StmtAST, scope: Set<Seq<char>>)
    ensures
        stmt_scope(s, scope) matches Some(Some(t)) ==> scope.subset_of(t),
    decreases s,
{
    match s {
        StmtAST::Block(stmts) => {
            lemma_block_scope_grows(stmts@, scope);
        },
        StmtAST::IfElse(c, t, e) => {
            lemma_scope_grows(*t, scope);
            lemma_scope_grows(*e, scope);
        },
        StmtAST::While(c, b) => {},
        _ => {},
    }
}

proof fn lemma_block_scope_grows(stmts: Seq<StmtAST>, scope: Set<Seq<char>>)
    ensures
        block_scope(stmts, scope) matches Some(Some(t)) ==> scope.subset_of(t),
    decreases stmts,
{
    if stmts.len() > 0 {
        lemma_scope_grows(stmts[0], scope);
        if let Some(Some(t)) = stmt_scope(stmts[0], scope) {
            lemma_block_scope_grows(stmts.subrange(1, stmts.len() as int), t);
        }
    }
}

/// The scope of a sequence of statements from its `i`-th on.
proof fn lemma_block_scope_step(stmts: Seq<StmtAST>, i: int, scope: Set<Seq<char>>)
    requires
        0 <= i < stmts.len(),
    ensures
        block_scope(stmts.subrange(i, stmts.len() as int), scope) == match stmt_scope(stmts[i], scope) {
            None => None,
            Some(None) => Some(None),
            Some(Some(t)) => block_scope(stmts.subrange(i + 1, stmts.len() as int), t),
        },
{
    let rest = stmts.subrange(i, stmts.len() as int);
    assert(rest[0] == stmts[i]);
    assert(rest.subrange(1, rest.len() as int) =~= stmts.subrange(i + 1, stmts.len() as int));
}

/// `block_may_return` of a sequence of statements from its `i`-th on.
proof fn lemma_block_may_return_step(stmts: Seq<StmtAST>, i: int, scope: Set<Seq<char>>)
    requires
        0 <= i < stmts.len(),
    ensures
        block_may_return(stmts.subrange(i, stmts.len() as int), scope) == (may_return(stmts[i], scope)
            || match stmt_scope(stmts[i], scope) {
            Some(Some(t)) => block_may_return(stmts.subrange(i + 1, stmts.len() as int), t),
            _ => false,
        }),
{
    let rest = stmts.subrange(i, stmts.len() as int);
    assert(rest[0] == stmts[i]);
    assert(rest.subrange(1, rest.len() as int) =~= stmts.subrange(i + 1, stmts.len() as int));
}

/// The names bound in a variable environment.
pub open spec fn var_names(vars: Seq<(String, ClassId)>) -> Set<Seq<char>> {
    Set::new(|n: Seq<char>| exists|i: int| 0 <= i < vars.len() && #[trigger] vars[i].0@ == n)
}

/// No variable is bound twice.
pub open spec fn vars_distinct(vars: Seq<(String, ClassId)>) -> bool {
    forall|i: int, j: int|
        0 <= i < vars.len() && 0 <= j < vars.len() && i != j ==> #[trigger] vars[i].0@ != #[trigger] vars[j].0@
}

/// Every bound class exists.
pub open spec fn vars_bounded(vars: Seq<(String, ClassId)>, n: nat) -> bool {
    forall|i: int| 0 <= i < vars.len() ==> (#[trigger] vars[i].1 as int) < n
}

fn find_var(vars: &Vec<(String, ClassId)>, name: &String) -> (r: Option<usize>)
    ensures
        match r {
            Some(i) => i < vars@.len() && vars@[i as int].0@ == name@,
            None => forall|i: int| 0 <= i < vars@.len() ==> #[trigger] vars@[i].0@ != name@,
        },
        r is None <==> !var_names(vars@).contains(name@),
{
    let mut i: usize = 0;
    while i < vars.len()
        invariant
            i <= vars@.len(),
            forall|j: int| 0 <= j < i ==> #[trigger] vars@[j].0@ != name@,
        decreases vars@.len() - i,
    {
        if vars[i].0 == *name {
            proof {
                assert(var_names(vars@).contains(name@)) by {
                    assert(vars@[i as int].0@ == name@);
                }
            }
            return Some(i);
        }
        i = i + 1;
    }
    None
}

fn lookup_var(vars: &Vec<(String, ClassId)>, name: &String) -> (r: Option<ClassId>)
    ensures
        r is None <==> !var_names(vars@).contains(name@),
        r matches Some(id) ==> exists|i: int| 0 <= i < vars@.len() && #[trigger] vars@[i].0@ == name@ && vars@[i].1 == id,
{
    match find_var(vars, name) {
        Some(i) => Some(vars[i].1),
        None => None,
    }
}

fn insert_var(vars: &mut Vec<(String, ClassId)>, name: &String, id: ClassId)
    requires
        vars_distinct(old(vars)@),
    ensures
        vars_distinct(final(vars)@),
        var_names(final(vars)@) == var_names(old(vars)@).insert(name@),
        final(vars)@.len() >= old(vars)@.len(),
        forall|j: int| 0 <= j < old(vars)@.len() ==> (#[trigger] final(vars)@[j]).0@ == old(vars)@[j].0@,
        forall|j: int|
            0 <= j < final(vars)@.len() ==> if (#[trigger] final(vars)@[j]).0@ == name@ {
                final(vars)@[j].1 == id
            } else {
                j < old(vars)@.len() && final(vars)@[j].1 == old(vars)@[j].1
            },
{
    match find_var(vars, name) {
        Some(i) => {
            let n = vars[i].0.clone();
            vars.set(i, (n, id));
            proof {
                assert(var_names(vars@) =~= var_names(old(vars)@).insert(name@)) by {
                    assert forall|x: Seq<char>| var_names(old(vars)@).insert(name@).contains(x) implies var_names(vars@).contains(x) by {
                        if x != name@ {
                            let k = choose|k: int| 0 <= k < old(vars)@.len() && #[trigger] old(vars)@[k].0@ == x;
                            assert(vars@[k].0@ == x);
                        } else {
                            assert(vars@[i as int].0@ == x);
                        }
                    }
                    assert forall|x: Seq<char>| var_names(vars@).contains(x) implies var_names(old(vars)@).insert(name@).contains(x) by {
                        let k = choose|k: int| 0 <= k < vars@.len() && #[trigger] vars@[k].0@ == x;
                        assert(old(vars)@[k].0@ == x);
                    }
                }
            }
        },
        None => {
            vars.push((name.clone(), id));
            proof {
                assert(var_names(vars@) =~= var_names(old(vars)@).insert(name@)) by {
                    assert forall|x: Seq<char>| var_names(old(vars)@).insert(name@).contains(x) implies var_names(vars@).contains(x) by {
                        if x != name@ {
                            let k = choose|k: int| 0 <= k < old(vars)@.len() && #[trigger] old(vars)@[k].0@ == x;
                            assert(vars@[k].0@ == x);
                        } else {
                            assert(vars@[old(vars)@.len() as int].0@ == x);
                        }
                    }
                    assert forall|x: Seq<char>| var_names(vars@).contains(x) implies var_names(old(vars)@).insert(name@).contains(x) by {
                        let k = choose|k: int| 0 <= k < vars@.len() && #[trigger] vars@[k].0@ == x;
                        if k < old(vars)@.len() {
                            assert(old(vars)@[k].0@ == x);
                        }
                    }
                }
            }
        },
    }
}

fn clone_vars(vars: &Vec<(String, ClassId)>) -> (r: Vec<(String, ClassId)>)
    ensures
        r@ == vars@,
{
    let mut r: Vec<(String, ClassId)> = Vec::new();
    let mut i: usize = 0;
    while i < vars.len()
        invariant
            i <= vars@.len(),
            r@ == vars@.subrange(0, i as int),
        decreases vars@.len() - i,
    {
        let n = vars[i].0.clone();
        r.push((n, vars[i].1));
        proof {
            assert(r@ =~= vars@.subrange(0, i + 1));
        }
        i = i + 1;
    }
    proof {
        assert(r@ =~= vars@);
    }
    r
}

/// Adds a new block with no predecessors yet.
fn new_block(cfg: &mut CFG) -> (b: BlockId)
    ensures
        b == old(cfg)@.len(),
        final(cfg)@.len() == old(cfg)@.len() + 1,
        cfg_view(final(cfg)) == cfg_view(old(cfg)).push(Seq::empty()),
{
    let b = cfg.len();
    cfg.push(Vec::new());
    proof {
        assert(cfg_view(cfg) =~= cfg_view(old(cfg)).push(Seq::empty()));
    }
    b
}

/// Sets the predecessors of a block.
fn set_preds(cfg: &mut CFG, b: BlockId, preds: Vec<Pred>)
    requires
        b < old(cfg)@.len(),
    ensures
        cfg_view(final(cfg)) == cfg_view(old(cfg)).update(b as int, preds@),
        final(cfg)@.len() == old(cfg)@.len(),
{
    cfg.set(b, preds);
    proof {
        assert(cfg_view(cfg) =~= cfg_view(old(cfg)).update(b as int, preds@));
    }
}

/// The state of the translation between statements: the class each variable
/// holds, and the block that control has reached.
struct NaiveSSAContext {
    vars: Vec<(String, ClassId)>,
    last_block: BlockId,
}

/// How a translation step changes the graph: blocks and classes are only
/// added, existing blocks keep their predecessors, roots are only appended,
/// and the values it adds are no parameters and hold phis only of new blocks.
pub open spec fn grows(ssa0: SSAGraph, cfg0: Seq<Seq<Pred>>, ssa1: SSAGraph, cfg1: Seq<Seq<Pred>>) -> bool {
    &&& cfg0.len() <= cfg1.len()
    &&& forall|b: int| 0 <= b < cfg0.len() ==> #[trigger] cfg1[b] == cfg0[b]
    &&& ssa0.num_ids() <= ssa1.num_ids()
    &&& ssa0.roots@.len() <= ssa1.roots@.len()
    &&& forall|i: int| 0 <= i < ssa0.roots@.len() ==> #[trigger] ssa1.roots@[i] == ssa0.roots@[i]
    &&& forall|v: SSAValue|
        #[trigger] ssa1.nodes().contains_key(v) && !ssa0.nodes().contains_key(v) ==> !(v is Param) && (
        v is Phi ==> v->Phi_0 >= cfg0.len())
    &&& forall|v: SSAValue|
        #[trigger] ssa0.nodes().contains_key(v) ==> ssa1.nodes().contains_key(v) && ssa1.nodes()[v]
            == ssa0.nodes()[v]
}

proof fn lemma_grows_trans(
    s0: SSAGraph,
    c0: Seq<Seq<Pred>>,
    s1: SSAGraph,
    c1: Seq<Seq<Pred>>,
    s2: SSAGraph,
    c2: Seq<Seq<Pred>>,
)
    requires
        grows(s0, c0, s1, c1),
        grows(s1, c1, s2, c2),
    ensures
        grows(s0, c0, s2, c2),
{
    assert forall|v: SSAValue|
        #[trigger] s2.nodes().contains_key(v) && !s0.nodes().contains_key(v) implies !(v is Param) && (
        v is Phi ==> v->Phi_0 >= c0.len()) by {
        if s1.nodes().contains_key(v) {
        } else {
        }
    }
}

proof fn lemma_grows_push(s0: SSAGraph, c0: Seq<Seq<Pred>>, s1: SSAGraph, c1: Seq<Seq<Pred>>)
    requires
        grows(s0, c0, s1, c1),
    ensures
        grows(s0, c0, s1, c1.push(Seq::empty())),
{
    assert forall|b: int| 0 <= b < c0.len() implies #[trigger] c1.push(Seq::empty())[b] == c0[b] by {
        assert(c1[b] == c0[b]);
    }
}

proof fn lemma_grows_update(s0: SSAGraph, c0: Seq<Seq<Pred>>, s1: SSAGraph, c1: Seq<Seq<Pred>>, b: int, p: Seq<Pred>)
    requires
        grows(s0, c0, s1, c1),
        c0.len() <= b < c1.len(),
    ensures
        grows(s0, c0, s1, c1.update(b, p)),
{
    assert forall|x: int| 0 <= x < c0.len() implies #[trigger] c1.update(b, p)[x] == c0[x] by {
        assert(c1[x] == c0[x]);
    }
}

/// A block whose predecessors are settled: one or two of them, the first a
/// forward edge; forward edges come from earlier blocks and back edges from
/// later ones.
pub open spec fn block_shaped(cfg: Seq<Seq<Pred>>, b: int) -> bool {
    &&& 1 <= cfg[b].len() <= 2
    &&& !cfg[b][0].2
    &&& forall|k: int|
        0 <= k < cfg[b].len() ==> if (#[trigger] cfg[b][k]).2 {
            cfg[b][k].0 > b
        } else {
            cfg[b][k].0 < b
        }
}

/// Every block from `lo` on is settled.
pub open spec fn blocks_shaped_from(cfg: Seq<Seq<Pred>>, lo: int) -> bool {
    forall|b: int| lo <= b < cfg.len() ==> #[trigger] block_shaped(cfg, b)
}

proof fn lemma_shaped_extend(c1: Seq<Seq<Pred>>, c2: Seq<Seq<Pred>>, lo: int)
    requires
        0 <= lo <= c1.len() <= c2.len(),
        blocks_shaped_from(c1, lo),
        blocks_shaped_from(c2, c1.len() as int),
        forall|b: int| 0 <= b < c1.len() ==> #[trigger] c2[b] == c1[b],
    ensures
        blocks_shaped_from(c2, lo),
{
    assert forall|b: int| lo <= b < c2.len() implies #[trigger] block_shaped(c2, b) by {
        if b < c1.len() {
            assert(c2[b] == c1[b]);
            assert(block_shaped(c1, b));
        }
    }
}

/// Whether a block returns in the graph.
pub open spec fn is_root_block(ssa: SSAGraph, b: int) -> bool {
    exists|i: int| 0 <= i < ssa.roots@.len() && #[trigger] ssa.roots@[i].0 == b
}

/// A graph stays well-formed when a block with no predecessors is added.
proof fn lemma_wf_new_block(ssa: SSAGraph, cfg: Seq<Seq<Pred>>)
    requires
        ssa.wf(cfg),
    ensures
        ssa.wf(cfg.push(Seq::empty())),
{
    let c2 = cfg.push(Seq::empty());
    assert forall|v: SSAValue| #[trigger] ssa.nodes().contains_key(v) implies value_wf(v, ssa.num_ids(), c2) by {
        assert(value_wf(v, ssa.num_ids(), cfg));
    }
    assert forall|b: int, k: int| 0 <= b < c2.len() && 0 <= k < c2[b].len() implies (#[trigger] c2[b][k].0 as int) < c2.len()
        && (c2[b][k].1 as int) < ssa.num_ids() by {
        assert(cfg[b][k] == c2[b][k]);
    }
}

/// A graph stays well-formed when a block that holds no phi, or that gets two
/// predecessors not both along back edges, gets predecessors that name
/// existing blocks and classes.
proof fn lemma_wf_set_preds(ssa: SSAGraph, cfg: Seq<Seq<Pred>>, b: int, preds: Seq<Pred>)
    requires
        ssa.wf(cfg),
        0 <= b < cfg.len(),
        cfg[b].len() == 0 || (preds.len() == 2 && !(preds[0].2 && preds[1].2)),
        forall|k: int| 0 <= k < preds.len() ==> (#[trigger] preds[k].0 as int) < cfg.len() && (preds[k].1 as int) < ssa.num_ids(),
    ensures
        ssa.wf(cfg.update(b, preds)),
{
    let c2 = cfg.update(b, preds);
    assert forall|v: SSAValue| #[trigger] ssa.nodes().contains_key(v) implies value_wf(v, ssa.num_ids(), c2) by {
        assert(value_wf(v, ssa.num_ids(), cfg));
    }
    assert forall|x: int, k: int| 0 <= x < c2.len() && 0 <= k < c2[x].len() implies (#[trigger] c2[x][k].0 as int) < c2.len()
        && (c2[x][k].1 as int) < ssa.num_ids() by {
        if x != b {
            assert(cfg[x][k] == c2[x][k]);
        }
    }
}

/// A graph stays well-formed when a block's predecessors are replaced by as
/// many predecessors with the same back-edge flags, naming existing blocks
/// and classes.
proof fn lemma_wf_set_preds_same_shape(ssa: SSAGraph, cfg: Seq<Seq<Pred>>, b: int, preds: Seq<Pred>)
    requires
        ssa.wf(cfg),
        0 <= b < cfg.len(),
        preds.len() == cfg[b].len(),
        forall|k: int| 0 <= k < preds.len() ==> (#[trigger] preds[k]).2 == cfg[b][k].2,
        forall|k: int| 0 <= k < preds.len() ==> (#[trigger] preds[k].0 as int) < cfg.len() && (preds[k].1 as int) < ssa.num_ids(),
    ensures
        ssa.wf(cfg.update(b, preds)),
{
    let c2 = cfg.update(b, preds);
    assert forall|v: SSAValue| #[trigger] ssa.nodes().contains_key(v) implies value_wf(v, ssa.num_ids(), c2) by {
        assert(value_wf(v, ssa.num_ids(), cfg));
        if v is Phi && v->Phi_0 == b {
            assert(preds[0].2 == cfg[b][0].2);
            assert(preds[1].2 == cfg[b][1].2);
        }
    }
    assert forall|x: int, k: int| 0 <= x < c2.len() && 0 <= k < c2[x].len() implies (#[trigger] c2[x][k].0 as int) < c2.len()
        && (c2[x][k].1 as int) < ssa.num_ids() by {
        if x != b {
            assert(cfg[x][k] == c2[x][k]);
        }
    }
}

/// A graph stays well-formed, with the same cfg, when its union-find merges
/// two classes or gains a class.
pub(crate) proof fn lemma_wf_uf_grows(ssa0: SSAGraph, ssa1: SSAGraph, cfg: Seq<Seq<Pred>>)
    requires
        ssa0.wf(cfg),
        ssa1.uf.wf(),
        ssa1.values == ssa0.values,
        ssa1.roots == ssa0.roots,
        ssa0.num_ids() <= ssa1.num_ids(),
    ensures
        ssa1.wf(cfg),
{
    assert forall|v: SSAValue| #[trigger] ssa1.nodes().contains_key(v) implies (ssa1.nodes()[v] as int) < ssa1.num_ids()
        && value_wf(v, ssa1.num_ids(), cfg) by {
        assert(ssa0.nodes().contains_key(v));
        assert(value_wf(v, ssa0.num_ids(), cfg));
    }
}

impl SSAGraph {
    /// `add_value` on a well-formed graph, for a value that names existing
    /// classes and blocks.
    fn add_value_wf(&mut self, value: SSAValue, Ghost(cfg): Ghost<Seq<Seq<Pred>>>) -> (id: ClassId)
        requires
            old(self).wf(cfg),
            value_wf(value, old(self).num_ids(), cfg),
        ensures
            final(self).wf(cfg),
            final(self).roots == old(self).roots,
            old(self).num_ids() <= final(self).num_ids(),
            final(self).nodes().contains_key(value),
            final(self).nodes()[value] == id,
            (id as int) < final(self).num_ids(),
            forall|v: SSAValue|
                #[trigger] old(self).nodes().contains_key(v) ==> final(self).nodes().contains_key(v)
                    && final(self).nodes()[v] == old(self).nodes()[v],
            forall|v: SSAValue|
                #[trigger] final(self).nodes().contains_key(v) && !old(self).nodes().contains_key(v) ==> v == value,
    {
        let id = self.add_value(value);
        proof {
            assert forall|v: SSAValue| #[trigger] self.nodes().contains_key(v) implies (self.nodes()[v] as int) < self.num_ids()
                && value_wf(v, self.num_ids(), cfg) by {
                if v != value || old(self).nodes().contains_key(value) {
                    assert(old(self).nodes().contains_key(v));
                    assert(value_wf(v, old(self).num_ids(), cfg));
                }
            }
        }
        id
    }
}

/// The class of the value `v` in the graph, if the graph holds `v`.
pub open spec fn node_class(nodes: Map<SSAValue, ClassId>, v: SSAValue) -> Option<ClassId> {
    if nodes.contains_key(v) {
        Some(nodes[v])
    } else {
        None
    }
}

/// The class that a variable environment binds `name` to.
pub open spec fn var_class(vars: Seq<(String, ClassId)>, name: Seq<char>) -> Option<ClassId> {
    if exists|i: int| 0 <= i < vars.len() && #[trigger] vars[i].0@ == name {
        Some(vars[choose|i: int| 0 <= i < vars.len() && #[trigger] vars[i].0@ == name].1)
    } else {
        None
    }
}

/// The class of an expression in the graph, with its variables bound as in
/// `vars`: a number is the class of its constant, and an operator is the
/// class of the value that applies it to the classes of its operands.
pub open spec fn expr_class(nodes: Map<SSAValue, ClassId>, vars: Seq<(String, ClassId)>, e: ExprAST) -> Option<
    ClassId,
>
    decreases e,
{
    match e {
        ExprAST::Number(n) => node_class(nodes, SSAValue::Constant(n)),
        ExprAST::Variable(x) => var_class(vars, x@),
        ExprAST::Unary(op, a) => match expr_class(nodes, vars, *a) {
            Some(c) => node_class(nodes, SSAValue::Unary(op, c)),
            None => None,
        },
        ExprAST::Binary(op, a, b) => match (expr_class(nodes, vars, *a), expr_class(nodes, vars, *b)) {
            (Some(l), Some(r)) => node_class(nodes, SSAValue::Binary(op, l, r)),
            _ => None,
        },
    }
}

proof fn lemma_expr_class_grows(n0: Map<SSAValue, ClassId>, n1: Map<SSAValue, ClassId>, vars: Seq<(String, ClassId)>, e: ExprAST)
    requires
        n0.submap_of(n1),
    ensures
        expr_class(n0, vars, e) is Some ==> expr_class(n1, vars, e) == expr_class(n0, vars, e),
    decreases e,
{
    match e {
        ExprAST::Number(n) => {
            assert(n0.dom().contains(SSAValue::Constant(n)) ==> n1.dom().contains(SSAValue::Constant(n)));
        },
        ExprAST::Variable(_) => {},
        ExprAST::Unary(op, a) => {
            lemma_expr_class_grows(n0, n1, vars, *a);
            if let Some(c) = expr_class(n0, vars, *a) {
                assert(n0.dom().contains(SSAValue::Unary(op, c)) ==> n1.dom().contains(SSAValue::Unary(op, c)));
            }
        },
        ExprAST::Binary(op, a, b) => {
            lemma_expr_class_grows(n0, n1, vars, *a);
            lemma_expr_class_grows(n0, n1, vars, *b);
            if let (Some(l), Some(r)) = (expr_class(n0, vars, *a), expr_class(n0, vars, *b)) {
                assert(n0.dom().contains(SSAValue::Binary(op, l, r)) ==> n1.dom().contains(SSAValue::Binary(op, l, r)));
            }
        },
    }
}

proof fn lemma_var_class_at(vars: Seq<(String, ClassId)>, i: int)
    requires
        vars_distinct(vars),
        0 <= i < vars.len(),
    ensures
        var_class(vars, vars[i].0@) == Some(vars[i].1),
{
    let n = vars[i].0@;
    assert(exists|j: int| 0 <= j < vars.len() && #[trigger] vars[j].0@ == n);
    let j = choose|j: int| 0 <= j < vars.len() && #[trigger] vars[j].0@ == n;
    if j != i {
        assert(vars[i].0@ != vars[j].0@);
    }
}

/// What `insert_var` does to the bindings.
proof fn lemma_var_class_insert(v0: Seq<(String, ClassId)>, v1: Seq<(String, ClassId)>, name: Seq<char>, id: ClassId)
    requires
        vars_distinct(v0),
        vars_distinct(v1),
        var_names(v1) == var_names(v0).insert(name),
        v1.len() >= v0.len(),
        forall|j: int| 0 <= j < v0.len() ==> (#[trigger] v1[j]).0@ == v0[j].0@,
        forall|j: int|
            0 <= j < v1.len() ==> if (#[trigger] v1[j]).0@ == name {
                v1[j].1 == id
            } else {
                j < v0.len() && v1[j].1 == v0[j].1
            },
    ensures
        var_class(v1, name) == Some(id),
        forall|n: Seq<char>| n != name ==> #[trigger] var_class(v1, n) == var_class(v0, n),
{
    assert(var_names(v1).contains(name));
    let k = choose|k: int| 0 <= k < v1.len() && #[trigger] v1[k].0@ == name;
    lemma_var_class_at(v1, k);
    assert forall|n: Seq<char>| n != name implies #[trigger] var_class(v1, n) == var_class(v0, n) by {
        if var_names(v0).contains(n) {
            let i = choose|i: int| 0 <= i < v0.len() && #[trigger] v0[i].0@ == n;
            lemma_var_class_at(v0, i);
            assert(v1[i].0@ == n);
            lemma_var_class_at(v1, i);
        } else {
            assert(!var_names(v1).contains(n));
            assert(!(exists|i: int| 0 <= i < v1.len() && #[trigger] v1[i].0@ == n));
            assert(!(exists|i: int| 0 <= i < v0.len() && #[trigger] v0[i].0@ == n));
        }
    }
}

impl NaiveSSAContext {
    spec fn wf(&self, ssa: SSAGraph, cfg: Seq<Seq<Pred>>) -> bool {
        &&& vars_distinct(self.vars@)
        &&& vars_bounded(self.vars@, ssa.num_ids())
        &&& (self.last_block as int) < cfg.len()
        &&& !is_root_block(ssa, self.last_block as int)
    }

    spec fn names(&self) -> Set<Seq<char>> {
        var_names(self.vars@)
    }

    /// Translates an expression; returns its class, the one `expr_class`
    /// gives the expression in the graph afterwards.
    fn handle_expr(&self, ssa: &mut SSAGraph, cfg: &CFG, expr: &ExprAST) -> (id: ClassId)
        requires
            old(ssa).wf(cfg_view(cfg)),
            vars_distinct(self.vars@),
            vars_bounded(self.vars@, old(ssa).num_ids()),
            expr_defined(*expr, self.names()),
        ensures
            final(ssa).wf(cfg_view(cfg)),
            grows(*old(ssa), cfg_view(cfg), *final(ssa), cfg_view(cfg)),
            final(ssa).roots == old(ssa).roots,
            (id as int) < final(ssa).num_ids(),
            expr_class(final(ssa).nodes(), self.vars@, *expr) == Some(id),
        decreases expr,
    {
        let value = match expr {
            ExprAST::Number(cons) => SSAValue::Constant(*cons),
            ExprAST::Variable(name) => {
                match lookup_var(&self.vars, name) {
                    Some(id) => {
                        proof {
                            let i = choose|i: int| 0 <= i < self.vars@.len() && #[trigger] self.vars@[i].0@ == name@
                                && self.vars@[i].1 == id;
                            lemma_var_class_at(self.vars@, i);
                        }
                        return id;
                    },
                    None => {
                        proof {
                            assert(false);
                        }
                        return 0;
                    },
                }
            },
            ExprAST::Unary(op, input) => {
                let x = self.handle_expr(ssa, cfg, input);
                SSAValue::Unary(*op, x)
            },
            ExprAST::Binary(op, lhs, rhs) => {
                let ghost ssa0 = *ssa;
                let l = self.handle_expr(ssa, cfg, lhs);
                let ghost ssa1 = *ssa;
                let r = self.handle_expr(ssa, cfg, rhs);
                proof {
                    lemma_grows_trans(ssa0, cfg_view(cfg), ssa1, cfg_view(cfg), *ssa, cfg_view(cfg));
                    lemma_expr_class_grows(ssa1.nodes(), ssa.nodes(), self.vars@, **lhs);
                }
                SSAValue::Binary(*op, l, r)
            },
        };
        let ghost ssa1 = *ssa;
        let id = ssa.add_value(value);
        proof {
            assert(value_wf(value, ssa.num_ids(), cfg_view(cfg)));
            assert(grows(ssa1, cfg_view(cfg), *ssa, cfg_view(cfg)));
            lemma_grows_trans(*old(ssa), cfg_view(cfg), ssa1, cfg_view(cfg), *ssa, cfg_view(cfg));
            assert(ssa1.nodes().submap_of(ssa.nodes()));
            if *expr is Unary {
                lemma_expr_class_grows(ssa1.nodes(), ssa.nodes(), self.vars@, *(*expr)->Unary_1);
            }
            if *expr is Binary {
                lemma_expr_class_grows(ssa1.nodes(), ssa.nodes(), self.vars@, *(*expr)->Binary_1);
                lemma_expr_class_grows(ssa1.nodes(), ssa.nodes(), self.vars@, *(*expr)->Binary_2);
            }
        }
        id
    }


    /// What translating `stmt` from this context guarantees: the graph stays
    /// well-formed and only grows, new roots lie in this context's block or in
    /// new blocks, and the context after the statement binds exactly the
    /// variables that `stmt_scope` says, in a block that does not return. The
    /// blocks it adds are settled, and it adds roots exactly when some way
    /// through it returns. An assignment binds its variable to the
    /// class of its expression and changes no other binding; a return adds one
    /// root, in this context's block, holding the class of its expression.
    spec fn translated(
        self,
        ssa0: SSAGraph,
        cfg0: Seq<Seq<Pred>>,
        ssa1: SSAGraph,
        cfg1: Seq<Seq<Pred>>,
        stmt: StmtAST,
        r: Option<NaiveSSAContext>,
    ) -> bool {
        &&& ssa1.wf(cfg1)
        &&& grows(ssa0, cfg0, ssa1, cfg1)
        &&& blocks_shaped_from(cfg1, cfg0.len() as int)
        &&& (ssa0.roots@.len() < ssa1.roots@.len() <==> may_return(stmt, self.names()))
        &&& (stmt matches StmtAST::Assign(x, e) ==> {
            &&& cfg1 == cfg0
            &&& ssa1.roots == ssa0.roots
            &&& r matches Some(c) && c.last_block == self.last_block && var_class(c.vars@, x@) == expr_class(
                ssa1.nodes(),
                self.vars@,
                e,
            ) && forall|n: Seq<char>| n != x@ ==> #[trigger] var_class(c.vars@, n) == var_class(self.vars@, n)
        })
        &&& (stmt matches StmtAST::Return(e) ==> {
            &&& cfg1 == cfg0
            &&& ssa1.roots@.len() == ssa0.roots@.len() + 1
            &&& ssa1.roots@.last().0 == self.last_block
            &&& expr_class(ssa1.nodes(), self.vars@, e) == Some(ssa1.roots@.last().1)
        })
        &&& forall|i: int|
            ssa0.roots@.len() <= i < ssa1.roots@.len() ==> #[trigger] ssa1.roots@[i].0 == self.last_block
                || ssa1.roots@[i].0 >= cfg0.len()
        &&& match stmt_scope(stmt, self.names()) {
            Some(None) => r is None,
            Some(Some(t)) => r matches Some(c) && {
                &&& c.names() == t
                &&& c.wf(ssa1, cfg1)
                &&& (c.last_block == self.last_block || c.last_block >= cfg0.len())
                &&& !is_root_block(ssa1, self.last_block as int)
            },
            None => true,
        }
    }


    /// The blocks that translating a loop adds after the existing ones: its
    /// head, entered first from the current block by a forward edge; the
    /// first block of its body, entered from the head; and, where
    /// translation goes on, the block after the loop, entered from the head.
    spec fn while_blocks(self, cfg0: Seq<Seq<Pred>>, cfg1: Seq<Seq<Pred>>, r: Option<NaiveSSAContext>) -> bool {
        let h = cfg0.len() as int;
        &&& cfg1.len() >= h + 3
        &&& cfg1[h].len() >= 1 && cfg1[h][0].0 == self.last_block && !cfg1[h][0].2
        &&& cfg1[h + 1].len() == 1 && cfg1[h + 1][0].0 as int == h && !cfg1[h + 1][0].2
        &&& r matches Some(c) && h + 2 <= c.last_block < cfg1.len() && cfg1[c.last_block as int].len() == 1
            && cfg1[c.last_block as int][0].0 as int == h && !cfg1[c.last_block as int][0].2
    }

    /// The blocks that translating an if-else adds after the existing ones:
    /// first the block of the then branch, entered from the current block
    /// under the class of the condition; later the block of the else branch,
    /// entered from the current block under the class of its negation.
    spec fn if_blocks(self, ssa1: SSAGraph, cfg0: Seq<Seq<Pred>>, cfg1: Seq<Seq<Pred>>, stmt: StmtAST) -> bool {
        match stmt {
            StmtAST::IfElse(cond, _, _) => {
                let h = cfg0.len() as int;
                &&& expr_class(ssa1.nodes(), self.vars@, cond) matches Some(c)
                &&& node_class(ssa1.nodes(), SSAValue::Unary(UnaryOp::Not, c)) matches Some(nc)
                &&& cfg1.len() >= h + 2
                &&& cfg1[h] == seq![(self.last_block, c, false)]
                &&& exists|f: int| h < f < cfg1.len() && #[trigger] cfg1[f] == seq![(self.last_block, nc, false)]
            },
            _ => true,
        }
    }

    /// The conditions on the edges out of a loop's head (block `h`, the first
    /// one added): its body is entered under the class of the condition, read
    /// with every variable bound to a new class (the loop's phis), and the
    /// block after the loop under the class of its negation.
    spec fn while_conditions(
        self,
        ssa0: SSAGraph,
        ssa1: SSAGraph,
        cfg0: Seq<Seq<Pred>>,
        cfg1: Seq<Seq<Pred>>,
        stmt: StmtAST,
        r: Option<NaiveSSAContext>,
    ) -> bool {
        match stmt {
            StmtAST::While(cond, _) => exists|pv: Seq<(String, ClassId)>|
                #![trigger expr_class(ssa1.nodes(), pv, cond)]
                {
                    let h = cfg0.len() as int;
                    &&& var_names(pv) == self.names()
                    &&& forall|k: int| 0 <= k < pv.len() ==> (#[trigger] pv[k].1 as int) >= ssa0.num_ids()
                    &&& expr_class(ssa1.nodes(), pv, cond) matches Some(c)
                    &&& node_class(ssa1.nodes(), SSAValue::Unary(UnaryOp::Not, c)) matches Some(nc)
                    &&& cfg1.len() > h + 1
                    &&& cfg1[h + 1] == seq![(h as BlockId, c, false)]
                    &&& r matches Some(x) && (x.last_block as int) < cfg1.len() && cfg1[x.last_block as int] == seq![
                        (h as BlockId, nc, false),
                    ]
                },
            _ => true,
        }
    }

    /// How an if-else joins its branches: each branch is handled in a
    /// context with this context's bindings, the then branch in the first
    /// block added and the else branch in the block after the then branch's
    /// blocks. Where both fall through, a last block joins their last blocks
    /// (under the class of the constant 1) and binds every variable to the
    /// phi there of its class at the end of the then branch and its class at
    /// the end of the else branch; where one falls through, translation goes
    /// on from it.
    spec fn if_joins(self, ssa1: SSAGraph, cfg0: Seq<Seq<Pred>>, cfg1: Seq<Seq<Pred>>, stmt: StmtAST, r: Option<NaiveSSAContext>) -> bool {
        match stmt {
            StmtAST::IfElse(_, ts, es) => exists|
                tctx: NaiveSSAContext,
                ectx: NaiveSSAContext,
                tr: Option<NaiveSSAContext>,
                er: Option<NaiveSSAContext>,
                sa: SSAGraph,
                ca: Seq<Seq<Pred>>,
                sb: SSAGraph,
                cb: Seq<Seq<Pred>>,
                sc: SSAGraph,
                cc: Seq<Seq<Pred>>,
                sd: SSAGraph,
                cd: Seq<Seq<Pred>>,
            |
                #![trigger tctx.translated(sa, ca, sb, cb, *ts, tr), ectx.translated(sc, cc, sd, cd, *es, er)]
                {
                    &&& tctx.vars@ == self.vars@
                    &&& tctx.last_block == cfg0.len()
                    &&& tctx.translated(sa, ca, sb, cb, *ts, tr)
                    &&& ectx.vars@ == self.vars@
                    &&& ectx.last_block == cb.len()
                    &&& ectx.translated(sc, cc, sd, cd, *es, er)
                    &&& sb.nodes().submap_of(ssa1.nodes())
                    &&& sd.nodes().submap_of(ssa1.nodes())
                    &&& match tr {
                        Some(t) => match er {
                            Some(e) => r matches Some(x) && {
                                let m = x.last_block as int;
                                &&& m == cfg1.len() - 1
                                &&& node_class(ssa1.nodes(), SSAValue::Constant(1)) matches Some(o)
                                &&& cfg1[m] == seq![(t.last_block, o, false), (e.last_block, o, false)]
                                &&& forall|n: Seq<char>|
                                    #[trigger] x.names().contains(n) ==> var_class(x.vars@, n) == node_class(
                                        ssa1.nodes(),
                                        SSAValue::Phi(x.last_block, var_class(t.vars@, n)->0, var_class(e.vars@, n)->0),
                                    )
                            },
                            None => r == tr,
                        },
                        None => r == er,
                    }
                },
            _ => true,
        }
    }

    /// How a loop joins its head: its body is handled in a context that
    /// binds every variable to a fresh class (`pv`) in the block after the
    /// head. Where the body falls through, the head is entered from the
    /// current block and by a back edge from the body's last block, both
    /// under the class of the constant 1, and every variable stays bound to
    /// its fresh class, merged with the class of the phi at the head of its
    /// class before the loop and its class at the end of the body. Where the
    /// body always returns, the head is entered from the current block only,
    /// and every variable keeps its class from before the loop, with which its
    /// fresh class is merged.
    spec fn while_joins(self, ssa1: SSAGraph, cfg0: Seq<Seq<Pred>>, cfg1: Seq<Seq<Pred>>, stmt: StmtAST, r: Option<NaiveSSAContext>) -> bool {
        match stmt {
            StmtAST::While(_, body) => exists|
                bctx: NaiveSSAContext,
                br: Option<NaiveSSAContext>,
                sa: SSAGraph,
                ca: Seq<Seq<Pred>>,
                sb: SSAGraph,
                cb: Seq<Seq<Pred>>,
            |
                #![trigger bctx.translated(sa, ca, sb, cb, *body, br)]
                {
                    let h = cfg0.len() as int;
                    &&& bctx.last_block == h + 1
                    &&& bctx.names() == self.names()
                    &&& bctx.translated(sa, ca, sb, cb, *body, br)
                    &&& sb.nodes().submap_of(ssa1.nodes())
                    &&& node_class(ssa1.nodes(), SSAValue::Constant(1)) matches Some(o)
                    &&& r matches Some(x)
                    &&& x.names() == self.names()
                    &&& match br {
                        Some(b) => {
                            &&& cfg1[h] == seq![(self.last_block, o, false), (b.last_block, o, true)]
                            &&& forall|n: Seq<char>|
                                #[trigger] self.names().contains(n) ==> (var_class(x.vars@, n) == var_class(bctx.vars@, n)
                                    && (node_class(
                                    ssa1.nodes(),
                                    SSAValue::Phi(h as BlockId, var_class(self.vars@, n)->0, var_class(b.vars@, n)->0),
                                ) matches Some(c) && ssa1.uf@[c as int] == ssa1.uf@[var_class(x.vars@, n)->0 as int]))
                        },
                        None => {
                            &&& cfg1[h] == seq![(self.last_block, o, false)]
                            &&& forall|n: Seq<char>|
                                #[trigger] self.names().contains(n) ==> var_class(x.vars@, n) == var_class(self.vars@, n)
                                    && ssa1.uf@[var_class(bctx.vars@, n)->0 as int] == ssa1.uf@[var_class(self.vars@, n)->0 as int]
                        },
                    }
                },
            _ => true,
        }
    }

    /// Translates an if-else statement.
    fn handle_if(self, ssa: &mut SSAGraph, cfg: &mut CFG, stmt: &StmtAST) -> (r: Option<NaiveSSAContext>)
        requires
            stmt is IfElse,
            old(ssa).wf(cfg_view(old(cfg))),
            self.wf(*old(ssa), cfg_view(old(cfg))),
            stmt_scope(*stmt, self.names()) is Some,
        ensures
            self.translated(*old(ssa), cfg_view(old(cfg)), *final(ssa), cfg_view(final(cfg)), *stmt, r),
            self.if_blocks(*final(ssa), cfg_view(old(cfg)), cfg_view(final(cfg)), *stmt),
            self.if_joins(*final(ssa), cfg_view(old(cfg)), cfg_view(final(cfg)), *stmt, r),
        decreases stmt, 0nat,
    {
        let ghost ssa0 = *ssa;
        let ghost cfg0 = cfg_view(cfg);
        let StmtAST::IfElse(cond, then_stmt, else_stmt) = stmt else {
            proof {
                assert(false);
            }
            return None;
        };
        proof {
            lemma_scope_grows(**then_stmt, self.names());
            lemma_scope_grows(**else_stmt, self.names());
        }
        let mut this = self;
        let true_cond = this.handle_expr(ssa, cfg, cond);
        let ghost s_cond = *ssa;
        let false_cond = ssa.add_value_wf(SSAValue::Unary(UnaryOp::Not, true_cond), Ghost(cfg_view(cfg)));
        let ghost s_not = *ssa;
        let true_value = ssa.add_value_wf(SSAValue::Constant(1), Ghost(cfg_view(cfg)));
        let ghost s2 = *ssa;
        proof {
            assert(grows(ssa0, cfg0, s2, cfg0));
            lemma_wf_new_block(*ssa, cfg_view(cfg));
            assert(s_cond.nodes().submap_of(s2.nodes()));
            lemma_expr_class_grows(s_cond.nodes(), s2.nodes(), self.vars@, *cond);
            assert(s2.nodes()[SSAValue::Unary(UnaryOp::Not, true_cond)] == false_cond);
        }
        let true_block = new_block(cfg);
        let mut p1: Vec<Pred> = Vec::new();
        p1.push((this.last_block, true_cond, false));
        proof {
            lemma_wf_set_preds(*ssa, cfg_view(cfg), true_block as int, p1@);
        }
        set_preds(cfg, true_block, p1);
        let then_ctx = NaiveSSAContext { vars: clone_vars(&this.vars), last_block: true_block };
        let ghost s3 = *ssa;
        let ghost c3 = cfg_view(cfg);
        proof {
            assert(grows(ssa0, cfg0, s3, c3));
            assert(!is_root_block(s3, true_block as int)) by {
                if is_root_block(s3, true_block as int) {
                    let k = choose|k: int| 0 <= k < s3.roots@.len() && #[trigger] s3.roots@[k].0 == true_block;
                }
            }
            assert(then_ctx.names() == this.names());
        }
        let then_res = then_ctx.handle_stmt(ssa, cfg, then_stmt);
        let ghost s4 = *ssa;
        let ghost c4 = cfg_view(cfg);
        proof {
            lemma_grows_trans(ssa0, cfg0, s3, c3, s4, c4);
            lemma_wf_new_block(*ssa, cfg_view(cfg));
        }
        let false_block = new_block(cfg);
        let mut p2: Vec<Pred> = Vec::new();
        p2.push((this.last_block, false_cond, false));
        proof {
            lemma_wf_set_preds(*ssa, cfg_view(cfg), false_block as int, p2@);
        }
        set_preds(cfg, false_block, p2);
        let else_ctx = NaiveSSAContext { vars: clone_vars(&this.vars), last_block: false_block };
        let ghost s5 = *ssa;
        let ghost c5 = cfg_view(cfg);
        proof {
            assert(grows(s4, c4, s5, c5));
            lemma_grows_trans(ssa0, cfg0, s4, c4, s5, c5);
            assert(!is_root_block(s5, false_block as int)) by {
                if is_root_block(s5, false_block as int) {
                    let k = choose|k: int| 0 <= k < s5.roots@.len() && #[trigger] s5.roots@[k].0 == false_block;
                }
            }
            assert(vars_bounded(else_ctx.vars@, s5.num_ids()));
        }
        let else_res = else_ctx.handle_stmt(ssa, cfg, else_stmt);
        let ghost s6 = *ssa;
        let ghost c6 = cfg_view(cfg);
        proof {
            assert(blocks_shaped_from(c3, cfg0.len() as int)) by {
                assert(block_shaped(c3, true_block as int));
            }
            lemma_shaped_extend(c3, c4, cfg0.len() as int);
            assert(blocks_shaped_from(c5, c4.len() as int)) by {
                assert(block_shaped(c5, false_block as int));
            }
            lemma_shaped_extend(c4, c5, cfg0.len() as int);
            lemma_shaped_extend(c5, c6, cfg0.len() as int);
            lemma_grows_trans(ssa0, cfg0, s5, c5, s6, c6);
            lemma_grows_trans(s2, cfg0, s3, c3, s4, c4);
            lemma_grows_trans(s2, cfg0, s4, c4, s6, c6);
            assert(s2.nodes().submap_of(s6.nodes()));
            lemma_expr_class_grows(s2.nodes(), s6.nodes(), self.vars@, *cond);
            assert(c6[false_block as int] == c5[false_block as int]);
            assert(expr_class(s6.nodes(), self.vars@, *cond) == Some(true_cond));
            assert(node_class(s6.nodes(), SSAValue::Unary(UnaryOp::Not, true_cond)) == Some(false_cond));
            assert(c6[cfg0.len() as int] == seq![(self.last_block, true_cond, false)]);
            assert(c6[false_block as int] == seq![(self.last_block, false_cond, false)]);
            assert(self.if_blocks(s6, cfg0, c6, *stmt));
            // roots added by either branch lie in new blocks
            assert forall|i: int| ssa0.roots@.len() <= i < s6.roots@.len() implies (#[trigger] s6.roots@[i].0 as int)
                >= cfg0.len() by {
                if i < s4.roots@.len() {
                    assert(s6.roots@[i] == s4.roots@[i]);
                }
            }
            assert(!is_root_block(s6, self.last_block as int)) by {
                if is_root_block(s6, self.last_block as int) {
                    let k = choose|k: int| 0 <= k < s6.roots@.len() && #[trigger] s6.roots@[k].0 == self.last_block;
                    if k < ssa0.roots@.len() {
                        assert(s6.roots@[k] == ssa0.roots@[k]);
                        assert(is_root_block(ssa0, self.last_block as int));
                    }
                }
            }
        }
        match then_res {
            Some(t) => match else_res {
                Some(e) => {
                    proof {
                        lemma_wf_new_block(*ssa, cfg_view(cfg));
                    }
                    let merge_block = new_block(cfg);
                    let mut p3: Vec<Pred> = Vec::new();
                    p3.push((t.last_block, true_value, false));
                    p3.push((e.last_block, true_value, false));
                    proof {
                        lemma_wf_set_preds(*ssa, cfg_view(cfg), merge_block as int, p3@);
                    }
                    set_preds(cfg, merge_block, p3);
                    let ghost s7 = *ssa;
                    let ghost c7 = cfg_view(cfg);
                    let ghost this_names = this.names();
                    proof {
                        lemma_grows_push(ssa0, cfg0, s6, c6);
                        lemma_grows_update(ssa0, cfg0, s6, c6.push(Seq::empty()), merge_block as int, p3@);
                        assert(c7 == c6.push(Seq::empty()).update(merge_block as int, p3@));
                        assert(blocks_shaped_from(c7, c6.len() as int)) by {
                            assert(block_shaped(c7, merge_block as int));
                        }
                        lemma_shaped_extend(c6, c7, cfg0.len() as int);
                    }
                    let mut j: usize = 0;
                    while j < t.vars.len()
                        invariant
                            j <= t.vars@.len(),
                            ssa.wf(c7),
                            c7 == cfg_view(cfg),
                            grows(ssa0, cfg0, *ssa, c7),
                            ssa.roots == s7.roots,
                            s6.nodes().submap_of(ssa.nodes()),
                            cfg0.len() <= c7.len(),
                            (merge_block as int) < c7.len(),
                            merge_block >= cfg0.len(),
                            c7[merge_block as int].len() == 2,
                            !(c7[merge_block as int][0].2 && c7[merge_block as int][1].2),
                            vars_distinct(this.vars@),
                            vars_bounded(this.vars@, ssa.num_ids()),
                            vars_bounded(t.vars@, ssa.num_ids()),
                            vars_bounded(e.vars@, ssa.num_ids()),
                            vars_distinct(t.vars@),
                            vars_distinct(e.vars@),
                            forall|k: int|
                                0 <= k < j && #[trigger] e.names().contains(t.vars@[k].0@) ==> var_class(this.vars@, t.vars@[k].0@)
                                    == node_class(
                                    ssa.nodes(),
                                    SSAValue::Phi(merge_block, t.vars@[k].1, var_class(e.vars@, t.vars@[k].0@)->0),
                                ),
                            this_names.subset_of(t.names()),
                            this_names.subset_of(e.names()),
                            this.names() == this_names.union(
                                Set::new(|n: Seq<char>| exists|k: int| 0 <= k < j && #[trigger] t.vars@[k].0@ == n && e.names().contains(n)),
                            ),
                        decreases t.vars@.len() - j,
                    {
                        let ghost sj = *ssa;
                        let ghost this_vars_j = this.vars@;
                        match lookup_var(&e.vars, &t.vars[j].0) {
                            Some(ev) => {
                                let phi = ssa.add_value_wf(SSAValue::Phi(merge_block, t.vars[j].1, ev), Ghost(c7));
                                let ghost v_before = this_vars_j;
                                insert_var(&mut this.vars, &t.vars[j].0, phi);
                                proof {
                                    let name = t.vars@[j as int].0@;
                                    lemma_var_class_insert(v_before, this.vars@, name, phi);
                                    let i = choose|i: int| 0 <= i < e.vars@.len() && #[trigger] e.vars@[i].0@ == name && e.vars@[i].1 == ev;
                                    lemma_var_class_at(e.vars@, i);
                                    assert forall|k: int|
                                        0 <= k < j + 1 && #[trigger] e.names().contains(t.vars@[k].0@) implies var_class(this.vars@, t.vars@[k].0@)
                                            == node_class(
                                            ssa.nodes(),
                                            SSAValue::Phi(merge_block, t.vars@[k].1, var_class(e.vars@, t.vars@[k].0@)->0),
                                        ) by {
                                        let w = SSAValue::Phi(merge_block, t.vars@[k].1, var_class(e.vars@, t.vars@[k].0@)->0);
                                        if k < j {
                                            assert(t.vars@[k].0@ != name);
                                            assert(var_class(v_before, t.vars@[k].0@) == node_class(sj.nodes(), w));
                                            assert(var_class(this.vars@, t.vars@[k].0@) == var_class(v_before, t.vars@[k].0@));
                                            if sj.nodes().contains_key(w) {
                                                assert(ssa.nodes().contains_key(w) && ssa.nodes()[w] == sj.nodes()[w]);
                                            } else {
                                                assert(var_class(v_before, t.vars@[k].0@) is None);
                                                assert(this_names.subset_of(t.names()));
                                                assert(var_names(v_before).contains(t.vars@[k].0@)) by {
                                                    assert(this.names().contains(t.vars@[k].0@));
                                                }
                                            }
                                        } else {
                                            assert(k == j);
                                            assert(w == SSAValue::Phi(merge_block, t.vars@[j as int].1, ev));
                                            assert(ssa.nodes()[w] == phi);
                                        }
                                    }
                                    assert forall|v: SSAValue| #[trigger] s6.nodes().dom().contains(v) implies ssa.nodes().dom().contains(v)
                                        && s6.nodes()[v] == ssa.nodes()[v] by {
                                        assert(sj.nodes().contains_key(v));
                                    }
                                    assert forall|v: SSAValue| #[trigger] ssa.nodes().contains_key(v) && !ssa0.nodes().contains_key(v)
                                        implies !(v is Param) && (v is Phi ==> v->Phi_0 >= cfg0.len()) by {
                                        if sj.nodes().contains_key(v) {
                                        }
                                    }
                                    assert(grows(ssa0, cfg0, *ssa, c7));
                                }
                            },
                            None => {},
                        }
                        proof {
                            assert(this.names() =~= this_names.union(
                                Set::new(|n: Seq<char>| exists|k: int| 0 <= k < j + 1 && #[trigger] t.vars@[k].0@ == n && e.names().contains(n)),
                            )) by {
                                let sj1 = Set::new(|n: Seq<char>| exists|k: int| 0 <= k < j + 1 && #[trigger] t.vars@[k].0@ == n && e.names().contains(n));
                                let sj0 = Set::new(|n: Seq<char>| exists|k: int| 0 <= k < j && #[trigger] t.vars@[k].0@ == n && e.names().contains(n));
                                assert forall|n: Seq<char>| sj1.contains(n) implies sj0.contains(n) || (n == t.vars@[j as int].0@ && e.names().contains(n)) by {
                                    let k = choose|k: int| 0 <= k < j + 1 && #[trigger] t.vars@[k].0@ == n && e.names().contains(n);
                                    if k < j {
                                        assert(sj0.contains(n));
                                    }
                                }
                                assert forall|n: Seq<char>| sj0.contains(n) implies sj1.contains(n) by {
                                    let k = choose|k: int| 0 <= k < j && #[trigger] t.vars@[k].0@ == n && e.names().contains(n);
                                }
                                if e.names().contains(t.vars@[j as int].0@) {
                                    assert(sj1.contains(t.vars@[j as int].0@));
                                }
                            }
                        }
                        j = j + 1;
                    }
                    this.last_block = merge_block;
                    proof {
                        lemma_expr_class_grows(s6.nodes(), ssa.nodes(), self.vars@, *cond);
                        assert(c7[cfg0.len() as int] == c6[cfg0.len() as int]);
                        assert(c7[false_block as int] == c6[false_block as int]);
                        assert(self.if_blocks(*ssa, cfg0, c7, *stmt));
                        assert(this.names() =~= t.names().intersect(e.names())) by {
                            let sj = Set::new(|n: Seq<char>| exists|k: int| 0 <= k < j && #[trigger] t.vars@[k].0@ == n && e.names().contains(n));
                            assert forall|n: Seq<char>| t.names().intersect(e.names()).contains(n) implies sj.contains(n) by {
                                let k = choose|k: int| 0 <= k < t.vars@.len() && #[trigger] t.vars@[k].0@ == n;
                            }
                        }
                        assert(!is_root_block(*ssa, merge_block as int)) by {
                            if is_root_block(*ssa, merge_block as int) {
                                let k = choose|k: int| 0 <= k < ssa.roots@.len() && #[trigger] ssa.roots@[k].0 == merge_block;
                            }
                        }
                        assert(s4.nodes().submap_of(s6.nodes()));
                        assert forall|v: SSAValue| #[trigger] s4.nodes().dom().contains(v) implies ssa.nodes().dom().contains(v)
                            && s4.nodes()[v] == ssa.nodes()[v] by {
                            assert(s6.nodes().dom().contains(v));
                        }
                        assert(s4.nodes().submap_of(ssa.nodes()));
                        assert forall|v: SSAValue| #[trigger] s2.nodes().dom().contains(v) implies ssa.nodes().dom().contains(v)
                            && s2.nodes()[v] == ssa.nodes()[v] by {
                            assert(s4.nodes().dom().contains(v));
                        }
                        assert(node_class(ssa.nodes(), SSAValue::Constant(1)) == Some(true_value));
                        assert(c7[merge_block as int] == p3@);
                        assert forall|n: Seq<char>| #[trigger] this.names().contains(n) implies var_class(this.vars@, n) == node_class(
                            ssa.nodes(),
                            SSAValue::Phi(merge_block, var_class(t.vars@, n)->0, var_class(e.vars@, n)->0),
                        ) by {
                            assert(t.names().contains(n) && e.names().contains(n));
                            let k = choose|k: int| 0 <= k < t.vars@.len() && #[trigger] t.vars@[k].0@ == n;
                            lemma_var_class_at(t.vars@, k);
                            assert(e.names().contains(t.vars@[k].0@));
                        }
                        assert(then_ctx.translated(s3, c3, s4, c4, **then_stmt, Some(t)));
                        assert(else_ctx.translated(s5, c5, s6, c6, **else_stmt, Some(e)));
                        assert(p3@ =~= seq![(t.last_block, true_value, false), (e.last_block, true_value, false)]);
                        assert(then_ctx.vars@ == self.vars@);
                        assert(else_ctx.vars@ == self.vars@);
                        assert(then_ctx.last_block == cfg0.len());
                        assert(else_ctx.last_block == c4.len());
                        assert(this.last_block as int == cfg_view(cfg).len() - 1);
                        assert(self.if_joins(*ssa, cfg0, cfg_view(cfg), *stmt, Some(this)));
                    }
                    Some(this)
                },
                None => {
                    proof {
                        assert(!is_root_block(s6, t.last_block as int)) by {
                            if is_root_block(s6, t.last_block as int) {
                                let k = choose|k: int| 0 <= k < s6.roots@.len() && #[trigger] s6.roots@[k].0 == t.last_block;
                                if k < s4.roots@.len() {
                                    assert(s6.roots@[k] == s4.roots@[k]);
                                }
                            }
                        }
                        assert(s4.nodes().submap_of(s6.nodes()));
                        assert(then_ctx.translated(s3, c3, s4, c4, **then_stmt, Some(t)));
                        assert(else_ctx.translated(s5, c5, s6, c6, **else_stmt, None));
                        assert(self.if_joins(s6, cfg0, c6, *stmt, Some(t)));
                    }
                    Some(t)
                },
            },
            None => {
                proof {
                    assert(s4.nodes().submap_of(s6.nodes()));
                    assert(then_ctx.translated(s3, c3, s4, c4, **then_stmt, None));
                    assert(else_ctx.translated(s5, c5, s6, c6, **else_stmt, else_res));
                    assert(self.if_joins(s6, cfg0, c6, *stmt, else_res));
                }
                else_res
            },
        }
    }


    /// Translates a while loop. Every variable gets a phi at the loop's
    /// condition block; when the body can fall through, the phi joins the
    /// value before the loop with the value at the end of the body, and
    /// otherwise it is merged with the value before the loop.
    fn handle_while(self, ssa: &mut SSAGraph, cfg: &mut CFG, stmt: &StmtAST) -> (r: Option<NaiveSSAContext>)
        requires
            stmt is While,
            old(ssa).wf(cfg_view(old(cfg))),
            self.wf(*old(ssa), cfg_view(old(cfg))),
            stmt_scope(*stmt, self.names()) is Some,
        ensures
            self.translated(*old(ssa), cfg_view(old(cfg)), *final(ssa), cfg_view(final(cfg)), *stmt, r),
            self.while_blocks(cfg_view(old(cfg)), cfg_view(final(cfg)), r),
            self.while_conditions(*old(ssa), *final(ssa), cfg_view(old(cfg)), cfg_view(final(cfg)), *stmt, r),
            self.while_joins(*final(ssa), cfg_view(old(cfg)), cfg_view(final(cfg)), *stmt, r),
        decreases stmt, 0nat,
    {
        let ghost ssa0 = *ssa;
        let ghost cfg0 = cfg_view(cfg);
        let StmtAST::While(cond, body) = stmt else {
            proof {
                assert(false);
            }
            return None;
        };
        proof {
            lemma_scope_grows(**body, self.names());
        }
        let mut this = self;
        let mut initial_vars: Vec<(String, ClassId, ClassId)> = Vec::new();
        let mut j: usize = 0;
        while j < this.vars.len()
            invariant
                j <= this.vars@.len(),
                this.vars@.len() == self.vars@.len(),
                forall|k: int| 0 <= k < this.vars@.len() ==> #[trigger] this.vars@[k].0@ == self.vars@[k].0@,
                forall|k: int| j <= k < this.vars@.len() ==> #[trigger] this.vars@[k].1 == self.vars@[k].1,
                initial_vars@.len() == j,
                forall|k: int| 0 <= k < j ==> {
                    &&& (#[trigger] initial_vars@[k]).0@ == self.vars@[k].0@
                    &&& initial_vars@[k].1 == self.vars@[k].1
                    &&& initial_vars@[k].2 == this.vars@[k].1
                },
                this.last_block == self.last_block,
                ssa.wf(cfg0),
                cfg_view(cfg) == cfg0,
                grows(ssa0, cfg0, *ssa, cfg0),
                ssa.roots == ssa0.roots,
                vars_bounded(this.vars@, ssa.num_ids()),
                vars_bounded(self.vars@, ssa.num_ids()),
                forall|k: int| 0 <= k < j ==> (#[trigger] initial_vars@[k].2 as int) < ssa.num_ids(),
                forall|k: int| 0 <= k < j ==> (#[trigger] this.vars@[k].1 as int) >= ssa0.num_ids(),
            decreases self.vars@.len() - j,
        {
            let initial = this.vars[j].1;
            let ghost sj = *ssa;
            let phi = ssa.alloc_id();
            proof {
                lemma_wf_uf_grows(sj, *ssa, cfg0);
                assert(grows(sj, cfg0, *ssa, cfg0));
                lemma_grows_trans(ssa0, cfg0, sj, cfg0, *ssa, cfg0);
            }
            let name = this.vars[j].0.clone();
            initial_vars.push((this.vars[j].0.clone(), initial, phi));
            this.vars.set(j, (name, phi));
            j = j + 1;
        }
        proof {
            assert(this.names() =~= self.names()) by {
                assert forall|n: Seq<char>| self.names().contains(n) implies this.names().contains(n) by {
                    let k = choose|k: int| 0 <= k < self.vars@.len() && #[trigger] self.vars@[k].0@ == n;
                    assert(this.vars@[k].0@ == n);
                }
                assert forall|n: Seq<char>| this.names().contains(n) implies self.names().contains(n) by {
                    let k = choose|k: int| 0 <= k < this.vars@.len() && #[trigger] this.vars@[k].0@ == n;
                    assert(self.vars@[k].0@ == n);
                }
            }
            assert(vars_distinct(this.vars@)) by {
                assert forall|a: int, b: int| 0 <= a < this.vars@.len() && 0 <= b < this.vars@.len() && a != b implies #[trigger] this.vars@[a].0@
                    != #[trigger] this.vars@[b].0@ by {
                    assert(self.vars@[a].0@ != self.vars@[b].0@);
                }
            }
        }
        let ghost pv = this.vars@;
        let true_cond = this.handle_expr(ssa, cfg, cond);
        let ghost s_cond = *ssa;
        let false_cond = ssa.add_value_wf(SSAValue::Unary(UnaryOp::Not, true_cond), Ghost(cfg_view(cfg)));
        let true_value = ssa.add_value_wf(SSAValue::Constant(1), Ghost(cfg_view(cfg)));
        let ghost s2 = *ssa;
        proof {
            assert(grows(ssa0, cfg0, s2, cfg0));
            lemma_wf_new_block(*ssa, cfg_view(cfg));
            assert(s_cond.nodes().submap_of(s2.nodes()));
            lemma_expr_class_grows(s_cond.nodes(), s2.nodes(), pv, *cond);
            assert(s2.nodes()[SSAValue::Unary(UnaryOp::Not, true_cond)] == false_cond);
        }
        let entry_block = this.last_block;
        let cond_block = new_block(cfg);
        let mut p1: Vec<Pred> = Vec::new();
        p1.push((entry_block, true_value, false));
        proof {
            lemma_wf_set_preds(*ssa, cfg_view(cfg), cond_block as int, p1@);
            lemma_wf_new_block(*ssa, cfg_view(cfg).update(cond_block as int, p1@));
        }
        set_preds(cfg, cond_block, p1);
        this.last_block = cond_block;
        let body_block = new_block(cfg);
        let body_ctx = NaiveSSAContext { vars: clone_vars(&this.vars), last_block: body_block };
        let ghost s3 = *ssa;
        let ghost c3 = cfg_view(cfg);
        proof {
            assert(grows(ssa0, cfg0, s3, c3));
            assert(!is_root_block(s3, body_block as int)) by {
                if is_root_block(s3, body_block as int) {
                    let k = choose|k: int| 0 <= k < s3.roots@.len() && #[trigger] s3.roots@[k].0 == body_block;
                }
            }
        }
        proof {
            assert(cond_block as int == cfg0.len());
            assert(c3[cond_block as int] == p1@);
            assert(c3[body_block as int].len() == 0);
        }
        let body_res = body_ctx.handle_stmt(ssa, cfg, body);
        let ghost s4 = *ssa;
        let ghost c4 = cfg_view(cfg);
        proof {
            lemma_grows_trans(ssa0, cfg0, s3, c3, s4, c4);
            lemma_wf_new_block(*ssa, cfg_view(cfg));
            assert(s2.nodes().submap_of(s4.nodes()));
        }
        let exit_block = new_block(cfg);
        this.last_block = exit_block;
        let mut p2: Vec<Pred> = Vec::new();
        p2.push((cond_block, true_cond, false));
        proof {
            assert(c4[body_block as int] == c3[body_block as int]);
            lemma_wf_set_preds(*ssa, cfg_view(cfg), body_block as int, p2@);
        }
        set_preds(cfg, body_block, p2);
        let mut p3: Vec<Pred> = Vec::new();
        p3.push((cond_block, false_cond, false));
        proof {
            lemma_wf_set_preds(*ssa, cfg_view(cfg), exit_block as int, p3@);
        }
        set_preds(cfg, exit_block, p3);
        let ghost s5 = *ssa;
        let ghost c5 = cfg_view(cfg);
        proof {
            lemma_grows_push(ssa0, cfg0, s4, c4);
            lemma_grows_update(ssa0, cfg0, s4, c4.push(Seq::empty()), body_block as int, p2@);
            lemma_grows_update(ssa0, cfg0, s4, c4.push(Seq::empty()).update(body_block as int, p2@), exit_block as int, p3@);
            assert(c5 == c4.push(Seq::empty()).update(body_block as int, p2@).update(exit_block as int, p3@));
        }
        match body_res {
            Some(b) => {
                let mut p4: Vec<Pred> = Vec::new();
                p4.push((entry_block, true_value, false));
                p4.push((b.last_block, true_value, true));
                proof {
                    lemma_wf_set_preds(*ssa, cfg_view(cfg), cond_block as int, p4@);
                }
                set_preds(cfg, cond_block, p4);
                let ghost c6 = cfg_view(cfg);
                let ghost s6 = *ssa;
                proof {
                    lemma_grows_update(ssa0, cfg0, s5, c5, cond_block as int, p4@);
                    assert forall|x: int| cfg0.len() <= x < c6.len() implies #[trigger] block_shaped(c6, x) by {
                        if x == cond_block as int {
                            assert(c6[x] == p4@);
                        } else if x == body_block as int {
                            assert(c6[x] == p2@);
                        } else if x == exit_block as int {
                            assert(c6[x] == p3@);
                        } else {
                            assert(c6[x] == c4[x]);
                            assert(block_shaped(c4, x));
                        }
                    }
                }
                let mut k: usize = 0;
                while k < initial_vars.len()
                    invariant
                        k <= initial_vars@.len(),
                        initial_vars@.len() == self.vars@.len(),
                        forall|i: int| 0 <= i < initial_vars@.len() ==> (#[trigger] initial_vars@[i]).0@ == self.vars@[i].0@,
                        forall|i: int| 0 <= i < initial_vars@.len() ==> (#[trigger] initial_vars@[i].1 as int) < s6.num_ids()
                            && (initial_vars@[i].2 as int) < s6.num_ids(),
                        self.names().subset_of(b.names()),
                        vars_bounded(b.vars@, s6.num_ids()),
                        ssa.wf(c6),
                        cfg_view(cfg) == c6,
                        grows(ssa0, cfg0, *ssa, c6),
                        s6.num_ids() <= ssa.num_ids(),
                        ssa.roots == s6.roots,
                        (cond_block as int) < c6.len(),
                        c6[cond_block as int].len() == 2,
                        !(c6[cond_block as int][0].2 && c6[cond_block as int][1].2),
                        cond_block >= cfg0.len(),
                        (exit_block as int) < c6.len(),
                        s2.nodes().submap_of(ssa.nodes()),
                        s4.nodes().submap_of(ssa.nodes()),
                        vars_distinct(b.vars@),
                        ssa.uf.wf(),
                        forall|i: int| 0 <= i < initial_vars@.len() ==> (#[trigger] initial_vars@[i]).1 == self.vars@[i].1,
                        forall|i: int|
                            0 <= i < k ==> {
                                let w = SSAValue::Phi(cond_block, (#[trigger] initial_vars@[i]).1, var_class(b.vars@, initial_vars@[i].0@)->0);
                                &&& ssa.nodes().contains_key(w)
                                &&& ssa.uf@[ssa.nodes()[w] as int] == ssa.uf@[initial_vars@[i].2 as int]
                            },
                    decreases initial_vars@.len() - k,
                {
                    let initial = initial_vars[k].1;
                    let phi = initial_vars[k].2;
                    let after = match lookup_var(&b.vars, &initial_vars[k].0) {
                        Some(a) => a,
                        None => {
                            proof {
                                assert(self.names().contains(self.vars@[k as int].0@));
                            }
                            0
                        },
                    };
                    let ghost sk = *ssa;
                    let old_phi = ssa.set_value(phi, SSAValue::Phi(cond_block, initial, after));
                    proof {
                        assert forall|w: SSAValue| #[trigger] s2.nodes().dom().contains(w) implies ssa.nodes().dom().contains(w)
                            && s2.nodes()[w] == ssa.nodes()[w] by {
                            assert(sk.nodes().contains_key(w));
                        }
                        assert forall|w: SSAValue| #[trigger] s4.nodes().dom().contains(w) implies ssa.nodes().dom().contains(w)
                            && s4.nodes()[w] == ssa.nodes()[w] by {
                            assert(sk.nodes().contains_key(w));
                        }
                        let v = SSAValue::Phi(cond_block, initial, after);
                        assert(value_wf(v, sk.num_ids(), c6));
                        assert forall|w: SSAValue| #[trigger] ssa.nodes().contains_key(w) implies (ssa.nodes()[w] as int) < ssa.num_ids()
                            && value_wf(w, ssa.num_ids(), c6) by {
                            if w != v || sk.nodes().contains_key(v) {
                                assert(sk.nodes().contains_key(w));
                            }
                        }
                        assert(ssa.wf(c6));
                        assert forall|w: SSAValue| #[trigger] ssa.nodes().contains_key(w) && !ssa0.nodes().contains_key(w)
                            implies !(w is Param) && (w is Phi ==> w->Phi_0 >= cfg0.len()) by {
                            if sk.nodes().contains_key(w) {
                            }
                        }
                        assert(grows(ssa0, cfg0, *ssa, c6));
                    }
                    let ghost sk2 = *ssa;
                    proof {
                        sk2.uf.lemma_wf();
                        lemma_union_coarsens(sk2.uf@, phi as int, old_phi as int);
                        let name = initial_vars@[k as int].0@;
                        let i0 = choose|i0: int| 0 <= i0 < b.vars@.len() && #[trigger] b.vars@[i0].0@ == name && b.vars@[i0].1 == after;
                        lemma_var_class_at(b.vars@, i0);
                    }
                    ssa.uf.union(phi, old_phi);
                    proof {
                        assert forall|i: int|
                            0 <= i < k + 1 implies {
                                let w = SSAValue::Phi(cond_block, (#[trigger] initial_vars@[i]).1, var_class(b.vars@, initial_vars@[i].0@)->0);
                                &&& ssa.nodes().contains_key(w)
                                &&& ssa.uf@[ssa.nodes()[w] as int] == ssa.uf@[initial_vars@[i].2 as int]
                            } by {
                            let w = SSAValue::Phi(cond_block, initial_vars@[i].1, var_class(b.vars@, initial_vars@[i].0@)->0);
                            if i < k {
                                assert(sk.nodes().contains_key(w));
                                assert(sk2.uf@[sk2.nodes()[w] as int] == sk2.uf@[initial_vars@[i].2 as int]);
                                assert((sk2.nodes()[w] as int) < sk2.uf@.len());
                            } else {
                                assert(w == SSAValue::Phi(cond_block, initial, after));
                                assert(sk2.nodes()[w] == old_phi);
                            }
                        }
                        lemma_wf_uf_grows(sk2, *ssa, c6);
                        assert(grows(sk2, c6, *ssa, c6));
                        lemma_grows_trans(ssa0, cfg0, sk2, c6, *ssa, c6);
                    }
                    k = k + 1;
                }
                proof {
                    assert(c6[cond_block as int] == p4@);
                    assert(p4@ =~= seq![(entry_block, true_value, false), (b.last_block, true_value, true)]);
                    assert(s2.nodes().contains_key(SSAValue::Constant(1)));
                    assert(node_class(ssa.nodes(), SSAValue::Constant(1)) == Some(true_value));
                    assert(this.vars@ == pv);
                    assert(body_ctx.vars@ == pv);
                    assert forall|n: Seq<char>| #[trigger] self.names().contains(n) implies (var_class(this.vars@, n) == var_class(
                        body_ctx.vars@,
                        n,
                    ) && (node_class(
                        ssa.nodes(),
                        SSAValue::Phi(cfg0.len() as BlockId, var_class(self.vars@, n)->0, var_class(b.vars@, n)->0),
                    ) matches Some(c) && ssa.uf@[c as int] == ssa.uf@[var_class(this.vars@, n)->0 as int])) by {
                        let k = choose|k: int| 0 <= k < self.vars@.len() && #[trigger] self.vars@[k].0@ == n;
                        lemma_var_class_at(self.vars@, k);
                        lemma_var_class_at(pv, k);
                        assert(initial_vars@[k].0@ == n);
                        assert(initial_vars@[k].2 == pv[k].1);
                        assert(initial_vars@[k].1 == self.vars@[k].1);
                    }
                    assert(body_ctx.translated(s3, c3, s4, c4, **body, Some(b)));
                    assert(self.while_joins(*ssa, cfg0, cfg_view(cfg), *stmt, Some(this)));
                }
            },
            None => {
                let ghost s6 = *ssa;
                proof {
                    assert forall|x: int| cfg0.len() <= x < c5.len() implies #[trigger] block_shaped(c5, x) by {
                        if x == cond_block as int {
                            assert(c5[x] == p1@);
                        } else if x == body_block as int {
                            assert(c5[x] == p2@);
                        } else if x == exit_block as int {
                            assert(c5[x] == p3@);
                        } else {
                            assert(c5[x] == c4[x]);
                            assert(block_shaped(c4, x));
                        }
                    }
                }
                let mut k: usize = 0;
                while k < initial_vars.len()
                    invariant
                        k <= initial_vars@.len(),
                        initial_vars@.len() == self.vars@.len(),
                        forall|i: int| 0 <= i < initial_vars@.len() ==> (#[trigger] initial_vars@[i]).0@ == self.vars@[i].0@,
                        forall|i: int| 0 <= i < initial_vars@.len() ==> (#[trigger] initial_vars@[i].1 as int) < s6.num_ids()
                            && (initial_vars@[i].2 as int) < s6.num_ids(),
                        ssa.wf(c5),
                        cfg_view(cfg) == c5,
                        grows(ssa0, cfg0, *ssa, c5),
                        ssa.roots == s6.roots,
                        ssa.num_ids() == s6.num_ids(),
                        vars_distinct(this.vars@),
                        vars_bounded(this.vars@, s6.num_ids()),
                        this.names() == self.names(),
                        this.last_block == exit_block,
                        (exit_block as int) < c5.len(),
                        ssa.uf.wf(),
                        forall|i: int| 0 <= i < initial_vars@.len() ==> (#[trigger] initial_vars@[i]).1 == self.vars@[i].1,
                        vars_distinct(self.vars@),
                        ssa.nodes() == s6.nodes(),
                        forall|i: int|
                            0 <= i < k ==> var_class(this.vars@, (#[trigger] initial_vars@[i]).0@) == Some(initial_vars@[i].1)
                                && ssa.uf@[initial_vars@[i].2 as int] == ssa.uf@[initial_vars@[i].1 as int],
                        s2.nodes().submap_of(ssa.nodes()),
                    decreases initial_vars@.len() - k,
                {
                    let initial = initial_vars[k].1;
                    let phi = initial_vars[k].2;
                    let ghost tv0 = this.vars@;
                    insert_var(&mut this.vars, &initial_vars[k].0, initial);
                    let ghost sk = *ssa;
                    proof {
                        lemma_var_class_insert(tv0, this.vars@, initial_vars@[k as int].0@, initial);
                        sk.uf.lemma_wf();
                        lemma_union_coarsens(sk.uf@, phi as int, initial as int);
                    }
                    ssa.uf.union(phi, initial);
                    proof {
                        assert forall|i: int|
                            0 <= i < k + 1 implies var_class(this.vars@, (#[trigger] initial_vars@[i]).0@) == Some(initial_vars@[i].1)
                                && ssa.uf@[initial_vars@[i].2 as int] == ssa.uf@[initial_vars@[i].1 as int] by {
                            if i < k {
                                assert(self.vars@[i].0@ != self.vars@[k as int].0@);
                                assert(var_class(tv0, initial_vars@[i].0@) == Some(initial_vars@[i].1));
                            }
                        }
                    }
                    proof {
                        assert(self.names().contains(self.vars@[k as int].0@));
                        assert(this.names() =~= self.names());
                        lemma_wf_uf_grows(sk, *ssa, c5);
                        assert(grows(sk, c5, *ssa, c5));
                        lemma_grows_trans(ssa0, cfg0, sk, c5, *ssa, c5);
                    }
                    k = k + 1;
                }
                proof {
                    assert(c5[cond_block as int] == p1@);
                    assert(p1@ =~= seq![(entry_block, true_value, false)]);
                    assert(s2.nodes().submap_of(s4.nodes()));
                    assert(s4.nodes() == ssa.nodes());
                    assert(s4.nodes().submap_of(ssa.nodes()));
                    assert(node_class(ssa.nodes(), SSAValue::Constant(1)) == Some(true_value));
                    assert(body_ctx.vars@ == pv);
                    assert forall|n: Seq<char>| #[trigger] self.names().contains(n) implies var_class(this.vars@, n) == var_class(self.vars@, n)
                        && ssa.uf@[var_class(body_ctx.vars@, n)->0 as int] == ssa.uf@[var_class(self.vars@, n)->0 as int] by {
                        let k = choose|k: int| 0 <= k < self.vars@.len() && #[trigger] self.vars@[k].0@ == n;
                        lemma_var_class_at(self.vars@, k);
                        lemma_var_class_at(pv, k);
                        assert(initial_vars@[k].0@ == n);
                        assert(initial_vars@[k].2 == pv[k].1);
                        assert(initial_vars@[k].1 == self.vars@[k].1);
                    }
                    assert(body_ctx.translated(s3, c3, s4, c4, **body, None));
                    assert(self.while_joins(*ssa, cfg0, cfg_view(cfg), *stmt, Some(this)));
                }
            },
        }
        proof {
            assert forall|i: int| ssa0.roots@.len() <= i < ssa.roots@.len() implies (#[trigger] ssa.roots@[i].0 as int)
                >= cfg0.len() by {
                assert(ssa.roots@[i] == s4.roots@[i]);
            }
            assert(!is_root_block(*ssa, self.last_block as int)) by {
                if is_root_block(*ssa, self.last_block as int) {
                    let k = choose|k: int| 0 <= k < ssa.roots@.len() && #[trigger] ssa.roots@[k].0 == self.last_block;
                    if k < ssa0.roots@.len() {
                        assert(ssa.roots@[k] == ssa0.roots@[k]);
                        assert(is_root_block(ssa0, self.last_block as int));
                    }
                }
            }
            assert(!is_root_block(*ssa, exit_block as int)) by {
                if is_root_block(*ssa, exit_block as int) {
                    let k = choose|k: int| 0 <= k < ssa.roots@.len() && #[trigger] ssa.roots@[k].0 == exit_block;
                    assert(ssa.roots@[k] == s4.roots@[k]);
                }
            }
            assert(ssa.wf(cfg_view(cfg)));
            assert(grows(ssa0, cfg0, *ssa, cfg_view(cfg)));
            assert(stmt_scope(*stmt, self.names()) == Some(Some(self.names())));
            assert(this.names() == self.names());
            assert(vars_distinct(this.vars@));
            assert(vars_bounded(this.vars@, ssa.num_ids()));
            assert((this.last_block as int) < cfg_view(cfg).len());
            assert(c4[cond_block as int] == p1@);
            let cf = cfg_view(cfg);
            assert(cf[body_block as int] == p2@);
            assert(cf[exit_block as int] == p3@);
            assert(cf[cond_block as int][0] == (entry_block, true_value, false));
            assert(self.while_blocks(cfg0, cf, Some(this)));
            lemma_expr_class_grows(s2.nodes(), ssa.nodes(), pv, *cond);
            assert(expr_class(ssa.nodes(), pv, *cond) == Some(true_cond));
            assert(node_class(ssa.nodes(), SSAValue::Unary(UnaryOp::Not, true_cond)) == Some(false_cond));
            assert(var_names(pv) == self.names());
            assert(self.while_conditions(ssa0, *ssa, cfg0, cf, *stmt, Some(this)));
        }
        Some(this)
    }

    /// Translates a statement. Returns the context after it, or `None` when
    /// control leaves the function in it.
    fn handle_stmt(self, ssa: &mut SSAGraph, cfg: &mut CFG, stmt: &StmtAST) -> (r: Option<
        NaiveSSAContext,
    >)
        requires
            old(ssa).wf(cfg_view(old(cfg))),
            self.wf(*old(ssa), cfg_view(old(cfg))),
            stmt_scope(*stmt, self.names()) is Some,
        ensures
            self.translated(*old(ssa), cfg_view(old(cfg)), *final(ssa), cfg_view(final(cfg)), *stmt, r),
            self.if_blocks(*final(ssa), cfg_view(old(cfg)), cfg_view(final(cfg)), *stmt),
            self.if_joins(*final(ssa), cfg_view(old(cfg)), cfg_view(final(cfg)), *stmt, r),
            *stmt is While ==> self.while_blocks(cfg_view(old(cfg)), cfg_view(final(cfg)), r),
            self.while_conditions(*old(ssa), *final(ssa), cfg_view(old(cfg)), cfg_view(final(cfg)), *stmt, r),
            self.while_joins(*final(ssa), cfg_view(old(cfg)), cfg_view(final(cfg)), *stmt, r),
        decreases stmt, 1nat,
    {
        let ghost ssa0 = *ssa;
        let ghost cfg0 = cfg_view(cfg);
        match stmt {
            StmtAST::Block(stmts) => {
                let mut ctx = self;
                let mut i: usize = 0;
                proof {
                    assert(stmts@.subrange(0, stmts@.len() as int) =~= stmts@);
                }
                while i < stmts.len()
                    invariant
                        i <= stmts@.len(),
                        *stmt == StmtAST::Block(*stmts),
                        ssa.wf(cfg_view(cfg)),
                        grows(ssa0, cfg0, *ssa, cfg_view(cfg)),
                        blocks_shaped_from(cfg_view(cfg), cfg0.len() as int),
                        block_may_return(stmts@, self.names()) == (ssa0.roots@.len() < ssa.roots@.len()
                            || block_may_return(stmts@.subrange(i as int, stmts@.len() as int), ctx.names())),
                        ctx.wf(*ssa, cfg_view(cfg)),
                        block_scope(stmts@.subrange(i as int, stmts@.len() as int), ctx.names())
                            == block_scope(stmts@, self.names()),
                        block_scope(stmts@, self.names()) is Some,
                        forall|k: int|
                            ssa0.roots@.len() <= k < ssa.roots@.len() ==> #[trigger] ssa.roots@[k].0
                                == self.last_block || ssa.roots@[k].0 >= cfg0.len(),
                        !is_root_block(*ssa, self.last_block as int),
                        ctx.last_block == self.last_block || ctx.last_block >= cfg0.len(),
                        ssa0 == *old(ssa),
                        cfg0 == cfg_view(old(cfg)),
                        (self.last_block as int) < cfg0.len(),
                    decreases stmts@.len() - i,
                {
                    proof {
                        lemma_block_scope_step(stmts@, i as int, ctx.names());
                        assert(decreases_to!(*stmt => (*stmt)->Block_0));
                        assert((*stmt)->Block_0 == *stmts);
                        assert(decreases_to!(*stmts => stmts@));
                        assert(decreases_to!(stmts@ => stmts@[i as int]));
                        assert(ctx.wf(*ssa, cfg_view(cfg)));
                    }
                    let ghost ssa1 = *ssa;
                    let ghost cfg1 = cfg_view(cfg);
                    let ghost lb = ctx.last_block;
                    let ghost names0 = ctx.names();
                    proof {
                        lemma_block_may_return_step(stmts@, i as int, names0);
                    }
                    let res = ctx.handle_stmt(ssa, cfg, &stmts[i]);
                    proof {
                        lemma_grows_trans(ssa0, cfg0, ssa1, cfg1, *ssa, cfg_view(cfg));
                        lemma_shaped_extend(cfg1, cfg_view(cfg), cfg0.len() as int);
                    }
                    match res {
                        Some(c) => {
                            ctx = c;
                        },
                        None => {
                            proof {
                                assert(stmt_scope(stmts@[i as int], names0) == Some(None::<Set<Seq<char>>>));
                            }
                            return None;
                        },
                    }
                    proof {
                        assert forall|k: int|
                            ssa0.roots@.len() <= k < ssa.roots@.len() implies #[trigger] ssa.roots@[k].0
                            == self.last_block || ssa.roots@[k].0 >= cfg0.len() by {
                            if k >= ssa1.roots@.len() {
                                assert(ssa.roots@[k].0 != lb);
                            } else {
                                assert(ssa1.roots@[k] == ssa.roots@[k]);
                            }
                        }
                        assert(!is_root_block(*ssa, self.last_block as int)) by {
                            if is_root_block(*ssa, self.last_block as int) {
                                let k = choose|k: int| 0 <= k < ssa.roots@.len() && #[trigger] ssa.roots@[k].0 == self.last_block;
                                if k < ssa1.roots@.len() {
                                    assert(ssa1.roots@[k] == ssa.roots@[k]);
                                    assert(is_root_block(ssa1, self.last_block as int));
                                } else {
                                    assert(ssa.roots@[k].0 != lb);
                                    assert((self.last_block as int) < cfg0.len());
                                }
                            }
                        }
                    }
                    i = i + 1;
                }
                proof {
                    assert(stmts@.subrange(i as int, stmts@.len() as int) =~= Seq::<StmtAST>::empty());
                    assert(block_scope(Seq::<StmtAST>::empty(), ctx.names()) == Some(Some(ctx.names())));
                    assert(stmt_scope(*stmt, self.names()) == block_scope(stmts@, self.names()));
                    assert(stmt_scope(*stmt, self.names()) == Some(Some(ctx.names())));
                    assert(ctx.wf(*ssa, cfg_view(cfg)));
                    assert(ssa.wf(cfg_view(cfg)));
                    assert(grows(*old(ssa), cfg_view(old(cfg)), *ssa, cfg_view(cfg)));
                    assert(!is_root_block(*ssa, self.last_block as int));
                    assert(ctx.last_block == self.last_block || ctx.last_block >= cfg0.len());
                    assert(self.translated(*old(ssa), cfg_view(old(cfg)), *ssa, cfg_view(cfg), *stmt, Some(ctx)));
                }
                Some(ctx)
            },
            StmtAST::Assign(name, expr) => {
                let mut this = self;
                let value = this.handle_expr(ssa, cfg, expr);
                insert_var(&mut this.vars, name, value);
                proof {
                    lemma_var_class_insert(self.vars@, this.vars@, name@, value);
                    assert(this.names() =~= self.names().insert(name@));
                    assert(is_root_block(*ssa, this.last_block as int) == is_root_block(ssa0, this.last_block as int));
                }
                Some(this)
            },
            StmtAST::Return(expr) => {
                let root = self.handle_expr(ssa, cfg, expr);
                let ghost ssa1 = *ssa;
                ssa.roots.push((self.last_block, root));
                proof {
                    assert(ssa.nodes() == ssa1.nodes());
                    assert(ssa.roots@.last() == (self.last_block, root));
                    assert forall|i: int, j: int|
                        0 <= i < ssa.roots@.len() && 0 <= j < ssa.roots@.len() && i != j implies #[trigger] ssa.roots@[i].0
                        != #[trigger] ssa.roots@[j].0 by {
                        if i == ssa1.roots@.len() as int {
                            assert(ssa1.roots@[j] == ssa.roots@[j]);
                            assert(!is_root_block(ssa1, self.last_block as int));
                        } else if j == ssa1.roots@.len() as int {
                            assert(ssa1.roots@[i] == ssa.roots@[i]);
                            assert(!is_root_block(ssa1, self.last_block as int));
                        } else {
                            assert(ssa1.roots@[i] == ssa.roots@[i]);
                            assert(ssa1.roots@[j] == ssa.roots@[j]);
                        }
                    }
                }
                None
            },
            StmtAST::IfElse(_, _, _) => self.handle_if(ssa, cfg, stmt),
            StmtAST::While(_, _) => self.handle_while(ssa, cfg, stmt),
        }
    }
}

/// The value `v` with every operand replaced by its representative in `rep`.
pub open spec fn canon_value(v: SSAValue, rep: Seq<ClassId>) -> SSAValue {
    match v {
        SSAValue::Phi(b, l, r) => SSAValue::Phi(b, rep[l as int], rep[r as int]),
        SSAValue::Unary(op, x) => SSAValue::Unary(op, rep[x as int]),
        SSAValue::Binary(op, l, r) => SSAValue::Binary(op, rep[l as int], rep[r as int]),
        _ => v,
    }
}

/// Whether every operand of `v` is a representative of `rep`.
pub open spec fn uses_canonical(v: SSAValue, rep: Seq<ClassId>) -> bool {
    forall|k: int| 0 <= k < uses_of(v).len() ==> rep[#[trigger] uses_of(v)[k] as int] == uses_of(v)[k]
}

/// Whether the graph holds a value with the same canonical form as `v`, in
/// a class merged with `c`: what becomes of a value of class `c` when the
/// graph is rebuilt.
pub open spec fn represents(ssa: SSAGraph, v: SSAValue, c: ClassId) -> bool {
    exists|w: SSAValue|
        #[trigger] ssa.nodes().contains_key(w) && canon_value(w, ssa.uf@) == canon_value(v, ssa.uf@) && ssa.uf@[ssa.nodes()[w] as int]
            == ssa.uf@[c as int]
}

/// The operands of `v` are ids below `n`.
pub open spec fn uses_below(v: SSAValue, n: nat) -> bool {
    forall|k: int| 0 <= k < uses_of(v).len() ==> (#[trigger] uses_of(v)[k] as int) < n
}

/// Canonicalizing twice, the second time after more merges, is
/// canonicalizing once after them.
pub proof fn lemma_canon_coarsen(w: SSAValue, u1: Seq<ClassId>, u2: Seq<ClassId>)
    requires
        is_rep_map(u1),
        coarsens(u1, u2),
        uses_below(w, u1.len()),
    ensures
        canon_value(canon_value(w, u1), u2) == canon_value(w, u2),
{
    match w {
        SSAValue::Phi(b, l, r) => {
            assert(uses_of(w)[0] == l && uses_of(w)[1] == r);
            assert(u1[u1[l as int] as int] == u1[l as int]);
            assert(u1[u1[r as int] as int] == u1[r as int]);
        },
        SSAValue::Unary(op, x) => {
            assert(uses_of(w)[0] == x);
            assert(u1[u1[x as int] as int] == u1[x as int]);
        },
        SSAValue::Binary(op, l, r) => {
            assert(uses_of(w)[0] == l && uses_of(w)[1] == r);
            assert(u1[u1[l as int] as int] == u1[l as int]);
            assert(u1[u1[r as int] as int] == u1[r as int]);
        },
        _ => {},
    }
}

/// Values with the same canonical form keep it as classes merge.
pub proof fn lemma_canon_eq_coarsen(w: SSAValue, v: SSAValue, u1: Seq<ClassId>, u2: Seq<ClassId>)
    requires
        coarsens(u1, u2),
        uses_below(w, u1.len()),
        uses_below(v, u1.len()),
        canon_value(w, u1) == canon_value(v, u1),
    ensures
        canon_value(w, u2) == canon_value(v, u2),
{
    assert forall|k: int| 0 <= k < uses_of(w).len() implies u2[#[trigger] uses_of(w)[k] as int] == u2[uses_of(v)[k] as int] by {
        match w {
            SSAValue::Phi(b, l, r) => {
                assert(uses_of(w)[0] == l && uses_of(w)[1] == r);
                assert(uses_of(v)[0] == v->Phi_1 && uses_of(v)[1] == v->Phi_2);
            },
            SSAValue::Unary(op, x) => {
                assert(uses_of(w)[0] == x);
                assert(uses_of(v)[0] == v->Unary_1);
            },
            SSAValue::Binary(op, l, r) => {
                assert(uses_of(w)[0] == l && uses_of(w)[1] == r);
                assert(uses_of(v)[0] == v->Binary_1 && uses_of(v)[1] == v->Binary_2);
            },
            _ => {},
        }
    }
    match w {
        SSAValue::Phi(b, l, r) => {
            assert(uses_of(w)[0] == l && uses_of(w)[1] == r);
        },
        SSAValue::Unary(op, x) => {
            assert(uses_of(w)[0] == x);
        },
        SSAValue::Binary(op, l, r) => {
            assert(uses_of(w)[0] == l && uses_of(w)[1] == r);
        },
        _ => {},
    }
}

/// A value stays represented when every value of the graph stays, in a
/// class merged with its old one, and classes only merge.
pub(crate) proof fn lemma_represents_keep(s0: SSAGraph, s1: SSAGraph, v: SSAValue, c: ClassId)
    requires
        represents(s0, v, c),
        coarsens(s0.uf@, s1.uf@),
        forall|w: SSAValue|
            #[trigger] s0.nodes().contains_key(w) ==> s1.nodes().contains_key(w) && s1.uf@[s1.nodes()[w] as int]
                == s1.uf@[s0.nodes()[w] as int],
        forall|w: SSAValue|
            #[trigger] s0.nodes().contains_key(w) ==> (s0.nodes()[w] as int) < s0.uf@.len() && uses_below(w, s0.uf@.len()),
        uses_below(v, s0.uf@.len()),
        (c as int) < s0.uf@.len(),
    ensures
        represents(s1, v, c),
{
    let w = choose|w: SSAValue|
        #[trigger] s0.nodes().contains_key(w) && canon_value(w, s0.uf@) == canon_value(v, s0.uf@) && s0.uf@[s0.nodes()[w] as int]
            == s0.uf@[c as int];
    lemma_canon_eq_coarsen(w, v, s0.uf@, s1.uf@);
    assert(s1.uf@[s0.nodes()[w] as int] == s1.uf@[c as int]);
    assert(s1.nodes().contains_key(w));
}

/// If `w0` is represented and has the canonical form and class of `v` (as
/// of an earlier union-find), `v` is represented.
pub(crate) proof fn lemma_represents_via(s: SSAGraph, v: SSAValue, c: ClassId, w0: SSAValue, c0: ClassId, u: Seq<ClassId>)
    requires
        represents(s, w0, c0),
        coarsens(u, s.uf@),
        uses_below(w0, u.len()),
        uses_below(v, u.len()),
        canon_value(w0, u) == canon_value(v, u),
        (c0 as int) < u.len(),
        (c as int) < u.len(),
        u[c0 as int] == u[c as int],
    ensures
        represents(s, v, c),
{
    let w = choose|w: SSAValue|
        #[trigger] s.nodes().contains_key(w) && canon_value(w, s.uf@) == canon_value(w0, s.uf@) && s.uf@[s.nodes()[w] as int]
            == s.uf@[c0 as int];
    lemma_canon_eq_coarsen(w0, v, u, s.uf@);
    assert(s.nodes().contains_key(w));
}

/// Replaces the operands of `value` by their representatives.
pub fn canonicalize_value(value: SSAValue, uf: &mut UnionFind) -> (r: SSAValue)
    requires
        old(uf).wf(),
        forall|k: int| 0 <= k < uses_of(value).len() ==> (#[trigger] uses_of(value)[k] as int) < old(uf)@.len(),
    ensures
        final(uf).wf(),
        final(uf)@ == old(uf)@,
        r == canon_value(value, old(uf)@),
{
    match value {
        SSAValue::Phi(b, l, r) => {
            assert(uses_of(value)[0] == l && uses_of(value)[1] == r);
            let l2 = uf.find(l);
            let r2 = uf.find(r);
            SSAValue::Phi(b, l2, r2)
        },
        SSAValue::Unary(op, x) => {
            assert(uses_of(value)[0] == x);
            let x2 = uf.find(x);
            SSAValue::Unary(op, x2)
        },
        SSAValue::Binary(op, l, r) => {
            assert(uses_of(value)[0] == l && uses_of(value)[1] == r);
            let l2 = uf.find(l);
            let r2 = uf.find(r);
            SSAValue::Binary(op, l2, r2)
        },
        _ => value,
    }
}

proof fn lemma_canon_value_wf(v: SSAValue, rep: Seq<ClassId>, cfg: Seq<Seq<Pred>>)
    requires
        is_rep_map(rep),
        value_wf(v, rep.len(), cfg),
    ensures
        value_wf(canon_value(v, rep), rep.len(), cfg),
        uses_canonical(canon_value(v, rep), rep),
        canon_value(v, rep) is Param <==> v is Param,
        canon_value(v, rep) is Param ==> canon_value(v, rep) == v,
{
    let c = canon_value(v, rep);
    match v {
        SSAValue::Phi(b, l, r) => {
            assert(uses_of(v)[0] == l && uses_of(v)[1] == r);
        },
        SSAValue::Unary(op, x) => {
            assert(uses_of(v)[0] == x);
        },
        SSAValue::Binary(op, l, r) => {
            assert(uses_of(v)[0] == l && uses_of(v)[1] == r);
        },
        _ => {},
    }
}

/// Merges the classes of values that become equal once their operands are
/// replaced by representatives, until no two values collide; then replaces
/// every class named by a value, a root or a condition by its representative.
pub(crate) fn canonicalize_graph(ssa: &mut SSAGraph, cfg: &mut CFG, Ghost(num_params): Ghost<nat>)
    requires
        old(ssa).wf(cfg_view(old(cfg))),
        forall|v: SSAValue| #[trigger] old(ssa).nodes().contains_key(v) && v is Param ==> (v->Param_0 as int) < num_params,
    ensures
        final(ssa).wf(cfg_view(final(cfg))),
        final(ssa).canonical(cfg_view(final(cfg))),
        forall|v: SSAValue| #[trigger] final(ssa).nodes().contains_key(v) && v is Param ==> (v->Param_0 as int) < num_params,
        cfg_view(final(cfg)).len() == cfg_view(old(cfg)).len(),
        forall|b: int| 0 <= b < cfg_view(old(cfg)).len() ==> (#[trigger] cfg_view(final(cfg))[b]).len() == cfg_view(old(cfg))[b].len(),
        forall|b: int, k: int| 0 <= b < cfg_view(old(cfg)).len() && 0 <= k < cfg_view(old(cfg))[b].len() ==>
            (#[trigger] cfg_view(final(cfg))[b][k]).0 == cfg_view(old(cfg))[b][k].0 && cfg_view(final(cfg))[b][k].2 == cfg_view(old(cfg))[b][k].2,
        coarsens(old(ssa).uf@, final(ssa).uf@),
        final(ssa).uf@.len() == old(ssa).uf@.len(),
        forall|v: SSAValue| #[trigger] old(ssa).nodes().contains_key(v) && v is Param ==> final(ssa).nodes().contains_key(v),
        forall|v: SSAValue| #[trigger] old(ssa).nodes().contains_key(v) ==> represents(*final(ssa), v, old(ssa).nodes()[v]),
        final(ssa).roots@.len() == old(ssa).roots@.len(),
        forall|k: int|
            0 <= k < old(ssa).roots@.len() ==> #[trigger] final(ssa).roots@[k] == (
                old(ssa).roots@[k].0,
                final(ssa).uf@[old(ssa).roots@[k].1 as int],
            ),
        forall|b: int, k: int| 0 <= b < cfg_view(old(cfg)).len() && 0 <= k < cfg_view(old(cfg))[b].len() ==>
            (#[trigger] cfg_view(final(cfg))[b][k]).1 == final(ssa).uf@[cfg_view(old(cfg))[b][k].1 as int],
{
    let ghost nodes_g = ssa.nodes();
    let ghost roots_g = ssa.roots;
    proof {
        assert forall|v: SSAValue| #[trigger] nodes_g.contains_key(v) implies represents(*ssa, v, nodes_g[v]) by {
            assert(ssa.nodes().contains_key(v));
        }
        assert forall|v: SSAValue| #[trigger] nodes_g.contains_key(v) implies (nodes_g[v] as int) < ssa.uf@.len()
            && uses_below(v, ssa.uf@.len()) by {
            assert(value_wf(v, ssa.num_ids(), cfg_view(cfg)));
        }
    }
    let ghost c0 = cfg_view(cfg);
    let ghost uf_g = ssa.uf@;
    let mut done = false;
    while !done
        invariant
            ssa.wf(c0),
            ssa.roots == roots_g,
            cfg_view(cfg) == c0,
            coarsens(uf_g, ssa.uf@),
            ssa.uf@.len() == uf_g.len(),
            forall|v: SSAValue| #[trigger] ssa.nodes().contains_key(v) && v is Param ==> (v->Param_0 as int) < num_params,
            forall|v: SSAValue| #[trigger] nodes_g.contains_key(v) && v is Param ==> ssa.nodes().contains_key(v),
            forall|v: SSAValue| #[trigger] nodes_g.contains_key(v) ==> represents(*ssa, v, nodes_g[v]),
            forall|v: SSAValue| #[trigger] nodes_g.contains_key(v) ==> (nodes_g[v] as int) < uf_g.len() && uses_below(v, uf_g.len()),
            done ==> forall|v: SSAValue| #[trigger] ssa.nodes().contains_key(v) ==> {
                &&& ssa.uf@[ssa.nodes()[v] as int] == ssa.nodes()[v]
                &&& uses_canonical(v, ssa.uf@)
            },
        decreases table_contents(ssa.values).len() + if done { 0int } else { 1int },
    {
        let ghost nodes_p = ssa.nodes();
        let ghost ssa_p = *ssa;
        let entries = ssa.value_entries();
        let ghost len0 = table_contents(ssa.values).len();
        ssa.values = NodeTable::empty();
        proof {
            assert(table_contents(ssa.values).dom() =~= Set::<NodeKey>::empty());
        }
        let ghost uf0 = ssa.uf@;
        let ghost roots0 = ssa.roots;
        proof {
            assert forall|i: int| 0 <= i < roots0@.len() implies (#[trigger] roots0@[i].1 as int) < uf0.len() by {
                assert((ssa.roots@[i].0 as int) < c0.len());
            }
        }
        let mut changed = false;
        let mut j: usize = 0;
        while j < entries.len()
            invariant
                j <= entries@.len(),
                entries@.len() == len0,
                ssa.uf.wf(),
                ssa.keys_valid(),
                ssa.roots == roots0,
                forall|i: int| 0 <= i < ssa.roots@.len() ==> (#[trigger] ssa.roots@[i].0 as int) < c0.len() && (
                    ssa.roots@[i].1 as int) < ssa.num_ids(),
                forall|i: int, k: int|
                    0 <= i < ssa.roots@.len() && 0 <= k < ssa.roots@.len() && i != k ==> #[trigger] ssa.roots@[i].0
                        != #[trigger] ssa.roots@[k].0,
                cfg_wf(c0, ssa.num_ids()),
                uf0.len() == ssa.uf@.len(),
                coarsens(uf_g, ssa.uf@),
            ssa.uf@.len() == uf_g.len(),
                forall|i: int| 0 <= i < roots0@.len() ==> (#[trigger] roots0@[i].1 as int) < uf0.len(),
                table_contents(ssa.values).dom().finite(),
                table_contents(ssa.values).len() <= j,
                !changed ==> table_contents(ssa.values).len() == j,
                changed ==> table_contents(ssa.values).len() < j,
                !changed ==> ssa.uf@ == uf0,
                forall|i: int| 0 <= i < entries@.len() ==> value_wf(#[trigger] entries@[i].0, uf0.len(), c0) && (entries@[i].1 as int) < uf0.len(),
                forall|i: int| 0 <= i < entries@.len() && #[trigger] entries@[i].0 is Param ==> (entries@[i].0->Param_0 as int) < num_params,
                forall|v: SSAValue| #[trigger] ssa.nodes().contains_key(v) ==> (ssa.nodes()[v] as int) < ssa.num_ids()
                    && value_wf(v, ssa.num_ids(), c0),
                forall|v: SSAValue| #[trigger] ssa.nodes().contains_key(v) && v is Param ==> (v->Param_0 as int) < num_params,
                forall|k: int| 0 <= k < j && (#[trigger] entries@[k]).0 is Param ==> ssa.nodes().contains_key(entries@[k].0),
                forall|v: SSAValue| #[trigger] nodes_p.contains_key(v) ==> exists|k: int| 0 <= k < entries@.len() && #[trigger] entries@[k].0 == v,
                forall|v: SSAValue| #[trigger] nodes_g.contains_key(v) && v is Param ==> nodes_p.contains_key(v),
                coarsens(uf0, ssa.uf@),
                forall|k: int| 0 <= k < j ==> represents(*ssa, (#[trigger] entries@[k]).0, entries@[k].1),
                !changed ==> forall|v: SSAValue| #[trigger] ssa.nodes().contains_key(v) ==> {
                    &&& ssa.uf@[ssa.nodes()[v] as int] == ssa.nodes()[v]
                    &&& uses_canonical(v, ssa.uf@)
                },
            decreases entries@.len() - j,
        {
            let (value, id) = entries[j];
            let ghost ufj = ssa.uf@;
            let ghost nh = ssa.nodes();
            proof {
                assert(value_wf(value, uf0.len(), c0));
                ssa.uf.lemma_wf();
            }
            let v2 = canonicalize_value(value, &mut ssa.uf);
            let id2 = ssa.uf.find(id);
            proof {
                lemma_canon_value_wf(value, ssa.uf@, c0);
                lemma_decode_encode(v2);
            }
            let key = encode_value(v2);
            let ghost s_before = *ssa;
            let ghost t0 = table_contents(ssa.values);
            let ghost n0 = ssa.nodes();
            proof {
                assert(n0 == nh);
                assert(ssa.num_ids() == uf0.len());
            }
            match ssa.values.insert(key, id2) {
                Some(old) => {
                    proof {
                        assert(t0.contains_key(key));
                        assert(valid_key(key));
                        assert(n0.contains_key(v2));
                        assert(n0[v2] == old);
                    }
                    let ghost u0 = ssa.uf@;
                    proof {
                        ssa.uf.lemma_wf();
                        lemma_union_coarsens(u0, old as int, id2 as int);
                    }
                    ssa.uf.union(old, id2);
                    proof {
                        lemma_coarsens_trans(uf_g, u0, ssa.uf@);
                        lemma_coarsens_trans(uf0, u0, ssa.uf@);
                        assert(ssa.uf@.len() == u0.len());
                    }
                    changed = true;
                },
                None => {},
            }
            proof {
                assert(ssa.num_ids() == uf0.len());
                assert(table_contents(ssa.values) == t0.insert(key, id2));
                assert(table_contents(ssa.values).dom() == t0.dom().insert(key));
                assert forall|v: SSAValue| #[trigger] ssa.nodes().contains_key(v) implies (ssa.nodes()[v] as int) < ssa.num_ids()
                    && value_wf(v, ssa.num_ids(), c0) && (v is Param ==> (v->Param_0 as int) < num_params) by {
                    if encode(v) == key {
                        lemma_decode_encode(v);
                        assert(v == v2);
                    } else {
                        assert(t0.contains_key(encode(v)));
                        assert(n0.contains_key(v));
                        lemma_decode_encode(v);
                    }
                }
                assert forall|k: NodeKey| #[trigger] table_contents(ssa.values).contains_key(k) implies valid_key(k) by {
                    if k != key {
                        assert(t0.contains_key(k));
                    }
                }
                if !changed {
                    assert forall|v: SSAValue| #[trigger] ssa.nodes().contains_key(v) implies {
                        &&& ssa.uf@[ssa.nodes()[v] as int] == ssa.nodes()[v]
                        &&& uses_canonical(v, ssa.uf@)
                    } by {
                        lemma_decode_encode(v);
                        if encode(v) == key {
                            assert(v == v2);
                        } else {
                            assert(t0.contains_key(encode(v)));
                            assert(n0.contains_key(v));
                        }
                    }
                }
            }
            proof {
                assert forall|k: int| 0 <= k < j + 1 && (#[trigger] entries@[k]).0 is Param implies ssa.nodes().contains_key(entries@[k].0) by {
                    if k == j {
                        assert(v2 == value);
                    }
                }
                ssa.uf.lemma_wf();
                s_before.uf.lemma_wf();
                assert(coarsens(s_before.uf@, ssa.uf@));
                assert forall|w: SSAValue| #[trigger] s_before.nodes().contains_key(w) implies ssa.nodes().contains_key(w)
                    && ssa.uf@[ssa.nodes()[w] as int] == ssa.uf@[s_before.nodes()[w] as int] by {
                    lemma_decode_encode(w);
                    if encode(w) == key {
                        assert(w == v2);
                    }
                }
                assert forall|w: SSAValue| #[trigger] s_before.nodes().contains_key(w) implies (s_before.nodes()[w] as int) < s_before.uf@.len()
                    && uses_below(w, s_before.uf@.len()) by {
                    assert(value_wf(w, s_before.num_ids(), c0));
                }
                assert forall|k: int| 0 <= k < j + 1 implies represents(*ssa, (#[trigger] entries@[k]).0, entries@[k].1) by {
                    assert(value_wf(entries@[k].0, uf0.len(), c0));
                    if k < j {
                        lemma_represents_keep(s_before, *ssa, entries@[k].0, entries@[k].1);
                    } else {
                        assert(entries@[k] == (value, id));
                        lemma_canon_coarsen(value, s_before.uf@, ssa.uf@);
                        assert(ssa.nodes().contains_key(v2));
                        assert(ssa.nodes()[v2] == id2);
                        assert(s_before.uf@[id2 as int] == s_before.uf@[id as int]);
                        assert(canon_value(v2, ssa.uf@) == canon_value(value, ssa.uf@));
                    }
                }
            }
            j = j + 1;
        }
        proof {
            assert forall|v: SSAValue| #[trigger] nodes_g.contains_key(v) && v is Param implies ssa.nodes().contains_key(v) by {
                assert(nodes_p.contains_key(v));
                let k = choose|k: int| 0 <= k < entries@.len() && #[trigger] entries@[k].0 == v;
            }
            assert forall|v: SSAValue| #[trigger] nodes_g.contains_key(v) implies represents(*ssa, v, nodes_g[v]) by {
                let w0 = choose|w: SSAValue|
                    #[trigger] ssa_p.nodes().contains_key(w) && canon_value(w, ssa_p.uf@) == canon_value(v, ssa_p.uf@)
                        && ssa_p.uf@[ssa_p.nodes()[w] as int] == ssa_p.uf@[nodes_g[v] as int];
                let k = choose|k: int| 0 <= k < entries@.len() && #[trigger] entries@[k].0 == w0;
                assert(represents(*ssa, entries@[k].0, entries@[k].1));
                assert(value_wf(w0, uf0.len(), c0));
                lemma_represents_via(*ssa, v, nodes_g[v], w0, entries@[k].1, uf0);
            }
        }
        done = !changed;
    }
    // representatives for the roots
    let mut i: usize = 0;
    while i < ssa.roots.len()
        invariant
            ssa.wf(c0),
            ssa.roots@.len() == roots_g@.len(),
            forall|k: int| i <= k < roots_g@.len() ==> #[trigger] ssa.roots@[k] == roots_g@[k],
            forall|k: int| 0 <= k < i ==> #[trigger] ssa.roots@[k] == (roots_g@[k].0, ssa.uf@[roots_g@[k].1 as int]),
            cfg_view(cfg) == c0,
            coarsens(uf_g, ssa.uf@),
            ssa.uf@.len() == uf_g.len(),
            i <= ssa.roots@.len(),
            forall|v: SSAValue| #[trigger] ssa.nodes().contains_key(v) && v is Param ==> (v->Param_0 as int) < num_params,
            forall|v: SSAValue| #[trigger] nodes_g.contains_key(v) && v is Param ==> ssa.nodes().contains_key(v),
            forall|v: SSAValue| #[trigger] nodes_g.contains_key(v) ==> represents(*ssa, v, nodes_g[v]),
            forall|v: SSAValue| #[trigger] ssa.nodes().contains_key(v) ==> {
                &&& ssa.uf@[ssa.nodes()[v] as int] == ssa.nodes()[v]
                &&& uses_canonical(v, ssa.uf@)
            },
            forall|k: int| 0 <= k < i ==> ssa.uf@[#[trigger] ssa.roots@[k].1 as int] == ssa.roots@[k].1,
        decreases ssa.roots@.len() - i,
    {
        let (b, root) = ssa.roots[i];
        proof {
            ssa.uf.lemma_wf();
        }
        let ghost n0 = ssa.nodes();
        let ghost ssa_before = *ssa;
        let root2 = ssa.uf.find(root);
        let ghost before = ssa.roots@;
        ssa.roots.set(i, (b, root2));
        proof {
            assert forall|x: int, y: int| 0 <= x < ssa.roots@.len() && 0 <= y < ssa.roots@.len() && x != y implies #[trigger] ssa.roots@[x].0
                != #[trigger] ssa.roots@[y].0 by {
                assert(before[x].0 != before[y].0);
            }
            assert forall|x: int| 0 <= x < ssa.roots@.len() implies (#[trigger] ssa.roots@[x].0 as int) < c0.len()
                && (ssa.roots@[x].1 as int) < ssa.num_ids() by {
                assert((before[x].0 as int) < c0.len());
            }
            assert(ssa.nodes() == n0);
            assert(ssa.uf@ == ssa_before.uf@);
            assert(ssa.wf(c0));
        }
        i = i + 1;
    }
    // representatives for the conditions
    let ghost roots_r = ssa.roots;
    let ghost uf_r = ssa.uf@;
    let mut b: usize = 0;
    while b < cfg.len()
        invariant
            ssa.wf(cfg_view(cfg)),
            ssa.roots == roots_r,
            ssa.uf@ == uf_r,
            coarsens(uf_g, ssa.uf@),
            ssa.uf@.len() == uf_g.len(),
            b <= cfg@.len(),
            cfg_view(cfg).len() == c0.len(),
            forall|x: int| 0 <= x < c0.len() ==> (#[trigger] cfg_view(cfg)[x]).len() == c0[x].len(),
            forall|x: int, k: int| 0 <= x < c0.len() && 0 <= k < c0[x].len() ==>
                (#[trigger] cfg_view(cfg)[x][k]).0 == c0[x][k].0 && cfg_view(cfg)[x][k].2 == c0[x][k].2,
            forall|x: int, k: int| 0 <= x < b && 0 <= k < c0[x].len() ==> ssa.uf@[(#[trigger] cfg_view(cfg)[x][k]).1 as int] == cfg_view(cfg)[x][k].1,
            forall|x: int, k: int| 0 <= x < b && 0 <= k < c0[x].len() ==> (#[trigger] cfg_view(cfg)[x][k]).1 == uf_r[c0[x][k].1 as int],
            forall|x: int| b <= x < c0.len() ==> #[trigger] cfg_view(cfg)[x] == c0[x],
            forall|v: SSAValue| #[trigger] ssa.nodes().contains_key(v) && v is Param ==> (v->Param_0 as int) < num_params,
            forall|v: SSAValue| #[trigger] nodes_g.contains_key(v) && v is Param ==> ssa.nodes().contains_key(v),
            forall|v: SSAValue| #[trigger] nodes_g.contains_key(v) ==> represents(*ssa, v, nodes_g[v]),
            forall|v: SSAValue| #[trigger] ssa.nodes().contains_key(v) ==> {
                &&& ssa.uf@[ssa.nodes()[v] as int] == ssa.nodes()[v]
                &&& uses_canonical(v, ssa.uf@)
            },
            forall|k: int| 0 <= k < ssa.roots@.len() ==> ssa.uf@[#[trigger] ssa.roots@[k].1 as int] == ssa.roots@[k].1,
        decreases cfg@.len() - b,
    {
        let mut preds: Vec<Pred> = Vec::new();
        let mut k: usize = 0;
        let ghost cb = cfg_view(cfg)[b as int];
        let ghost ssa_b = *ssa;
        while k < cfg[b].len()
            invariant
                ssa.uf.wf(),
                coarsens(uf_g, ssa.uf@),
                ssa.uf@.len() == uf_g.len(),
                ssa.uf@ == ssa_b.uf@,
                ssa.values == ssa_b.values,
                ssa.roots == ssa_b.roots,
                k <= cfg@[b as int]@.len(),
                b < cfg@.len(),
                cb == cfg_view(cfg)[b as int],
                cfg_wf(cfg_view(cfg), ssa.num_ids()),
                preds@.len() == k,
                forall|x: int| 0 <= x < k ==> (#[trigger] preds@[x]).0 == cb[x].0 && preds@[x].2 == cb[x].2
                    && preds@[x].1 == ssa.uf@[cb[x].1 as int],
            decreases cfg@[b as int]@.len() - k,
        {
            let (p, c, e) = cfg[b][k];
            proof {
                assert(cb[k as int] == (p, c, e));
                assert((c as int) < ssa.num_ids());
            }
            let c2 = ssa.uf.find(c);
            preds.push((p, c2, e));
            k = k + 1;
        }
        proof {
            ssa.uf.lemma_wf();
            let cv = cfg_view(cfg);
            lemma_wf_uf_grows(ssa_b, *ssa, cv);
            assert(ssa.nodes() == ssa_b.nodes());
            assert forall|x: int| 0 <= x < preds@.len() implies (#[trigger] preds@[x].0 as int) < cv.len()
                && (preds@[x].1 as int) < ssa.num_ids() by {
                assert(cv[b as int][x] == cb[x]);
            }
            lemma_wf_set_preds_same_shape(*ssa, cv, b as int, preds@);
        }
        set_preds(cfg, b, preds);
        b = b + 1;
    }
}

/// Whether the name is among the names.
pub(crate) fn names_contain(names: &Vec<String>, name: &String) -> (r: bool)
    ensures
        r == name_set(names@).contains(name@),
{
    let mut i: usize = 0;
    while i < names.len()
        invariant
            i <= names@.len(),
            forall|j: int| 0 <= j < i ==> #[trigger] names@[j]@ != name@,
        decreases names@.len() - i,
    {
        if names[i] == *name {
            proof {
                assert(names@[i as int]@ == name@);
            }
            return true;
        }
        i = i + 1;
    }
    false
}

/// A copy of the names.
pub(crate) fn clone_names(names: &Vec<String>) -> (r: Vec<String>)
    ensures
        r@ == names@,
{
    let mut r: Vec<String> = Vec::new();
    let mut i: usize = 0;
    while i < names.len()
        invariant
            i <= names@.len(),
            r@ == names@.subrange(0, i as int),
        decreases names@.len() - i,
    {
        r.push(names[i].clone());
        proof {
            assert(r@ =~= names@.subrange(0, i + 1));
        }
        i = i + 1;
    }
    proof {
        assert(r@ =~= names@);
    }
    r
}

/// Adds a name unless it is already there.
pub(crate) fn names_insert(names: &mut Vec<String>, name: &String)
    ensures
        name_set(final(names)@) == name_set(old(names)@).insert(name@),
{
    if !names_contain(names, name) {
        names.push(name.clone());
    }
    proof {
        assert(name_set(names@) =~= name_set(old(names)@).insert(name@)) by {
            assert forall|x: Seq<char>| name_set(old(names)@).insert(name@).contains(x) implies name_set(names@).contains(x) by {
                if x != name@ {
                    let k = choose|k: int| 0 <= k < old(names)@.len() && #[trigger] old(names)@[k]@ == x;
                    assert(names@[k]@ == x);
                } else if names@.len() > old(names)@.len() {
                    assert(names@[old(names)@.len() as int]@ == x);
                }
            }
            assert forall|x: Seq<char>| name_set(names@).contains(x) implies name_set(old(names)@).insert(name@).contains(x) by {
                let k = choose|k: int| 0 <= k < names@.len() && #[trigger] names@[k]@ == x;
                if k < old(names)@.len() {
                    assert(old(names)@[k]@ == x);
                }
            }
        }
    }
}

/// The names in both lists.
pub(crate) fn names_intersect(a: &Vec<String>, b: &Vec<String>) -> (r: Vec<String>)
    ensures
        name_set(r@) == name_set(a@).intersect(name_set(b@)),
{
    let mut r: Vec<String> = Vec::new();
    let mut i: usize = 0;
    while i < a.len()
        invariant
            i <= a@.len(),
            name_set(r@) == name_set(a@.subrange(0, i as int)).intersect(name_set(b@)),
        decreases a@.len() - i,
    {
        let ghost r0 = r@;
        if names_contain(b, &a[i]) {
            r.push(a[i].clone());
        }
        proof {
            let a1 = a@.subrange(0, i + 1);
            let a0 = a@.subrange(0, i as int);
            assert(name_set(a1) =~= name_set(a0).insert(a@[i as int]@)) by {
                assert forall|x: Seq<char>| name_set(a1).contains(x) implies name_set(a0).insert(a@[i as int]@).contains(x) by {
                    let k = choose|k: int| 0 <= k < a1.len() && #[trigger] a1[k]@ == x;
                    if k < i {
                        assert(a0[k]@ == x);
                    }
                }
                assert forall|x: Seq<char>| name_set(a0).insert(a@[i as int]@).contains(x) implies name_set(a1).contains(x) by {
                    if x == a@[i as int]@ {
                        assert(a1[i as int]@ == x);
                    } else {
                        let k = choose|k: int| 0 <= k < a0.len() && #[trigger] a0[k]@ == x;
                        assert(a1[k]@ == x);
                    }
                }
            }
            assert(name_set(r@) =~= name_set(a1).intersect(name_set(b@))) by {
                assert forall|x: Seq<char>| name_set(r@).contains(x) implies name_set(a1).intersect(name_set(b@)).contains(x) by {
                    let k = choose|k: int| 0 <= k < r@.len() && #[trigger] r@[k]@ == x;
                    if k < r0.len() {
                        assert(r0[k]@ == x);
                        assert(name_set(r0).contains(x));
                    }
                }
                assert forall|x: Seq<char>| name_set(a1).intersect(name_set(b@)).contains(x) implies name_set(r@).contains(x) by {
                    if x == a@[i as int]@ {
                        assert(r@[r@.len() - 1]@ == x);
                    } else {
                        assert(name_set(r0).contains(x));
                        let k = choose|k: int| 0 <= k < r0.len() && #[trigger] r0[k]@ == x;
                        assert(r@[k]@ == x);
                    }
                }
            }
        }
        i = i + 1;
    }
    proof {
        assert(a@.subrange(0, a@.len() as int) =~= a@);
    }
    r
}

fn check_expr(e: &ExprAST, scope: &Vec<String>) -> (r: bool)
    ensures
        r == expr_defined(*e, name_set(scope@)),
    decreases e,
{
    match e {
        ExprAST::Number(_) => true,
        ExprAST::Variable(name) => names_contain(scope, name),
        ExprAST::Unary(_, x) => check_expr(x, scope),
        ExprAST::Binary(_, l, r) => check_expr(l, scope) && check_expr(r, scope),
    }
}

/// What translating a statement comes to, as `stmt_scope` states it.
fn check_stmt(s: &StmtAST, scope: &Vec<String>) -> (r: Option<Option<Vec<String>>>)
    ensures
        match r {
            None => stmt_scope(*s, name_set(scope@)) is None,
            Some(None) => stmt_scope(*s, name_set(scope@)) == Some(None::<Set<Seq<char>>>),
            Some(Some(v)) => stmt_scope(*s, name_set(scope@)) == Some(Some(name_set(v@))),
        },
    decreases s,
{
    match s {
        StmtAST::Block(stmts) => {
            let mut cur = clone_names(scope);
            let mut i: usize = 0;
            proof {
                assert(stmts@.subrange(0, stmts@.len() as int) =~= stmts@);
            }
            while i < stmts.len()
                invariant
                    i <= stmts@.len(),
                    *s == StmtAST::Block(*stmts),
                    block_scope(stmts@.subrange(i as int, stmts@.len() as int), name_set(cur@))
                        == block_scope(stmts@, name_set(scope@)),
                decreases stmts@.len() - i,
            {
                proof {
                    lemma_block_scope_step(stmts@, i as int, name_set(cur@));
                    assert(decreases_to!(*s => (*s)->Block_0));
                    assert((*s)->Block_0 == *stmts);
                    assert(decreases_to!(*stmts => stmts@));
                    assert(decreases_to!(stmts@ => stmts@[i as int]));
                }
                match check_stmt(&stmts[i], &cur) {
                    None => {
                        return None;
                    },
                    Some(None) => {
                        return Some(None);
                    },
                    Some(Some(next)) => {
                        cur = next;
                    },
                }
                i = i + 1;
            }
            proof {
                assert(stmts@.subrange(i as int, stmts@.len() as int) =~= Seq::<StmtAST>::empty());
            }
            Some(Some(cur))
        },
        StmtAST::Assign(name, e) => {
            if check_expr(e, scope) {
                let mut next = clone_names(scope);
                names_insert(&mut next, name);
                Some(Some(next))
            } else {
                None
            }
        },
        StmtAST::IfElse(c, t, e) => {
            if !check_expr(c, scope) {
                return None;
            }
            let rt = check_stmt(t, scope);
            let re = check_stmt(e, scope);
            match (rt, re) {
                (Some(a), Some(b)) => match (a, b) {
                    (Some(x), Some(y)) => Some(Some(names_intersect(&x, &y))),
                    (Some(x), None) => Some(Some(x)),
                    (None, y) => Some(y),
                },
                _ => None,
            }
        },
        StmtAST::While(c, b) => {
            if !check_expr(c, scope) {
                return None;
            }
            match check_stmt(b, scope) {
                Some(_) => Some(Some(clone_names(scope))),
                None => None,
            }
        },
        StmtAST::Return(e) => {
            if check_expr(e, scope) {
                Some(None)
            } else {
                None
            }
        },
    }
}

/// Whether the function reads no variable before defining it: the condition
/// under which `naive_ssa_translation` accepts it.
pub fn is_well_scoped(func: &FuncAST) -> (r: bool)
    ensures
        r == well_scoped(*func),
{
    check_stmt(&func.body, &func.params).is_some()
}

/// Translates a function into an SSA e-graph and its control-flow graph.
/// Block 0 is the entry block, with no predecessors; every other block has
/// one or two, the first a forward edge. Each parameter has its value, and
/// each returning block has a root; there are roots exactly when some way
/// through the body returns. Values whose operands become equal are merged,
/// and every class named in the result is a representative.
pub fn naive_ssa_translation(func: &FuncAST) -> (res: (SSAGraph, CFG))
    requires
        well_scoped(*func),
    ensures
        res.0.wf(cfg_view(&res.1)),
        res.0.canonical(cfg_view(&res.1)),
        forall|v: SSAValue| #[trigger] res.0.nodes().contains_key(v) && v is Param ==> (v->Param_0 as int) < func.params@.len(),
        cfg_view(&res.1).len() >= 1,
        cfg_view(&res.1)[0].len() == 0,
        blocks_shaped_from(cfg_view(&res.1), 1),
        forall|i: usize| i < func.params@.len() ==> #[trigger] res.0.nodes().contains_key(SSAValue::Param(i)),
        res.0.roots@.len() > 0 <==> may_return(func.body, param_names(func.params@)),
{
    let mut ssa = SSAGraph { values: NodeTable::empty(), uf: UnionFind::new(), roots: Vec::new() };
    let mut cfg: CFG = Vec::new();
    cfg.push(Vec::new());
    let mut ctx = NaiveSSAContext { vars: Vec::new(), last_block: 0 };
    proof {
        assert(table_contents(ssa.values).dom() =~= Set::<NodeKey>::empty());
        assert(cfg_view(&cfg) =~= seq![Seq::<Pred>::empty()]);
        assert(!is_root_block(ssa, 0));
        assert(var_names(ctx.vars@) =~= name_set(func.params@.subrange(0, 0)));
    }
    let mut idx: usize = 0;
    while idx < func.params.len()
        invariant
            idx <= func.params@.len(),
            ssa.wf(cfg_view(&cfg)),
            cfg_view(&cfg) =~= seq![Seq::<Pred>::empty()],
            ssa.roots@.len() == 0,
            ctx.last_block == 0,
            vars_distinct(ctx.vars@),
            vars_bounded(ctx.vars@, ssa.num_ids()),
            var_names(ctx.vars@) == name_set(func.params@.subrange(0, idx as int)),
            forall|v: SSAValue| #[trigger] ssa.nodes().contains_key(v) ==> v is Param && (v->Param_0 as int) < idx,
            forall|i: usize| i < idx ==> #[trigger] ssa.nodes().contains_key(SSAValue::Param(i)),
        decreases func.params@.len() - idx,
    {
        let ghost s0 = ssa;
        let id = ssa.add_value_wf(SSAValue::Param(idx), Ghost(cfg_view(&cfg)));
        insert_var(&mut ctx.vars, &func.params[idx], id);
        proof {
            assert(name_set(func.params@.subrange(0, idx + 1)) =~= name_set(func.params@.subrange(0, idx as int)).insert(
                func.params@[idx as int]@,
            )) by {
                let a1 = func.params@.subrange(0, idx + 1);
                let a0 = func.params@.subrange(0, idx as int);
                assert forall|x: Seq<char>| name_set(a1).contains(x) implies name_set(a0).insert(func.params@[idx as int]@).contains(x) by {
                    let k = choose|k: int| 0 <= k < a1.len() && #[trigger] a1[k]@ == x;
                    if k < idx {
                        assert(a0[k]@ == x);
                    }
                }
                assert forall|x: Seq<char>| name_set(a0).insert(func.params@[idx as int]@).contains(x) implies name_set(a1).contains(x) by {
                    if x == func.params@[idx as int]@ {
                        assert(a1[idx as int]@ == x);
                    } else {
                        let k = choose|k: int| 0 <= k < a0.len() && #[trigger] a0[k]@ == x;
                        assert(a1[k]@ == x);
                    }
                }
            }
            assert forall|v: SSAValue| #[trigger] ssa.nodes().contains_key(v) implies v is Param && (v->Param_0 as int) < idx + 1 by {
                if s0.nodes().contains_key(v) {
                }
            }
            assert forall|i: usize| i < idx + 1 implies #[trigger] ssa.nodes().contains_key(SSAValue::Param(i)) by {
                if i < idx {
                    assert(s0.nodes().contains_key(SSAValue::Param(i)));
                }
            }
        }
        idx = idx + 1;
    }
    proof {
        assert(func.params@.subrange(0, func.params@.len() as int) =~= func.params@);
        assert(!is_root_block(ssa, 0)) by {
            if is_root_block(ssa, 0) {
                let k = choose|k: int| 0 <= k < ssa.roots@.len() && #[trigger] ssa.roots@[k].0 == 0;
            }
        }
        assert(ctx.wf(ssa, cfg_view(&cfg)));
    }
    let ghost s1 = ssa;
    let ghost c1 = cfg_view(&cfg);
    let ghost names1 = ctx.names();
    let _ = ctx.handle_stmt(&mut ssa, &mut cfg, &func.body);
    proof {
        assert forall|v: SSAValue| #[trigger] ssa.nodes().contains_key(v) && v is Param implies (v->Param_0 as int) < func.params@.len() by {
            if s1.nodes().contains_key(v) {
            }
        }
        assert(cfg_view(&cfg)[0] == c1[0]);
    }
    let ghost c2 = cfg_view(&cfg);
    let ghost s2 = ssa;
    proof {
        assert forall|i: usize| i < func.params@.len() implies #[trigger] s2.nodes().contains_key(SSAValue::Param(i)) by {
            assert(s1.nodes().contains_key(SSAValue::Param(i)));
        }
        assert(names1 == param_names(func.params@));
        assert(s2.roots@.len() > 0 <==> may_return(func.body, param_names(func.params@)));
    }
    canonicalize_graph(&mut ssa, &mut cfg, Ghost(func.params@.len()));
    proof {
        assert(cfg_view(&cfg)[0].len() == c2[0].len());
        let c3 = cfg_view(&cfg);
        assert forall|b: int| 1 <= b < c3.len() implies #[trigger] block_shaped(c3, b) by {
            assert(block_shaped(c2, b));
            assert(c3[b].len() == c2[b].len());
            assert forall|k: int| 0 <= k < c3[b].len() implies if (#[trigger] c3[b][k]).2 {
                c3[b][k].0 > b
            } else {
                c3[b][k].0 < b
            } by {
                assert(c2[b][k].0 == c3[b][k].0);
            }
        }
        assert forall|i: usize| i < func.params@.len() implies #[trigger] ssa.nodes().contains_key(SSAValue::Param(i)) by {
            assert(s2.nodes().contains_key(SSAValue::Param(i)));
        }
    }
    (ssa, cfg)
}

/// The operands of the value that `bw` picks for class `id`; none when it
/// picks no value.
pub open spec fn succ_of(bw: Seq<Option<SSAValue>>, id: ClassId) -> Seq<ClassId> {
    if (id as int) < bw.len() && bw[id as int] is Some {
        uses_of(bw[id as int]->0)
    } else {
        seq![]
    }
}

/// A path from a start class along the operands of picked values.
pub open spec fn is_path(bw: Seq<Option<SSAValue>>, starts: Set<ClassId>, path: Seq<ClassId>) -> bool {
    &&& path.len() >= 1
    &&& starts.contains(path[0])
    &&& forall|i: int| 0 <= i < path.len() - 1 ==> (#[trigger] succ_of(bw, path[i])).contains(path[i + 1])
}

/// Whether `x` is reached from `starts` through the picked values' operands.
pub open spec fn reachable(bw: Seq<Option<SSAValue>>, starts: Set<ClassId>, x: ClassId) -> bool {
    exists|p: Seq<ClassId>| #[trigger] is_path(bw, starts, p) && p.last() == x
}

/// `bw` picks, for each of the `n` classes, one value of the class, or none
/// when the class has no value.
pub open spec fn picks(bw: Seq<Option<SSAValue>>, nodes: Map<SSAValue, ClassId>, n: nat) -> bool {
    &&& bw.len() == n
    &&& forall|id: int| 0 <= id < n && (#[trigger] bw[id]) is Some ==> nodes.contains_key(bw[id]->0) && nodes[bw[id]->0] == id
    &&& forall|v: SSAValue| #[trigger] nodes.contains_key(v) && (nodes[v] as int) < n ==> bw[nodes[v] as int] is Some
}

/// The classes that the roots return and that the conditions test.
pub open spec fn live_starts(ssa: SSAGraph, cfg: Seq<Seq<Pred>>) -> Set<ClassId> {
    Set::new(|id: ClassId| (exists|i: int| 0 <= i < ssa.roots@.len() && #[trigger] ssa.roots@[i].1 == id)
        || (exists|b: int, k: int| 0 <= b < cfg.len() && 0 <= k < cfg[b].len() && #[trigger] cfg[b][k].1 == id))
}

proof fn lemma_path_extend(bw: Seq<Option<SSAValue>>, starts: Set<ClassId>, x: ClassId, u: ClassId)
    requires
        reachable(bw, starts, x),
        succ_of(bw, x).contains(u),
    ensures
        reachable(bw, starts, u),
{
    let p = choose|p: Seq<ClassId>| #[trigger] is_path(bw, starts, p) && p.last() == x;
    let q = p.push(u);
    assert forall|i: int| 0 <= i < q.len() - 1 implies (#[trigger] succ_of(bw, q[i])).contains(q[i + 1]) by {
        if i < p.len() - 1 {
            assert(q[i] == p[i] && q[i + 1] == p[i + 1]);
        } else {
            assert(q[i] == x);
        }
    }
    assert(is_path(bw, starts, q));
}

proof fn lemma_contains_after_pop(before: Seq<ClassId>, w1: Seq<ClassId>, id: ClassId, now: Seq<ClassId>, s: ClassId)
    requires
        before == w1.push(id),
        now.len() >= w1.len(),
        forall|i: int| 0 <= i < w1.len() ==> now[i] == w1[i],
        before.contains(s),
        s != id,
    ensures
        now.contains(s),
{
    let k = choose|k: int| 0 <= k < before.len() && before[k] == s;
    assert(k < w1.len());
    assert(now[k] == s);
}

proof fn lemma_closed_contains_reachable(
    bw: Seq<Option<SSAValue>>,
    starts: Set<ClassId>,
    alive: Seq<bool>,
    p: Seq<ClassId>,
    k: int,
)
    requires
        is_path(bw, starts, p),
        0 <= k < p.len(),
        forall|s: ClassId| #[trigger] starts.contains(s) ==> (s as int) < alive.len() && alive[s as int],
        forall|x: ClassId, u: ClassId| (x as int) < alive.len() && alive[x as int] && #[trigger] succ_of(bw, x).contains(u) ==> (u as int)
            < alive.len() && alive[u as int],
        alive.len() <= usize::MAX + 1,
    ensures
        (p[k] as int) < alive.len() && alive[p[k] as int],
    decreases k,
{
    if k > 0 {
        lemma_closed_contains_reachable(bw, starts, alive, p, k - 1);
        assert(succ_of(bw, p[k - 1]).contains(p[k - 1 + 1]));
    }
}

/// The number of `false` entries.
pub open spec fn count_false(s: Seq<bool>) -> nat
    decreases s.len(),
{
    if s.len() == 0 {
        0
    } else {
        count_false(s.drop_last()) + if s.last() {
            0nat
        } else {
            1nat
        }
    }
}

proof fn lemma_count_false_set(s: Seq<bool>, i: int)
    requires
        0 <= i < s.len(),
        !s[i],
    ensures
        count_false(s.update(i, true)) + 1 == count_false(s),
    decreases s.len(),
{
    let t = s.update(i, true);
    if i == s.len() - 1 {
        assert(t.drop_last() =~= s.drop_last());
    } else {
        lemma_count_false_set(s.drop_last(), i);
        assert(t.drop_last() =~= s.drop_last().update(i, true));
    }
}

/// For each class, the last value of the class that `entries` lists, or
/// `None` for a class with no value.
fn pick_values(ssa: &SSAGraph, entries: &Vec<(SSAValue, ClassId)>, Ghost(cv): Ghost<Seq<Seq<Pred>>>) -> (bw: Vec<Option<SSAValue>>)
    requires
        ssa.wf(cv),
        forall|i: int| 0 <= i < entries@.len() ==> ssa.nodes().contains_key(#[trigger] entries@[i].0) && ssa.nodes()[entries@[i].0]
            == entries@[i].1,
        forall|v: SSAValue| #[trigger] ssa.nodes().contains_key(v) ==> exists|i: int| 0 <= i < entries@.len() && #[trigger] entries@[i].0 == v,
    ensures
        picks(bw@, ssa.nodes(), ssa.num_ids()),
{
    let ghost nodes0 = ssa.nodes();
    proof {
        ssa.uf.lemma_wf();
    }
    let n = ssa.uf.num_ids();
    // the value picked for each class: the last one met
    let mut bw: Vec<Option<SSAValue>> = Vec::new();
    let mut i: usize = 0;
    while i < n
        invariant
            i <= n,
            bw@.len() == i,
            forall|j: int| 0 <= j < i ==> bw@[j] is None,
        decreases n - i,
    {
        bw.push(None);
        i = i + 1;
    }
    let mut j: usize = 0;
    proof {
        assert forall|i: int| 0 <= i < entries@.len() implies (#[trigger] entries@[i].1 as int) < n by {
            assert(nodes0.contains_key(entries@[i].0));
        }
    }
    while j < entries.len()
        invariant
            j <= entries@.len(),
            bw@.len() == n,
            n == ssa.num_ids(),
            ssa.wf(cv),
            ssa.nodes() == nodes0,
            forall|i: int| 0 <= i < entries@.len() ==> nodes0.contains_key(#[trigger] entries@[i].0) && nodes0[entries@[i].0] == entries@[i].1,
            forall|i: int| 0 <= i < entries@.len() ==> (#[trigger] entries@[i].1 as int) < n,
            forall|v: SSAValue| #[trigger] nodes0.contains_key(v) ==> exists|i: int| 0 <= i < entries@.len() && #[trigger] entries@[i].0 == v,
            forall|id: int| 0 <= id < n && #[trigger] bw@[id] is Some ==> nodes0.contains_key(bw@[id]->0) && nodes0[bw@[id]->0] == id,
            forall|i: int| 0 <= i < j ==> #[trigger] bw@[entries@[i].1 as int] is Some,
            forall|id: int| 0 <= id < n && #[trigger] bw@[id] is Some ==> exists|i: int| 0 <= i < j && #[trigger] entries@[i].1 == id,
        decreases entries@.len() - j,
    {
        let (v, id) = entries[j];
        proof {
            assert(nodes0.contains_key(v));
        }
        bw.set(id, Some(v));
        proof {
            assert forall|id2: int| 0 <= id2 < n && #[trigger] bw@[id2] is Some implies exists|i: int| 0 <= i < j + 1 && #[trigger] entries@[i].1 == id2 by {
                if id2 == id as int {
                    assert(entries@[j as int].1 == id2);
                }
            }
        }
        j = j + 1;
    }
    proof {
        assert(picks(bw@, nodes0, n as nat)) by {
            assert forall|v: SSAValue| #[trigger] nodes0.contains_key(v) && (nodes0[v] as int) < n implies bw@[nodes0[v] as int] is Some by {
                let i = choose|i: int| 0 <= i < entries@.len() && #[trigger] entries@[i].0 == v;
                assert(bw@[entries@[i].1 as int] is Some);
            }
        }
    }
    bw
}

/// Dead-code elimination: keeps exactly the values whose class is reachable
/// from the classes that roots return and conditions test, following for
/// each class the operands of one value of that class, picked among the
/// class's values in an unstated way; a class with no value has no operands.
pub fn dce(ssa: &mut SSAGraph, cfg: &CFG)
    requires
        old(ssa).wf(cfg_view(cfg)),
    ensures
        final(ssa).wf(cfg_view(cfg)),
        final(ssa).uf == old(ssa).uf,
        final(ssa).roots == old(ssa).roots,
        old(ssa).canonical(cfg_view(cfg)) ==> final(ssa).canonical(cfg_view(cfg)),
        exists|bw: Seq<Option<SSAValue>>| #![trigger picks(bw, old(ssa).nodes(), old(ssa).num_ids())]
            picks(bw, old(ssa).nodes(), old(ssa).num_ids()) && forall|v: SSAValue|
            #[trigger] final(ssa).nodes().contains_key(v) <==> (old(ssa).nodes().contains_key(v) && reachable(
                bw,
                live_starts(*old(ssa), cfg_view(cfg)),
                old(ssa).nodes()[v],
            )),
        forall|v: SSAValue| #[trigger] final(ssa).nodes().contains_key(v) ==> final(ssa).nodes()[v] == old(ssa).nodes()[v],
{
    let ghost cv = cfg_view(cfg);
    let ghost nodes0 = ssa.nodes();
    let ghost starts = live_starts(*ssa, cv);
    proof {
        ssa.uf.lemma_wf();
    }
    let n = ssa.uf.num_ids();
    let entries = ssa.value_entries();
    let bw = pick_values(ssa, &entries, Ghost(cv));
    proof {
        assert forall|i: int| 0 <= i < entries@.len() implies (#[trigger] entries@[i].1 as int) < n by {
            assert(nodes0.contains_key(entries@[i].0));
        }
    }
    let ghost bwv = bw@;
    // the starts: every root and every condition
    let mut work: Vec<ClassId> = Vec::new();
    let mut r: usize = 0;
    while r < ssa.roots.len()
        invariant
            r <= ssa.roots@.len(),
            ssa.wf(cv),
            starts == live_starts(*ssa, cv),
            forall|i: int| 0 <= i < work@.len() ==> starts.contains(#[trigger] work@[i]) && (work@[i] as int) < n,
            forall|i: int| 0 <= i < r ==> work@.contains(#[trigger] ssa.roots@[i].1),
            n == ssa.num_ids(),
            ssa.uf == old(ssa).uf,
            ssa.roots == old(ssa).roots,
            ssa.nodes() == nodes0,
        decreases ssa.roots@.len() - r,
    {
        let ghost w0 = work@;
        work.push(ssa.roots[r].1);
        proof {
            assert(starts.contains(ssa.roots@[r as int].1));
            assert((ssa.roots@[r as int].0 as int) < cv.len());
            assert((ssa.roots@[r as int].1 as int) < n);
            assert forall|i: int| 0 <= i < work@.len() implies starts.contains(#[trigger] work@[i]) && (work@[i] as int) < n by {
                if i < w0.len() {
                    assert(work@[i] == w0[i]);
                }
            }
            assert forall|i: int| 0 <= i < r + 1 implies work@.contains(#[trigger] ssa.roots@[i].1) by {
                if i == r {
                    assert(work@[w0.len() as int] == ssa.roots@[i].1);
                } else {
                    let k = choose|k: int| 0 <= k < w0.len() && w0[k] == ssa.roots@[i].1;
                    assert(work@[k] == ssa.roots@[i].1);
                }
            }
        }
        r = r + 1;
    }
    let mut b: usize = 0;
    while b < cfg.len()
        invariant
            b <= cv.len(),
            cv == cfg_view(cfg),
            ssa.wf(cv),
            starts == live_starts(*ssa, cv),
            forall|i: int| 0 <= i < work@.len() ==> starts.contains(#[trigger] work@[i]) && (work@[i] as int) < n,
            forall|i: int| 0 <= i < ssa.roots@.len() ==> work@.contains(#[trigger] ssa.roots@[i].1),
            forall|x: int, k: int| 0 <= x < b && 0 <= k < cv[x].len() ==> work@.contains(#[trigger] cv[x][k].1),
            n == ssa.num_ids(),
            ssa.uf == old(ssa).uf,
            ssa.roots == old(ssa).roots,
            ssa.nodes() == nodes0,
        decreases cv.len() - b,
    {
        let mut k: usize = 0;
        while k < cfg[b].len()
            invariant
                b < cv.len(),
                k <= cv[b as int].len(),
                cv == cfg_view(cfg),
                ssa.wf(cv),
                starts == live_starts(*ssa, cv),
                forall|i: int| 0 <= i < work@.len() ==> starts.contains(#[trigger] work@[i]) && (work@[i] as int) < n,
                forall|i: int| 0 <= i < ssa.roots@.len() ==> work@.contains(#[trigger] ssa.roots@[i].1),
                forall|x: int, q: int| 0 <= x < b && 0 <= q < cv[x].len() ==> work@.contains(#[trigger] cv[x][q].1),
                forall|q: int| 0 <= q < k ==> work@.contains(#[trigger] cv[b as int][q].1),
                n == ssa.num_ids(),
                ssa.uf == old(ssa).uf,
                ssa.roots == old(ssa).roots,
                ssa.nodes() == nodes0,
            decreases cv[b as int].len() - k,
        {
            let c = cfg[b][k].1;
            proof {
                assert(cv[b as int][k as int].1 == c);
                assert(starts.contains(c));
            }
            let ghost w0 = work@;
            work.push(c);
            proof {
                assert((cv[b as int][k as int].0 as int) < cv.len());
                assert((c as int) < n);
                assert forall|i: int| 0 <= i < work@.len() implies starts.contains(#[trigger] work@[i]) && (work@[i] as int) < n by {
                    if i < w0.len() {
                        assert(work@[i] == w0[i]);
                    }
                }
                assert forall|i: int| 0 <= i < ssa.roots@.len() implies work@.contains(#[trigger] ssa.roots@[i].1) by {
                    let k2 = choose|k2: int| 0 <= k2 < w0.len() && w0[k2] == ssa.roots@[i].1;
                    assert(work@[k2] == ssa.roots@[i].1);
                }
                assert forall|x: int, q: int| 0 <= x < b && 0 <= q < cv[x].len() implies work@.contains(#[trigger] cv[x][q].1) by {
                    let k2 = choose|k2: int| 0 <= k2 < w0.len() && w0[k2] == cv[x][q].1;
                    assert(work@[k2] == cv[x][q].1);
                }
                assert forall|q: int| 0 <= q < k + 1 implies work@.contains(#[trigger] cv[b as int][q].1) by {
                    if q == k {
                        assert(work@[w0.len() as int] == c);
                    } else {
                        let k2 = choose|k2: int| 0 <= k2 < w0.len() && w0[k2] == cv[b as int][q].1;
                        assert(work@[k2] == cv[b as int][q].1);
                    }
                }
            }
            k = k + 1;
        }
        b = b + 1;
    }
    // marking
    let mut alive: Vec<bool> = Vec::new();
    let mut i: usize = 0;
    while i < n
        invariant
            i <= n,
            alive@.len() == i,
            forall|j: int| 0 <= j < i ==> !alive@[j],
        decreases n - i,
    {
        alive.push(false);
        i = i + 1;
    }
    proof {
        assert forall|s: ClassId| #[trigger] starts.contains(s) implies work@.contains(s) by {
            if exists|i: int| 0 <= i < ssa.roots@.len() && #[trigger] ssa.roots@[i].1 == s {
                let i = choose|i: int| 0 <= i < ssa.roots@.len() && #[trigger] ssa.roots@[i].1 == s;
            } else {
                let (x, q) = choose|x: int, q: int| 0 <= x < cv.len() && 0 <= q < cv[x].len() && #[trigger] cv[x][q].1 == s;
            }
        }
        assert forall|i: int| 0 <= i < work@.len() implies reachable(bwv, starts, #[trigger] work@[i]) by {
            let p = seq![work@[i]];
            assert(is_path(bwv, starts, p));
        }
    }
    while work.len() > 0
        invariant
            alive@.len() == n,
            bw@ == bwv,
            picks(bwv, nodes0, n as nat),
            ssa.wf(cv),
            ssa.nodes() == nodes0,
            n == ssa.num_ids(),
            forall|i: int| 0 <= i < work@.len() ==> (#[trigger] work@[i] as int) < n && reachable(bwv, starts, work@[i]),
            forall|x: int| 0 <= x < n && #[trigger] alive@[x] ==> reachable(bwv, starts, x as ClassId),
            forall|s: ClassId| #[trigger] starts.contains(s) ==> (s as int) < n && (alive@[s as int] || work@.contains(s)),
            forall|x: ClassId, u: ClassId| (x as int) < n && alive@[x as int] && #[trigger] succ_of(bwv, x).contains(u) ==> (u as int) < n
                && (alive@[u as int] || work@.contains(u)),
            ssa.uf == old(ssa).uf,
            ssa.roots == old(ssa).roots,
        decreases count_false(alive@), work@.len(),
    {
        let ghost before = work@;
        let ghost alive_before = alive@;
        let id = work.pop().unwrap();
        let ghost w1 = work@;
        proof {
            assert(before == w1.push(id));
        }
        if !alive[id] {
            alive.set(id, true);
            proof {
                lemma_count_false_set(alive_before, id as int);
            }
            match bw[id] {
                Some(v) => {
                    proof {
                        assert(nodes0.contains_key(v));
                        assert(value_wf(v, n as nat, cv));
                    }
                    let us = v.uses();
                    let mut q: usize = 0;
                    while q < us.len()
                        invariant
                            q <= us@.len(),
                            us@ == uses_of(v),
                            forall|k: int| 0 <= k < us@.len() ==> (#[trigger] us@[k] as int) < n,
                            work@.len() == w1.len() + q,
                            forall|i: int| 0 <= i < w1.len() ==> work@[i] == w1[i],
                            forall|k: int| 0 <= k < q ==> #[trigger] work@[w1.len() + k] == us@[k],
                        decreases us@.len() - q,
                    {
                        work.push(us[q]);
                        q = q + 1;
                    }
                    proof {
                        assert(succ_of(bwv, id) == uses_of(v));
                        assert forall|i: int| 0 <= i < work@.len() implies (#[trigger] work@[i] as int) < n && reachable(bwv, starts, work@[i]) by {
                            if i >= w1.len() {
                                let k = i - w1.len();
                                assert(work@[w1.len() + k] == us@[k]);
                                assert(succ_of(bwv, id).contains(us@[k]));
                                lemma_path_extend(bwv, starts, id, us@[k]);
                            } else {
                                assert(work@[i] == w1[i]);
                                assert(before[i] == w1[i]);
                            }
                        }
                        assert forall|u: ClassId| #[trigger] succ_of(bwv, id).contains(u) implies work@.contains(u) by {
                            let k = choose|k: int| 0 <= k < us@.len() && us@[k] == u;
                            assert(work@[w1.len() + k] == u);
                        }
                    }
                },
                None => {
                    proof {
                        assert(succ_of(bwv, id) =~= Seq::<ClassId>::empty());
                        assert forall|i: int| 0 <= i < work@.len() implies (#[trigger] work@[i] as int) < n && reachable(bwv, starts, work@[i]) by {
                            assert(before[i] == w1[i]);
                        }
                    }
                },
            }
            proof {
                assert forall|s: ClassId| #[trigger] starts.contains(s) implies (s as int) < n && (alive@[s as int] || work@.contains(s)) by {
                    if !alive@[s as int] && s != id {
                        lemma_contains_after_pop(before, w1, id, work@, s);
                    }
                }
                assert forall|x: ClassId, u: ClassId| (x as int) < n && alive@[x as int] && #[trigger] succ_of(bwv, x).contains(u) implies (u as int) < n
                    && (alive@[u as int] || work@.contains(u)) by {
                    if x != id {
                        assert(alive_before[x as int]);
                        if !alive@[u as int] && u != id {
                            lemma_contains_after_pop(before, w1, id, work@, u);
                        }
                    }
                }
                assert forall|x: int| 0 <= x < n && #[trigger] alive@[x] implies reachable(bwv, starts, x as ClassId) by {
                    if x == id as int {
                        assert(before[before.len() - 1] == id);
                        assert(x as ClassId == id);
                    } else {
                        assert(alive_before[x]);
                    }
                }
            }
        } else {
            proof {
                assert forall|i: int| 0 <= i < work@.len() implies (#[trigger] work@[i] as int) < n && reachable(bwv, starts, work@[i]) by {
                    assert(before[i] == w1[i]);
                }
                assert forall|s: ClassId| #[trigger] starts.contains(s) implies (s as int) < n && (alive@[s as int] || work@.contains(s)) by {
                    if !alive@[s as int] && s != id {
                        lemma_contains_after_pop(before, w1, id, work@, s);
                    }
                }
                assert forall|x: ClassId, u: ClassId| (x as int) < n && alive@[x as int] && #[trigger] succ_of(bwv, x).contains(u) implies (u as int) < n
                    && (alive@[u as int] || work@.contains(u)) by {
                    if !alive@[u as int] && u != id {
                        lemma_contains_after_pop(before, w1, id, work@, u);
                    }
                }
            }
        }
    }
    // keep what is alive
    proof {
        // alive is exactly the reachable classes
        assert forall|x: int| 0 <= x < n && reachable(bwv, starts, x as ClassId) implies alive@[x] by {
            let p = choose|p: Seq<ClassId>| #[trigger] is_path(bwv, starts, p) && p.last() == x as ClassId;
            assert forall|s: ClassId| #[trigger] starts.contains(s) implies (s as int) < alive@.len() && alive@[s as int] by {
                if !alive@[s as int] {
                    assert(work@.contains(s));
                }
            }
            assert forall|y: ClassId, u: ClassId| (y as int) < alive@.len() && alive@[y as int] && #[trigger] succ_of(bwv, y).contains(u) implies (u as int)
                < alive@.len() && alive@[u as int] by {
                if !alive@[u as int] {
                    assert(work@.contains(u));
                }
            }
            lemma_closed_contains_reachable(bwv, starts, alive@, p, p.len() - 1);
        }
    }
    let mut e: usize = 0;
    while e < entries.len()
        invariant
            e <= entries@.len(),
            ssa.uf.wf(),
            ssa.keys_valid(),
            alive@.len() == n,
            n == ssa.num_ids(),
            ssa.uf == old(ssa).uf,
            ssa.roots == old(ssa).roots,
            forall|x: int| 0 <= x < n && reachable(bwv, starts, x as ClassId) ==> alive@[x],
            forall|x: int| 0 <= x < n && #[trigger] alive@[x] ==> reachable(bwv, starts, x as ClassId),
            forall|i: int| 0 <= i < entries@.len() ==> nodes0.contains_key(#[trigger] entries@[i].0) && nodes0[entries@[i].0] == entries@[i].1,
            forall|i: int| 0 <= i < entries@.len() ==> (#[trigger] entries@[i].1 as int) < n,
            forall|v: SSAValue| #[trigger] nodes0.contains_key(v) ==> (nodes0[v] as int) < n,
            forall|i: int, k: int| 0 <= i < entries@.len() && 0 <= k < entries@.len() && i != k ==> #[trigger] entries@[i].0 != #[trigger] entries@[k].0,
            forall|v: SSAValue| #[trigger] ssa.nodes().contains_key(v) ==> nodes0.contains_key(v) && ssa.nodes()[v] == nodes0[v],
            forall|v: SSAValue| #[trigger] nodes0.contains_key(v) ==> (ssa.nodes().contains_key(v) <==> (alive@[nodes0[v] as int] || !(exists|i: int| 0 <= i < e && #[trigger] entries@[i].0 == v))),
        decreases entries@.len() - e,
    {
        let (v, id) = entries[e];
        if !alive[id] {
            let ghost t0 = table_contents(ssa.values);
            let ghost n_before = ssa.nodes();
            ssa.values.remove(encode_value(v));
            proof {
                assert forall|w: SSAValue| #[trigger] ssa.nodes().contains_key(w) implies nodes0.contains_key(w) && ssa.nodes()[w] == nodes0[w] by {
                    assert(t0.contains_key(encode(w)));
                    assert(n_before.contains_key(w));
                }
                assert forall|k: NodeKey| #[trigger] table_contents(ssa.values).contains_key(k) implies valid_key(k) by {
                    assert(t0.contains_key(k));
                }
            }
        }
        proof {
            assert forall|w: SSAValue| #[trigger] nodes0.contains_key(w) implies (ssa.nodes().contains_key(w) <==> (alive@[nodes0[w] as int] || !(exists|i: int| 0 <= i < e + 1 && #[trigger] entries@[i].0 == w))) by {
                lemma_decode_encode(w);
                lemma_decode_encode(v);
                if w == v {
                    assert(entries@[e as int].0 == w);
                } else {
                    if exists|i: int| 0 <= i < e + 1 && #[trigger] entries@[i].0 == w {
                        let i = choose|i: int| 0 <= i < e + 1 && #[trigger] entries@[i].0 == w;
                        assert(i < e);
                    }
                }
            }
        }
        e = e + 1;
    }
    proof {
        assert forall|v: SSAValue| #[trigger] ssa.nodes().contains_key(v) <==> (nodes0.contains_key(v) && reachable(bwv, starts, nodes0[v])) by {
            if nodes0.contains_key(v) {
                let i = choose|i: int| 0 <= i < entries@.len() && #[trigger] entries@[i].0 == v;
                assert(exists|i: int| 0 <= i < e && #[trigger] entries@[i].0 == v);
                assert((nodes0[v] as int) < n);
                assert(nodes0[v] as int as ClassId == nodes0[v]);
            }
        }
        assert(picks(bwv, nodes0, n as nat));
        assert forall|v: SSAValue| #[trigger] ssa.nodes().contains_key(v) implies (ssa.nodes()[v] as int) < ssa.num_ids()
            && value_wf(v, ssa.num_ids(), cv) by {
            assert(nodes0.contains_key(v));
        }
    }
}

/// A successor of a block: the successor, the condition class of the edge,
/// and the position of the edge among the successor's predecessors.
pub type Succ = (BlockId, ClassId, usize);

/// The successor lists after adding the first `k` predecessors of block `b`.
pub open spec fn add_preds_as_succs(s: Seq<Seq<Succ>>, cfg: Seq<Seq<Pred>>, b: int, k: int) -> Seq<Seq<Succ>>
    decreases k,
{
    if k <= 0 {
        s
    } else {
        let prev = add_preds_as_succs(s, cfg, b, k - 1);
        let p = cfg[b][k - 1];
        if (p.0 as int) < prev.len() {
            prev.update(p.0 as int, prev[p.0 as int].push((b as BlockId, p.1, (k - 1) as usize)))
        } else {
            prev
        }
    }
}

/// The successor lists of the first `b` blocks' edges.
pub open spec fn succs_upto(cfg: Seq<Seq<Pred>>, b: int) -> Seq<Seq<Succ>>
    decreases b,
{
    if b <= 0 {
        Seq::new(cfg.len(), |i: int| Seq::<Succ>::empty())
    } else {
        add_preds_as_succs(succs_upto(cfg, b - 1), cfg, b - 1, cfg[b - 1].len() as int)
    }
}

/// For every block, its successors: the edges that name it as predecessor,
/// in the order of their blocks and positions.
pub open spec fn succs_spec(cfg: Seq<Seq<Pred>>) -> Seq<Seq<Succ>> {
    succs_upto(cfg, cfg.len() as int)
}

/// The class that block `b` returns, if it returns.
pub open spec fn root_of_block(roots: Seq<(BlockId, ClassId)>, b: BlockId) -> Option<ClassId> {
    if exists|i: int| 0 <= i < roots.len() && #[trigger] roots[i].0 == b {
        Some(roots[choose|i: int| 0 <= i < roots.len() && #[trigger] roots[i].0 == b].1)
    } else {
        None
    }
}

/// The value of class `id`, reading the value picked for each class from
/// `vals`, the current phi values from `phis` and the arguments from `args`;
/// `None` where an operation overflows, a class has no value or phi value,
/// or more than `fuel` nested evaluations would be needed.
pub open spec fn eval_spec(id: ClassId, vals: Seq<Option<SSAValue>>, phis: Seq<Option<i64>>, args: Seq<i64>, fuel: nat) -> Option<i64>
    decreases fuel,
{
    if fuel == 0 || id as int >= vals.len() || vals[id as int] is None {
        None
    } else {
        match vals[id as int]->0 {
            SSAValue::Constant(c) => Some(c),
            SSAValue::Param(i) => if (i as int) < args.len() {
                Some(args[i as int])
            } else {
                None
            },
            SSAValue::Phi(_, _, _) => if (id as int) < phis.len() {
                phis[id as int]
            } else {
                None
            },
            SSAValue::Unary(op, x) => match eval_spec(x, vals, phis, args, (fuel - 1) as nat) {
                Some(a) => Some(unary_spec(op, a)),
                None => None,
            },
            SSAValue::Binary(op, l, r) => match (
                eval_spec(l, vals, phis, args, (fuel - 1) as nat),
                eval_spec(r, vals, phis, args, (fuel - 1) as nat),
            ) {
                (Some(a), Some(b)) => binary_spec(op, a, b),
                _ => None,
            },
        }
    }
}

/// Assigns the phis `list[k..]` in order, each from the operand of the
/// edge at position `idx`, as seen after the earlier assignments.
pub open spec fn phi_step(
    list: Seq<(ClassId, ClassId, ClassId)>,
    k: int,
    idx: usize,
    vals: Seq<Option<SSAValue>>,
    phis: Seq<Option<i64>>,
    args: Seq<i64>,
    fuel: nat,
) -> Option<Seq<Option<i64>>>
    decreases list.len() - k,
{
    if k < 0 || k >= list.len() {
        Some(phis)
    } else {
        let (phi, l, r) = list[k];
        match eval_spec(if idx == 0 { l } else { r }, vals, phis, args, fuel) {
            None => None,
            Some(x) => phi_step(
                list,
                k + 1,
                idx,
                vals,
                if (phi as int) < phis.len() {
                    phis.update(phi as int, Some(x))
                } else {
                    phis
                },
                args,
                fuel,
            ),
        }
    }
}

/// The first successor in `succs[k..]` whose condition holds; `Some(None)`
/// when none does, `None` when a condition cannot be evaluated.
pub open spec fn first_ready(
    succs: Seq<Succ>,
    k: int,
    vals: Seq<Option<SSAValue>>,
    phis: Seq<Option<i64>>,
    args: Seq<i64>,
    fuel: nat,
) -> Option<Option<Succ>>
    decreases succs.len() - k,
{
    if k < 0 || k >= succs.len() {
        Some(None)
    } else {
        match eval_spec(succs[k].1, vals, phis, args, fuel) {
            None => None,
            Some(c) => if c != 0 {
                Some(Some(succs[k]))
            } else {
                first_ready(succs, k + 1, vals, phis, args, fuel)
            },
        }
    }
}

/// Law: a block is left by the first edge, from position `k` on, whose
/// condition evaluates to a nonzero value, whatever its sign; the edges
/// before it must evaluate to zero.
pub proof fn lemma_first_ready_takes_nonzero(
    succs: Seq<Succ>,
    k: int,
    vals: Seq<Option<SSAValue>>,
    phis: Seq<Option<i64>>,
    args: Seq<i64>,
    fuel: nat,
    j: int,
)
    requires
        0 <= k <= j < succs.len(),
        forall|i: int| k <= i < j ==> #[trigger] eval_spec(succs[i].1, vals, phis, args, fuel) == Some(0i64),
        eval_spec(succs[j].1, vals, phis, args, fuel) is Some,
        eval_spec(succs[j].1, vals, phis, args, fuel)->0 != 0,
    ensures
        first_ready(succs, k, vals, phis, args, fuel) == Some(Some(succs[j])),
    decreases j - k,
{
    if k < j {
        assert(eval_spec(succs[k].1, vals, phis, args, fuel) == Some(0i64));
        lemma_first_ready_takes_nonzero(succs, k + 1, vals, phis, args, fuel, j);
    }
}

/// Law: no edge from position `k` on is ready exactly when every condition
/// from there evaluates to zero; when an edge is taken, its condition is
/// nonzero and every earlier one is zero.
pub proof fn lemma_first_ready_none_or_nonzero(
    succs: Seq<Succ>,
    k: int,
    vals: Seq<Option<SSAValue>>,
    phis: Seq<Option<i64>>,
    args: Seq<i64>,
    fuel: nat,
)
    requires
        0 <= k <= succs.len(),
    ensures
        first_ready(succs, k, vals, phis, args, fuel) == Some(None::<Succ>) <==> forall|i: int|
            k <= i < succs.len() ==> #[trigger] eval_spec(succs[i].1, vals, phis, args, fuel) == Some(0i64),
        forall|s: Succ|
            first_ready(succs, k, vals, phis, args, fuel) == Some(Some(s)) ==> exists|j: int|
                k <= j < succs.len() && s == succs[j] && #[trigger] eval_spec(succs[j].1, vals, phis, args, fuel) is Some
                    && eval_spec(succs[j].1, vals, phis, args, fuel)->0 != 0 && forall|i: int|
                    k <= i < j ==> #[trigger] eval_spec(succs[i].1, vals, phis, args, fuel) == Some(0i64),
    decreases succs.len() - k,
{
    if k < succs.len() {
        lemma_first_ready_none_or_nonzero(succs, k + 1, vals, phis, args, fuel);
        let e = eval_spec(succs[k].1, vals, phis, args, fuel);
        if e is Some && e->0 == 0 {
            assert forall|s: Succ| first_ready(succs, k, vals, phis, args, fuel) == Some(Some(s)) implies exists|j: int|
                k <= j < succs.len() && s == succs[j] && #[trigger] eval_spec(succs[j].1, vals, phis, args, fuel) is Some
                    && eval_spec(succs[j].1, vals, phis, args, fuel)->0 != 0 && forall|i: int|
                    k <= i < j ==> #[trigger] eval_spec(succs[i].1, vals, phis, args, fuel) == Some(0i64) by {
                let j = choose|j: int|
                    k + 1 <= j < succs.len() && s == succs[j] && #[trigger] eval_spec(succs[j].1, vals, phis, args, fuel) is Some
                        && eval_spec(succs[j].1, vals, phis, args, fuel)->0 != 0 && forall|i: int|
                        k + 1 <= i < j ==> #[trigger] eval_spec(succs[i].1, vals, phis, args, fuel) == Some(0i64);
                assert(eval_spec(succs[j].1, vals, phis, args, fuel) is Some);
            }
        } else if e is Some {
            assert(eval_spec(succs[k].1, vals, phis, args, fuel) is Some);
        }
    }
}

/// The walk through the blocks from `block`: at a returning block, the
/// block and the value it returns; otherwise, with `juice` steps left, the
/// walk goes on to the first successor whose condition holds, after
/// assigning that successor's phis. `None` when the juice runs out, a value
/// cannot be evaluated, or no successor's condition holds.
pub open spec fn walk_spec(
    vals: Seq<Option<SSAValue>>,
    succs: Seq<Seq<Succ>>,
    phis_at: Seq<Seq<(ClassId, ClassId, ClassId)>>,
    roots: Seq<(BlockId, ClassId)>,
    args: Seq<i64>,
    fuel: nat,
    block: BlockId,
    phis: Seq<Option<i64>>,
    juice: nat,
) -> Option<(BlockId, i64)>
    decreases juice,
{
    match root_of_block(roots, block) {
        Some(root) => match eval_spec(root, vals, phis, args, fuel) {
            Some(x) => Some((block, x)),
            None => None,
        },
        None => if juice == 0 || block as int >= succs.len() {
            None
        } else {
            match first_ready(succs[block as int], 0, vals, phis, args, fuel) {
                Some(Some(s)) => if s.0 as int >= phis_at.len() {
                    None
                } else {
                    match phi_step(phis_at[s.0 as int], 0, s.2, vals, phis, args, fuel) {
                        Some(p2) => walk_spec(vals, succs, phis_at, roots, args, fuel, s.0, p2, (juice - 1) as nat),
                        None => None,
                    }
                },
                _ => None,
            }
        },
    }
}

/// Law: a run that returns within `juice` steps between blocks returns the
/// same with any larger allowance.
pub proof fn lemma_walk_more_juice(
    vals: Seq<Option<SSAValue>>,
    succs: Seq<Seq<Succ>>,
    phis_at: Seq<Seq<(ClassId, ClassId, ClassId)>>,
    roots: Seq<(BlockId, ClassId)>,
    args: Seq<i64>,
    fuel: nat,
    block: BlockId,
    phis: Seq<Option<i64>>,
    juice: nat,
    more: nat,
)
    requires
        walk_spec(vals, succs, phis_at, roots, args, fuel, block, phis, juice) is Some,
        juice <= more,
    ensures
        walk_spec(vals, succs, phis_at, roots, args, fuel, block, phis, more)
            == walk_spec(vals, succs, phis_at, roots, args, fuel, block, phis, juice),
    decreases juice,
{
    if root_of_block(roots, block) is None && juice > 0 && (block as int) < succs.len() {
        if let Some(Some(s)) = first_ready(succs[block as int], 0, vals, phis, args, fuel) {
            if (s.0 as int) < phis_at.len() {
                if let Some(p2) = phi_step(phis_at[s.0 as int], 0, s.2, vals, phis, args, fuel) {
                    lemma_walk_more_juice(vals, succs, phis_at, roots, args, fuel, s.0, p2, (juice - 1) as nat, (more - 1) as nat);
                }
            }
        }
    }
}

/// No phi has a value yet.
pub open spec fn no_phi_values(n: nat) -> Seq<Option<i64>> {
    Seq::new(n, |i: int| None::<i64>)
}

/// `lists[b]` lists every phi of block `b` once, as (class, left operand,
/// right operand).
pub open spec fn phis_listing(lists: Seq<Seq<(ClassId, ClassId, ClassId)>>, nodes: Map<SSAValue, ClassId>, nb: nat) -> bool {
    &&& lists.len() == nb
    &&& forall|b: int, k: int| 0 <= b < nb && 0 <= k < lists[b].len() ==> {
        let t = #[trigger] lists[b][k];
        &&& nodes.contains_key(SSAValue::Phi(b as BlockId, t.1, t.2))
        &&& nodes[SSAValue::Phi(b as BlockId, t.1, t.2)] == t.0
    }
    &&& forall|b: int, k1: int, k2: int| 0 <= b < nb && 0 <= k1 < lists[b].len() && 0 <= k2 < lists[b].len() && k1 != k2 ==> #[trigger] lists[b][k1] != #[trigger] lists[b][k2]
    &&& forall|v: SSAValue| #[trigger] nodes.contains_key(v) && v is Phi && (v->Phi_0 as int) < nb ==> exists|k: int|
        0 <= k < lists[v->Phi_0 as int].len() && #[trigger] lists[v->Phi_0 as int][k] == (nodes[v], v->Phi_1, v->Phi_2)
}

/// Evaluates class `id`; see `eval_spec`.
fn eval(id: ClassId, vals: &Vec<Option<SSAValue>>, phis: &Vec<Option<i64>>, args: &[i64], fuel: usize) -> (r: Option<i64>)
    ensures
        r == eval_spec(id, vals@, phis@, args@, fuel as nat),
    decreases fuel,
{
    if fuel == 0 || id >= vals.len() {
        return None;
    }
    match vals[id] {
        None => None,
        Some(SSAValue::Constant(c)) => Some(c),
        Some(SSAValue::Param(i)) => if i < args.len() {
            Some(args[i])
        } else {
            None
        },
        Some(SSAValue::Phi(_, _, _)) => if id < phis.len() {
            phis[id]
        } else {
            None
        },
        Some(SSAValue::Unary(op, x)) => match eval(x, vals, phis, args, fuel - 1) {
            Some(a) => Some(apply_unary(op, a)),
            None => None,
        },
        Some(SSAValue::Binary(op, l, r)) => {
            let a = eval(l, vals, phis, args, fuel - 1);
            let b = eval(r, vals, phis, args, fuel - 1);
            match (a, b) {
                (Some(a), Some(b)) => apply_binary(op, a, b),
                _ => None,
            }
        },
    }
}

fn phi_step_exec(
    list: &Vec<(ClassId, ClassId, ClassId)>,
    idx: usize,
    vals: &Vec<Option<SSAValue>>,
    phis: &mut Vec<Option<i64>>,
    args: &[i64],
    fuel: usize,
) -> (ok: bool)
    ensures
        ok == phi_step(list@, 0, idx, vals@, old(phis)@, args@, fuel as nat) is Some,
        ok ==> Some(final(phis)@) == phi_step(list@, 0, idx, vals@, old(phis)@, args@, fuel as nat),
        final(phis)@.len() == old(phis)@.len(),
{
    let mut k: usize = 0;
    while k < list.len()
        invariant
            k <= list@.len(),
            phis@.len() == old(phis)@.len(),
            phi_step(list@, k as int, idx, vals@, phis@, args@, fuel as nat) == phi_step(list@, 0, idx, vals@, old(phis)@, args@, fuel as nat),
        decreases list@.len() - k,
    {
        let (phi, l, r) = list[k];
        let x = eval(if idx == 0 { l } else { r }, vals, phis, args, fuel);
        match x {
            None => {
                return false;
            },
            Some(x) => {
                if phi < phis.len() {
                    phis.set(phi, Some(x));
                }
            },
        }
        k = k + 1;
    }
    true
}

fn first_ready_exec(
    succs: &Vec<Succ>,
    vals: &Vec<Option<SSAValue>>,
    phis: &Vec<Option<i64>>,
    args: &[i64],
    fuel: usize,
) -> (r: Option<Option<Succ>>)
    ensures
        r == first_ready(succs@, 0, vals@, phis@, args@, fuel as nat),
{
    let mut k: usize = 0;
    while k < succs.len()
        invariant
            k <= succs@.len(),
            first_ready(succs@, k as int, vals@, phis@, args@, fuel as nat) == first_ready(succs@, 0, vals@, phis@, args@, fuel as nat),
        decreases succs@.len() - k,
    {
        match eval(succs[k].1, vals, phis, args, fuel) {
            None => {
                return None;
            },
            Some(c) => {
                if c != 0 {
                    return Some(Some(succs[k]));
                }
            },
        }
        k = k + 1;
    }
    Some(None)
}

fn root_lookup(roots: &Vec<(BlockId, ClassId)>, b: BlockId) -> (r: Option<ClassId>)
    requires
        forall|i: int, j: int| 0 <= i < roots@.len() && 0 <= j < roots@.len() && i != j ==> #[trigger] roots@[i].0 != #[trigger] roots@[j].0,
    ensures
        r == root_of_block(roots@, b),
{
    let mut i: usize = 0;
    while i < roots.len()
        invariant
            i <= roots@.len(),
            forall|j: int| 0 <= j < i ==> #[trigger] roots@[j].0 != b,
            forall|x: int, y: int| 0 <= x < roots@.len() && 0 <= y < roots@.len() && x != y ==> #[trigger] roots@[x].0 != #[trigger] roots@[y].0,
        decreases roots@.len() - i,
    {
        if roots[i].0 == b {
            proof {
                assert(roots@[i as int].0 == b);
                let c = choose|j: int| 0 <= j < roots@.len() && #[trigger] roots@[j].0 == b;
                assert(c == i as int);
            }
            return Some(roots[i].1);
        }
        i = i + 1;
    }
    None
}

fn build_succs(cfg: &CFG) -> (r: Vec<Vec<Succ>>)
    ensures
        r@.map_values(|v: Vec<Succ>| v@) == succs_spec(cfg_view(cfg)),
{
    let ghost cv = cfg_view(cfg);
    let mut succs: Vec<Vec<Succ>> = Vec::new();
    let mut i: usize = 0;
    while i < cfg.len()
        invariant
            i <= cfg@.len(),
            succs@.len() == i,
            forall|j: int| 0 <= j < i ==> (#[trigger] succs@[j])@ == Seq::<Succ>::empty(),
        decreases cfg@.len() - i,
    {
        succs.push(Vec::new());
        i = i + 1;
    }
    proof {
        assert(succs@.map_values(|v: Vec<Succ>| v@) =~= succs_upto(cv, 0));
    }
    let mut b: usize = 0;
    while b < cfg.len()
        invariant
            b <= cfg@.len(),
            cv == cfg_view(cfg),
            succs@.len() == cfg@.len(),
            succs@.map_values(|v: Vec<Succ>| v@) == succs_upto(cv, b as int),
        decreases cfg@.len() - b,
    {
        let mut k: usize = 0;
        while k < cfg[b].len()
            invariant
                b < cfg@.len(),
                k <= cv[b as int].len(),
                cv == cfg_view(cfg),
                succs@.len() == cfg@.len(),
                succs@.map_values(|v: Vec<Succ>| v@) == add_preds_as_succs(succs_upto(cv, b as int), cv, b as int, k as int),
            decreases cv[b as int].len() - k,
        {
            let (p, c, _) = cfg[b][k];
            proof {
                assert(cv[b as int][k as int] == cfg@[b as int]@[k as int]);
            }
            if p < succs.len() {
                let ghost before = succs@.map_values(|v: Vec<Succ>| v@);
                succs[p].push((b, c, k));
                proof {
                    assert(succs@.map_values(|v: Vec<Succ>| v@) =~= before.update(p as int, before[p as int].push((b, c, k))));
                }
            }
            k = k + 1;
        }
        proof {
            assert(succs_upto(cv, b + 1) == add_preds_as_succs(succs_upto(cv, b as int), cv, b as int, cv[b as int].len() as int));
        }
        b = b + 1;
    }
    succs
}

fn build_phis_at(ssa: &SSAGraph, entries: &Vec<(SSAValue, ClassId)>, nb: usize) -> (r: Vec<Vec<(ClassId, ClassId, ClassId)>>)
    requires
        forall|i: int| 0 <= i < entries@.len() ==> ssa.nodes().contains_key(#[trigger] entries@[i].0) && ssa.nodes()[entries@[i].0]
            == entries@[i].1,
        forall|i: int, j: int| 0 <= i < entries@.len() && 0 <= j < entries@.len() && i != j ==> #[trigger] entries@[i].0 != #[trigger] entries@[j].0,
        forall|v: SSAValue| #[trigger] ssa.nodes().contains_key(v) ==> exists|i: int| 0 <= i < entries@.len() && #[trigger] entries@[i].0 == v,
    ensures
        phis_listing(r@.map_values(|v: Vec<(ClassId, ClassId, ClassId)>| v@), ssa.nodes(), nb as nat),
{
    let ghost nodes = ssa.nodes();
    let mut lists: Vec<Vec<(ClassId, ClassId, ClassId)>> = Vec::new();
    let mut i: usize = 0;
    while i < nb
        invariant
            i <= nb,
            lists@.len() == i,
            forall|j: int| 0 <= j < i ==> (#[trigger] lists@[j])@ == Seq::<(ClassId, ClassId, ClassId)>::empty(),
        decreases nb - i,
    {
        lists.push(Vec::new());
        i = i + 1;
    }
    let mut e: usize = 0;
    while e < entries.len()
        invariant
            e <= entries@.len(),
            lists@.len() == nb,
            nodes == ssa.nodes(),
            forall|i: int| 0 <= i < entries@.len() ==> nodes.contains_key(#[trigger] entries@[i].0) && nodes[entries@[i].0] == entries@[i].1,
            forall|i: int, j: int| 0 <= i < entries@.len() && 0 <= j < entries@.len() && i != j ==> #[trigger] entries@[i].0 != #[trigger] entries@[j].0,
            forall|b: int, k: int| 0 <= b < nb && 0 <= k < lists@[b]@.len() ==> {
                let t = #[trigger] lists@[b]@[k];
                &&& nodes.contains_key(SSAValue::Phi(b as BlockId, t.1, t.2))
                &&& nodes[SSAValue::Phi(b as BlockId, t.1, t.2)] == t.0
                &&& exists|i: int| 0 <= i < e && #[trigger] entries@[i].0 == SSAValue::Phi(b as BlockId, t.1, t.2)
            },
            forall|b: int, k1: int, k2: int| 0 <= b < nb && 0 <= k1 < lists@[b]@.len() && 0 <= k2 < lists@[b]@.len() && k1 != k2 ==> #[trigger] lists@[b]@[k1] != #[trigger] lists@[b]@[k2],
            forall|i: int| 0 <= i < e && #[trigger] entries@[i].0 is Phi && (entries@[i].0->Phi_0 as int) < nb ==> exists|k: int|
                0 <= k < lists@[entries@[i].0->Phi_0 as int]@.len() && #[trigger] lists@[entries@[i].0->Phi_0 as int]@[k] == (entries@[i].1, entries@[i].0->Phi_1, entries@[i].0->Phi_2),
        decreases entries@.len() - e,
    {
        let (v, id) = entries[e];
        match v {
            SSAValue::Phi(b, l, r) => {
                if b < lists.len() {
                    let ghost before = lists@;
                    proof {
                        assert forall|k: int| 0 <= k < before[b as int]@.len() implies #[trigger] before[b as int]@[k] != (id, l, r) by {
                            let t = before[b as int]@[k];
                            let i = choose|i: int| 0 <= i < e && #[trigger] entries@[i].0 == SSAValue::Phi(b as BlockId, t.1, t.2);
                            if t == (id, l, r) {
                                assert(entries@[i].0 == v);
                            }
                        }
                    }
                    lists[b].push((id, l, r));
                    proof {
                        assert forall|bb: int| 0 <= bb < nb && bb != b implies #[trigger] lists@[bb] == before[bb] by {}
                        assert forall|bb: int, k: int| 0 <= bb < nb && 0 <= k < lists@[bb]@.len() implies {
                            let t = #[trigger] lists@[bb]@[k];
                            &&& nodes.contains_key(SSAValue::Phi(bb as BlockId, t.1, t.2))
                            &&& nodes[SSAValue::Phi(bb as BlockId, t.1, t.2)] == t.0
                            &&& exists|i: int| 0 <= i < e + 1 && #[trigger] entries@[i].0 == SSAValue::Phi(bb as BlockId, t.1, t.2)
                        } by {
                            if bb == b && k == before[b as int]@.len() {
                                assert(entries@[e as int].0 == SSAValue::Phi(bb as BlockId, l, r));
                            } else {
                                let t = before[bb]@[k];
                                let i = choose|i: int| 0 <= i < e && #[trigger] entries@[i].0 == SSAValue::Phi(bb as BlockId, t.1, t.2);
                            }
                        }
                        assert forall|i: int| 0 <= i < e + 1 && #[trigger] entries@[i].0 is Phi && (entries@[i].0->Phi_0 as int) < nb implies exists|k: int|
                            0 <= k < lists@[entries@[i].0->Phi_0 as int]@.len() && #[trigger] lists@[entries@[i].0->Phi_0 as int]@[k] == (entries@[i].1, entries@[i].0->Phi_1, entries@[i].0->Phi_2) by {
                            if i == e {
                                assert(lists@[b as int]@[before[b as int]@.len() as int] == (id, l, r));
                            } else {
                                let bb = entries@[i].0->Phi_0 as int;
                                let k = choose|k: int| 0 <= k < before[bb]@.len() && #[trigger] before[bb]@[k] == (entries@[i].1, entries@[i].0->Phi_1, entries@[i].0->Phi_2);
                                assert(lists@[bb]@[k] == before[bb]@[k]);
                            }
                        }
                    }
                }
            },
            _ => {},
        }
        e = e + 1;
    }
    proof {
        let lv = lists@.map_values(|v: Vec<(ClassId, ClassId, ClassId)>| v@);
        assert forall|v: SSAValue| #[trigger] nodes.contains_key(v) && v is Phi && (v->Phi_0 as int) < nb implies exists|k: int|
            0 <= k < lv[v->Phi_0 as int].len() && #[trigger] lv[v->Phi_0 as int][k] == (nodes[v], v->Phi_1, v->Phi_2) by {
            let i = choose|i: int| 0 <= i < entries@.len() && #[trigger] entries@[i].0 == v;
            let k = choose|k: int| 0 <= k < lists@[v->Phi_0 as int]@.len() && #[trigger] lists@[v->Phi_0 as int]@[k] == (entries@[i].1, entries@[i].0->Phi_1, entries@[i].0->Phi_2);
            assert(lv[v->Phi_0 as int][k] == lists@[v->Phi_0 as int]@[k]);
        }
    }
    lists
}

/// A run of `walk_spec` from the entry block over the given picks is one
/// of the results `interpret` may give.
proof fn lemma_interpret_result(
    ssa: SSAGraph,
    cfg: Seq<Seq<Pred>>,
    args: Seq<i64>,
    juice: nat,
    vals: Seq<Option<SSAValue>>,
    pv: Seq<Seq<(ClassId, ClassId, ClassId)>>,
    r: Option<(BlockId, i64)>,
)
    requires
        picks(vals, ssa.nodes(), ssa.num_ids()),
        phis_listing(pv, ssa.nodes(), cfg.len()),
        r == walk_spec(vals, succs_spec(cfg), pv, ssa.roots@, args, ssa.num_ids(), 0, no_phi_values(ssa.num_ids()), juice),
    ensures
        exists|vals: Seq<Option<SSAValue>>, phis_at: Seq<Seq<(ClassId, ClassId, ClassId)>>|
            #![trigger picks(vals, ssa.nodes(), ssa.num_ids()), phis_listing(phis_at, ssa.nodes(), cfg.len())]
            picks(vals, ssa.nodes(), ssa.num_ids()) && phis_listing(phis_at, ssa.nodes(), cfg.len()) && r == walk_spec(
                vals,
                succs_spec(cfg),
                phis_at,
                ssa.roots@,
                args,
                ssa.num_ids(),
                0,
                no_phi_values(ssa.num_ids()),
                juice,
            ),
{
}

/// Runs the program that the graph describes on `args` for at most `juice`
/// steps between blocks, starting at block 0 with no phi values: the
/// returning block reached and the value it returns, as `walk_spec` states.
/// Each class is evaluated through one of its values, picked in an unstated
/// way, and the phis of a block are assigned in an unstated order; nested
/// evaluation is bounded by the number of classes.
pub fn interpret(ssa: &SSAGraph, cfg: &CFG, args: &[i64], juice: usize) -> (r: Option<(BlockId, i64)>)
    requires
        ssa.wf(cfg_view(cfg)),
        forall|v: SSAValue| #[trigger] ssa.nodes().contains_key(v) && v is Param ==> (v->Param_0 as int) < args@.len(),
    ensures
        exists|vals: Seq<Option<SSAValue>>, phis_at: Seq<Seq<(ClassId, ClassId, ClassId)>>|
            #![trigger picks(vals, ssa.nodes(), ssa.num_ids()), phis_listing(phis_at, ssa.nodes(), cfg@.len() as nat)]
            picks(vals, ssa.nodes(), ssa.num_ids()) && phis_listing(phis_at, ssa.nodes(), cfg@.len() as nat) && r == walk_spec(
                vals,
                succs_spec(cfg_view(cfg)),
                phis_at,
                ssa.roots@,
                args@,
                ssa.num_ids(),
                0,
                no_phi_values(ssa.num_ids()),
                juice as nat,
            ),
{
    let ghost cv = cfg_view(cfg);
    proof {
        ssa.uf.lemma_wf();
    }
    let n = ssa.uf.num_ids();
    let entries = ssa.value_entries();
    let vals = pick_values(ssa, &entries, Ghost(cv));
    let succs = build_succs(cfg);
    let phis_at = build_phis_at(ssa, &entries, cfg.len());
    let ghost sv = succs@.map_values(|v: Vec<Succ>| v@);
    let ghost pv = phis_at@.map_values(|v: Vec<(ClassId, ClassId, ClassId)>| v@);
    let mut phis: Vec<Option<i64>> = Vec::new();
    let mut i: usize = 0;
    while i < n
        invariant
            i <= n,
            phis@.len() == i,
            forall|j: int| 0 <= j < i ==> phis@[j] is None,
        decreases n - i,
    {
        phis.push(None);
        i = i + 1;
    }
    proof {
        assert(phis@ =~= no_phi_values(n as nat));
    }
    let ghost init = phis@;
    let ghost nodes = ssa.nodes();
    let ghost nn = ssa.num_ids();
    proof {
        assert(picks(vals@, nodes, nn));
        assert(phis_listing(pv, nodes, cfg@.len() as nat));
        assert(sv == succs_spec(cv));
    }
    let mut block: BlockId = 0;
    let mut juice_left = juice;
    loop
        invariant
            phis@.len() == n,
            sv == succs@.map_values(|v: Vec<Succ>| v@),
            pv == phis_at@.map_values(|v: Vec<(ClassId, ClassId, ClassId)>| v@),
            n == ssa.num_ids(),
            ssa.wf(cv),
            picks(vals@, nodes, nn),
            phis_listing(pv, nodes, cfg@.len() as nat),
            sv == succs_spec(cv),
            cv == cfg_view(cfg),
            nodes == ssa.nodes(),
            nn == ssa.num_ids(),
            init == no_phi_values(ssa.num_ids()),
            walk_spec(vals@, sv, pv, ssa.roots@, args@, n as nat, block, phis@, juice_left as nat) == walk_spec(
                vals@,
                sv,
                pv,
                ssa.roots@,
                args@,
                n as nat,
                0,
                init,
                juice as nat,
            ),
        decreases juice_left,
    {
        match root_lookup(&ssa.roots, block) {
            Some(root) => {
                let res = match eval(root, &vals, &phis, args, n) {
                    Some(x) => Some((block, x)),
                    None => None,
                };
                proof {
                    assert(res == walk_spec(vals@, sv, pv, ssa.roots@, args@, n as nat, block, phis@, juice_left as nat));
                    lemma_interpret_result(*ssa, cfg_view(cfg), args@, juice as nat, vals@, pv, res);
                }
                return res;
            },
            None => {},
        }
        if juice_left == 0 || block >= succs.len() {
            proof {
                assert(None::<(BlockId, i64)> == walk_spec(vals@, sv, pv, ssa.roots@, args@, n as nat, block, phis@, juice_left as nat));
                lemma_interpret_result(*ssa, cfg_view(cfg), args@, juice as nat, vals@, pv, None::<(BlockId, i64)>);
            }
            return None;
        }
        proof {
            assert(sv[block as int] == succs@[block as int]@);
        }
        match first_ready_exec(&succs[block], &vals, &phis, args, n) {
            Some(Some(s)) => {
                let (succ, _, idx) = s;
                if succ >= phis_at.len() {
                    proof {
                        assert(None::<(BlockId, i64)> == walk_spec(vals@, sv, pv, ssa.roots@, args@, n as nat, block, phis@, juice_left as nat));
                        lemma_interpret_result(*ssa, cfg_view(cfg), args@, juice as nat, vals@, pv, None::<(BlockId, i64)>);
                    }
                    return None;
                }
                proof {
                    assert(pv[succ as int] == phis_at@[succ as int]@);
                }
                let ghost phis_before = phis@;
                let ok = phi_step_exec(&phis_at[succ], idx, &vals, &mut phis, args, n);
                if !ok {
                    proof {
                        assert(None::<(BlockId, i64)> == walk_spec(vals@, sv, pv, ssa.roots@, args@, n as nat, block, phis_before, juice_left as nat));
                        lemma_interpret_result(*ssa, cfg_view(cfg), args@, juice as nat, vals@, pv, None::<(BlockId, i64)>);
                    }
                    return None;
                }
                block = succ;
                juice_left = juice_left - 1;
            },
            _ => {
                proof {
                    assert(None::<(BlockId, i64)> == walk_spec(vals@, sv, pv, ssa.roots@, args@, n as nat, block, phis@, juice_left as nat));
                    lemma_interpret_result(*ssa, cfg_view(cfg), args@, juice as nat, vals@, pv, None::<(BlockId, i64)>);
                }
                return None;
            },
        }
    }
}

} // verus!
