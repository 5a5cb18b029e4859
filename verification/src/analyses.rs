//! The worklist e-class analysis over an SSA e-graph: which blocks and edges
//! are unreachable, an interval for every class, and global value numbering.
//! It runs either once against pessimistic assumptions about loop back edges
//! or optimistically, in rounds, until the values at the loop heads settle.
use vstd::prelude::*;

use std::collections::VecDeque;

use crate::ast::{BinaryOp, UnaryOp};
use crate::domains::{ClassId, Interval, UnionFind, empty_interval, full_interval, lemma_meet_is_intersection, union_spec};
use crate::hashcons::{NodeKey, NodeTable, table_contents};
use crate::ssa::{BlockId, CFG, Pred, SSAGraph, SSAValue, binary_code, cfg_view, cfg_wf, unary_code, uses_of, value_wf};

verus! {

/// An item the worklist visits: a node (by its position in the node list of
/// the dependency graph), a block, or the edge into a block from the
/// predecessor at the given position of the block's predecessor list.
#[derive(Debug, Clone, Copy, PartialEq, Eq, Structural)]
pub enum VisitItem {
    Node(usize),
    Block(BlockId),
    Edge(BlockId, usize),
}

/// Whether the interval of value `v` reads class `c` in the current round:
/// every operand does but the one of a phi that comes along a back edge.
pub open spec fn reads_class(v: SSAValue, c: ClassId, cfg: Seq<Seq<Pred>>) -> bool {
    match v {
        SSAValue::Constant(_) => false,
        SSAValue::Param(_) => false,
        SSAValue::Phi(b, l, r) => if cfg[b as int][0].2 {
            r == c
        } else if cfg[b as int][1].2 {
            l == c
        } else {
            l == c || r == c
        },
        SSAValue::Unary(_, x) => x == c,
        SSAValue::Binary(_, l, r) => l == c || r == c,
    }
}

/// Whether `x` names a node, block or edge that exists.
pub open spec fn item_valid(num_nodes: nat, cfg: Seq<Seq<Pred>>, x: VisitItem) -> bool {
    match x {
        VisitItem::Node(i) => (i as int) < num_nodes,
        VisitItem::Block(b) => (b as int) < cfg.len(),
        VisitItem::Edge(b, k) => (b as int) < cfg.len() && (k as int) < cfg[b as int].len(),
    }
}

/// Whether the transfer function of `to` reads what `from` computes, so that
/// `to` must be visited again when `from` changes. A node reads the classes
/// of its operands (but the back-edge operand of a phi); a constant and a
/// parameter hang on the entry block; a phi reads the forward edges into its
/// block; an edge reads its predecessor block and its condition's class; a
/// block reads its forward incoming edges.
pub open spec fn depends_on(
    nodes: Seq<(SSAValue, ClassId)>,
    cfg: Seq<Seq<Pred>>,
    from: VisitItem,
    to: VisitItem,
) -> bool {
    &&& item_valid(nodes.len(), cfg, from)
    &&& item_valid(nodes.len(), cfg, to)
    &&& match to {
        VisitItem::Node(j) => match from {
            VisitItem::Node(i) => reads_class(nodes[j as int].0, nodes[i as int].1, cfg),
            VisitItem::Block(b) => b == 0 && (nodes[j as int].0 is Constant || nodes[j as int].0 is Param),
            VisitItem::Edge(b, k) => nodes[j as int].0 is Phi && nodes[j as int].0->Phi_0 == b
                && !cfg[b as int][k as int].2,
        },
        VisitItem::Block(b) => match from {
            VisitItem::Edge(b2, k) => b2 == b && !cfg[b as int][k as int].2,
            _ => false,
        },
        VisitItem::Edge(b, k) => match from {
            VisitItem::Block(p) => p == cfg[b as int][k as int].0,
            VisitItem::Node(i) => nodes[i as int].1 == cfg[b as int][k as int].1,
            VisitItem::Edge(_, _) => false,
        },
    }
}

/// Every phi of the node list names a block with two predecessors.
pub open spec fn nodes_wf(nodes: Seq<(SSAValue, ClassId)>, cfg: Seq<Seq<Pred>>) -> bool {
    forall|j: int|
        0 <= j < nodes.len() && (#[trigger] nodes[j]).0 is Phi ==> (nodes[j].0->Phi_0 as int) < cfg.len()
            && cfg[nodes[j].0->Phi_0 as int].len() == 2
}

/// The dependency graph of the worklist: the nodes of the e-graph, and the
/// items that depend on every class (and so on each of its nodes), block
/// and edge.
pub struct Dependents {
    pub nodes: Vec<(SSAValue, ClassId)>,
    pub class_deps: Vec<Vec<VisitItem>>,
    pub block_deps: Vec<Vec<VisitItem>>,
    pub edge_deps: Vec<Vec<Vec<VisitItem>>>,
}

impl Dependents {
    /// The items that depend on `x`.
    pub open spec fn deps_of(self, x: VisitItem) -> Seq<VisitItem> {
        match x {
            VisitItem::Node(i) => self.class_deps@[self.nodes@[i as int].1 as int]@,
            VisitItem::Block(b) => self.block_deps@[b as int]@,
            VisitItem::Edge(b, k) => self.edge_deps@[b as int]@[k as int]@,
        }
    }

    /// Shaped after the node list and `cfg`, and listing for every item
    /// exactly the items that depend on it.
    pub open spec fn wf(self, cfg: Seq<Seq<Pred>>) -> bool {
        &&& forall|i: int| 0 <= i < self.nodes@.len() ==> (#[trigger] self.nodes@[i].1 as int) < self.class_deps@.len()
        &&& self.block_deps@.len() == cfg.len()
        &&& self.edge_deps@.len() == cfg.len()
        &&& forall|b: int| 0 <= b < cfg.len() ==> (#[trigger] self.edge_deps@[b])@.len() == cfg[b].len()
        &&& forall|x: VisitItem, y: VisitItem|
            item_valid(self.nodes@.len(), cfg, x) ==> (#[trigger] self.deps_of(x).contains(y) <==> depends_on(
                self.nodes@,
                cfg,
                x,
                y,
            ))
    }
}

proof fn lemma_push_contains(s: Seq<VisitItem>, x: VisitItem)
    ensures
        forall|y: VisitItem| #[trigger] s.push(x).contains(y) <==> (s.contains(y) || y == x),
{
    assert forall|y: VisitItem| #[trigger] s.push(x).contains(y) implies (s.contains(y) || y == x) by {
        let i = choose|i: int| 0 <= i < s.push(x).len() && s.push(x)[i] == y;
        if i < s.len() {
            assert(s[i] == y);
        }
    }
    assert forall|y: VisitItem| (s.contains(y) || y == x) implies #[trigger] s.push(x).contains(y) by {
        if y == x {
            assert(s.push(x)[s.len() as int] == y);
        } else {
            let i = choose|i: int| 0 <= i < s.len() && s[i] == y;
            assert(s.push(x)[i] == y);
        }
    }
}

/// `n` empty lists.
fn empty_rows(n: usize) -> (r: Vec<Vec<VisitItem>>)
    ensures
        r@.len() == n,
        forall|c: int| 0 <= c < n ==> (#[trigger] r@[c])@ == Seq::<VisitItem>::empty(),
{
    let mut r: Vec<Vec<VisitItem>> = Vec::new();
    let mut i: usize = 0;
    while i < n
        invariant
            i <= n,
            r@.len() == i,
            forall|c: int| 0 <= c < i ==> (#[trigger] r@[c])@ == Seq::<VisitItem>::empty(),
        decreases n - i,
    {
        r.push(Vec::new());
        i = i + 1;
    }
    r
}

/// Appends `y` to list `c`.
fn push_row(rows: &mut Vec<Vec<VisitItem>>, c: usize, y: VisitItem)
    requires
        c < old(rows)@.len(),
    ensures
        final(rows)@.len() == old(rows)@.len(),
        forall|d: int| 0 <= d < old(rows)@.len() && d != c ==> #[trigger] final(rows)@[d] == old(rows)@[d],
        forall|z: VisitItem| #[trigger] final(rows)@[c as int]@.contains(z) <==> (old(rows)@[c as int]@.contains(z) || z == y),
{
    let ghost r0 = rows@[c as int]@;
    rows[c].push(y);
    proof {
        lemma_push_contains(r0, y);
    }
}

/// The items that read the values of each class: the nodes that read the
/// class (by position in `nodes`), then the edges whose condition it is.
fn class_dependents(nodes: &Vec<(SSAValue, ClassId)>, cfg: &CFG, n: usize) -> (r: Vec<Vec<VisitItem>>)
    requires
        forall|j: int| 0 <= j < nodes@.len() ==> value_wf(#[trigger] nodes@[j].0, n as nat, cfg_view(cfg)),
        cfg_wf(cfg_view(cfg), n as nat),
    ensures
        r@.len() == n,
        forall|c: int, y: VisitItem|
            0 <= c < n ==> (#[trigger] r@[c]@.contains(y) <==> (item_valid(nodes@.len(), cfg_view(cfg), y) && match y {
                VisitItem::Node(j) => reads_class(nodes@[j as int].0, c as ClassId, cfg_view(cfg)),
                VisitItem::Edge(b, k) => cfg_view(cfg)[b as int][k as int].1 == c,
                VisitItem::Block(_) => false,
            })),
{
    let ghost cv = cfg_view(cfg);
    let mut r = empty_rows(n);
    let mut j: usize = 0;
    while j < nodes.len()
        invariant
            cv == cfg_view(cfg),
            j <= nodes@.len(),
            r@.len() == n,
            forall|x: int| 0 <= x < nodes@.len() ==> value_wf(#[trigger] nodes@[x].0, n as nat, cv),
            forall|c: int, y: VisitItem|
                0 <= c < n ==> (#[trigger] r@[c]@.contains(y) <==> (y is Node && (y->Node_0 as int) < j && reads_class(
                    nodes@[y->Node_0 as int].0,
                    c as ClassId,
                    cv,
                ))),
        decreases nodes@.len() - j,
    {
        let v = nodes[j].0;
        let y = VisitItem::Node(j);
        let ghost r0 = r@;
        proof {
            assert(value_wf(v, n as nat, cv));
        }
        match v {
            SSAValue::Phi(b, l, rr) => {
                proof {
                    assert(uses_of(v)[0] == l && uses_of(v)[1] == rr);
                }
                if !cfg[b][0].2 {
                    push_row(&mut r, l, y);
                }
                let ghost r1 = r@;
                if !cfg[b][1].2 {
                    push_row(&mut r, rr, y);
                }
                proof {
                    assert forall|c: int, z: VisitItem|
                        0 <= c < n implies (#[trigger] r@[c]@.contains(z) <==> (z is Node && (z->Node_0 as int) < j + 1
                        && reads_class(nodes@[z->Node_0 as int].0, c as ClassId, cv))) by {
                        if z == y {
                            if reads_class(v, c as ClassId, cv) {
                                if !cv[b as int][0].2 && l == c {
                                    assert(r1[c]@.contains(z));
                                }
                            }
                        } else {
                            if r@[c]@.contains(z) {
                                assert(r1[c]@.contains(z));
                                assert(r0[c]@.contains(z));
                            }
                            if z is Node && (z->Node_0 as int) < j + 1 && reads_class(nodes@[z->Node_0 as int].0, c as ClassId, cv) {
                                assert(r0[c]@.contains(z));
                                assert(r1[c]@.contains(z));
                            }
                        }
                    }
                }
            },
            SSAValue::Unary(_, x) => {
                proof {
                    assert(uses_of(v)[0] == x);
                }
                push_row(&mut r, x, y);
                proof {
                    assert forall|c: int, z: VisitItem|
                        0 <= c < n implies (#[trigger] r@[c]@.contains(z) <==> (z is Node && (z->Node_0 as int) < j + 1
                        && reads_class(nodes@[z->Node_0 as int].0, c as ClassId, cv))) by {
                        if z != y {
                            if r@[c]@.contains(z) {
                                assert(r0[c]@.contains(z));
                            }
                            if z is Node && (z->Node_0 as int) < j + 1 && reads_class(nodes@[z->Node_0 as int].0, c as ClassId, cv) {
                                assert(r0[c]@.contains(z));
                            }
                        }
                    }
                }
            },
            SSAValue::Binary(_, l, rr) => {
                proof {
                    assert(uses_of(v)[0] == l && uses_of(v)[1] == rr);
                }
                push_row(&mut r, l, y);
                let ghost r1 = r@;
                push_row(&mut r, rr, y);
                proof {
                    assert forall|c: int, z: VisitItem|
                        0 <= c < n implies (#[trigger] r@[c]@.contains(z) <==> (z is Node && (z->Node_0 as int) < j + 1
                        && reads_class(nodes@[z->Node_0 as int].0, c as ClassId, cv))) by {
                        if z == y {
                            if reads_class(v, c as ClassId, cv) && l == c {
                                assert(r1[c]@.contains(z));
                            }
                        } else {
                            if r@[c]@.contains(z) {
                                assert(r1[c]@.contains(z));
                                assert(r0[c]@.contains(z));
                            }
                            if z is Node && (z->Node_0 as int) < j + 1 && reads_class(nodes@[z->Node_0 as int].0, c as ClassId, cv) {
                                assert(r0[c]@.contains(z));
                                assert(r1[c]@.contains(z));
                            }
                        }
                    }
                }
            },
            _ => {
                proof {
                    assert forall|c: int, z: VisitItem|
                        0 <= c < n implies (#[trigger] r@[c]@.contains(z) <==> (z is Node && (z->Node_0 as int) < j + 1
                        && reads_class(nodes@[z->Node_0 as int].0, c as ClassId, cv))) by {
                        if z is Node && (z->Node_0 as int) < j + 1 && reads_class(nodes@[z->Node_0 as int].0, c as ClassId, cv) {
                            assert(z != y);
                        }
                    }
                }
            },
        }
        j = j + 1;
    }
    let mut b: usize = 0;
    while b < cfg.len()
        invariant
            cv == cfg_view(cfg),
            cv.len() == cfg@.len(),
            b <= cv.len(),
            r@.len() == n,
            cfg_wf(cv, n as nat),
            forall|c: int, y: VisitItem|
                0 <= c < n ==> (#[trigger] r@[c]@.contains(y) <==> ((y is Node && (y->Node_0 as int) < nodes@.len()
                    && reads_class(nodes@[y->Node_0 as int].0, c as ClassId, cv)) || (y is Edge && (y->Edge_0 as int) < b
                    && (y->Edge_1 as int) < cv[y->Edge_0 as int].len() && cv[y->Edge_0 as int][y->Edge_1 as int].1 == c))),
        decreases cv.len() - b,
    {
        let mut k: usize = 0;
        while k < cfg[b].len()
            invariant
                cv == cfg_view(cfg),
                cv.len() == cfg@.len(),
                b < cv.len(),
                k <= cv[b as int].len(),
                r@.len() == n,
                cfg_wf(cv, n as nat),
                forall|c: int, y: VisitItem|
                    0 <= c < n ==> (#[trigger] r@[c]@.contains(y) <==> ((y is Node && (y->Node_0 as int) < nodes@.len()
                        && reads_class(nodes@[y->Node_0 as int].0, c as ClassId, cv)) || (y is Edge && ((y->Edge_0 as int) < b
                        || (y->Edge_0 == b && (y->Edge_1 as int) < k)) && (y->Edge_1 as int) < cv[y->Edge_0 as int].len()
                        && cv[y->Edge_0 as int][y->Edge_1 as int].1 == c))),
            decreases cv[b as int].len() - k,
        {
            let cond = cfg[b][k].1;
            proof {
                assert(cv[b as int][k as int].1 == cond);
                assert((cv[b as int][k as int].0 as int) < cv.len());
            }
            let ghost r0 = r@;
            push_row(&mut r, cond, VisitItem::Edge(b, k));
            proof {
                assert forall|c: int, z: VisitItem|
                    0 <= c < n implies (#[trigger] r@[c]@.contains(z) <==> ((z is Node && (z->Node_0 as int) < nodes@.len()
                    && reads_class(nodes@[z->Node_0 as int].0, c as ClassId, cv)) || (z is Edge && ((z->Edge_0 as int) < b
                    || (z->Edge_0 == b && (z->Edge_1 as int) < k + 1)) && (z->Edge_1 as int) < cv[z->Edge_0 as int].len()
                    && cv[z->Edge_0 as int][z->Edge_1 as int].1 == c))) by {
                    if z != VisitItem::Edge(b, k) || c != cond {
                        if r@[c]@.contains(z) {
                            assert(r0[c]@.contains(z));
                        }
                        if r0[c]@.contains(z) {
                            assert(r@[c]@.contains(z));
                        }
                    }
                }
            }
            k = k + 1;
        }
        b = b + 1;
    }
    proof {
        assert forall|c: int, y: VisitItem|
            0 <= c < n implies (#[trigger] r@[c]@.contains(y) <==> (item_valid(nodes@.len(), cv, y) && match y {
                VisitItem::Node(j) => reads_class(nodes@[j as int].0, c as ClassId, cv),
                VisitItem::Edge(b, k) => cv[b as int][k as int].1 == c,
                VisitItem::Block(_) => false,
            })) by {
        }
    }
    r
}

/// The dependency graph of the graph's nodes, its blocks and its edges.
pub fn dependents(ssa: &SSAGraph, cfg: &CFG) -> (d: Dependents)
    requires
        ssa.wf(cfg_view(cfg)),
    ensures
        d.wf(cfg_view(cfg)),
        nodes_wf(d.nodes@, cfg_view(cfg)),
        forall|i: int|
            0 <= i < d.nodes@.len() ==> ssa.nodes().contains_key(#[trigger] d.nodes@[i].0)
                && ssa.nodes()[d.nodes@[i].0] == d.nodes@[i].1,
        forall|i: int, j: int|
            0 <= i < d.nodes@.len() && 0 <= j < d.nodes@.len() && i != j ==> #[trigger] d.nodes@[i].0
                != #[trigger] d.nodes@[j].0,
        forall|v: SSAValue|
            #[trigger] ssa.nodes().contains_key(v) ==> exists|i: int| 0 <= i < d.nodes@.len() && #[trigger] d.nodes@[i].0 == v,
{
    let ghost cv = cfg_view(cfg);
    proof {
        ssa.uf.lemma_wf();
    }
    let n = ssa.uf.num_ids();
    let nodes = ssa.value_entries();
    proof {
        assert forall|j: int| 0 <= j < nodes@.len() && (#[trigger] nodes@[j]).0 is Phi implies (
        nodes@[j].0->Phi_0 as int) < cv.len() && cv[nodes@[j].0->Phi_0 as int].len() == 2 by {
            assert(ssa.nodes().contains_key(nodes@[j].0));
        }
        assert forall|j: int| 0 <= j < nodes@.len() implies value_wf(#[trigger] nodes@[j].0, n as nat, cv) && (nodes@[j].1 as int) < n by {
            assert(ssa.nodes().contains_key(nodes@[j].0));
        }
    }
    let class_deps = class_dependents(&nodes, cfg, n);
    // the constants and parameters, the phis of each block, the edges out of each block
    let mut consts: Vec<VisitItem> = Vec::new();
    let mut phis = empty_rows(cfg.len());
    let mut j: usize = 0;
    while j < nodes.len()
        invariant
            cv == cfg_view(cfg),
            cv.len() == cfg@.len(),
            j <= nodes@.len(),
            phis@.len() == cv.len(),
            nodes_wf(nodes@, cv),
            forall|y: VisitItem| #[trigger] consts@.contains(y) <==> (y is Node && (y->Node_0 as int) < j && (
                nodes@[y->Node_0 as int].0 is Constant || nodes@[y->Node_0 as int].0 is Param)),
            forall|b: int, y: VisitItem| 0 <= b < cv.len() ==> (#[trigger] phis@[b]@.contains(y) <==> (y is Node
                && (y->Node_0 as int) < j && nodes@[y->Node_0 as int].0 is Phi && nodes@[y->Node_0 as int].0->Phi_0 == b)),
        decreases nodes@.len() - j,
    {
        let v = nodes[j].0;
        let y = VisitItem::Node(j);
        let ghost c0 = consts@;
        let ghost p0 = phis@;
        match v {
            SSAValue::Phi(b, _, _) => {
                proof {
                    assert(nodes@[j as int].0 is Phi);
                }
                push_row(&mut phis, b, y);
            },
            SSAValue::Constant(_) => {
                consts.push(y);
                proof {
                    lemma_push_contains(c0, y);
                }
            },
            SSAValue::Param(_) => {
                consts.push(y);
                proof {
                    lemma_push_contains(c0, y);
                }
            },
            _ => {},
        }
        proof {
            assert forall|z: VisitItem| #[trigger] consts@.contains(z) <==> (z is Node && (z->Node_0 as int) < j + 1 && (
                nodes@[z->Node_0 as int].0 is Constant || nodes@[z->Node_0 as int].0 is Param)) by {
                if z != y {
                    if consts@.contains(z) {
                        assert(c0.contains(z));
                    }
                    if c0.contains(z) {
                        assert(consts@.contains(z));
                    }
                }
            }
            assert forall|b: int, z: VisitItem| 0 <= b < cv.len() implies (#[trigger] phis@[b]@.contains(z) <==> (z is Node
                && (z->Node_0 as int) < j + 1 && nodes@[z->Node_0 as int].0 is Phi && nodes@[z->Node_0 as int].0->Phi_0 == b)) by {
                if z != y {
                    if phis@[b]@.contains(z) {
                        assert(p0[b]@.contains(z));
                    }
                    if p0[b]@.contains(z) {
                        assert(phis@[b]@.contains(z));
                    }
                }
            }
        }
        j = j + 1;
    }
    let mut pred_edges = empty_rows(cfg.len());
    let mut b: usize = 0;
    while b < cfg.len()
        invariant
            cv == cfg_view(cfg),
            cv.len() == cfg@.len(),
            b <= cv.len(),
            pred_edges@.len() == cv.len(),
            cfg_wf(cv, n as nat),
            forall|p: int, y: VisitItem| 0 <= p < cv.len() ==> (#[trigger] pred_edges@[p]@.contains(y) <==> (y is Edge
                && (y->Edge_0 as int) < b && (y->Edge_1 as int) < cv[y->Edge_0 as int].len()
                && cv[y->Edge_0 as int][y->Edge_1 as int].0 == p)),
        decreases cv.len() - b,
    {
        let mut k: usize = 0;
        while k < cfg[b].len()
            invariant
                cv == cfg_view(cfg),
                cv.len() == cfg@.len(),
                b < cv.len(),
                k <= cv[b as int].len(),
                pred_edges@.len() == cv.len(),
                cfg_wf(cv, n as nat),
                forall|p: int, y: VisitItem| 0 <= p < cv.len() ==> (#[trigger] pred_edges@[p]@.contains(y) <==> (y is Edge
                    && ((y->Edge_0 as int) < b || (y->Edge_0 == b && (y->Edge_1 as int) < k))
                    && (y->Edge_1 as int) < cv[y->Edge_0 as int].len() && cv[y->Edge_0 as int][y->Edge_1 as int].0 == p)),
            decreases cv[b as int].len() - k,
        {
            let p = cfg[b][k].0;
            proof {
                assert(cv[b as int][k as int].0 == p);
                assert((p as int) < cv.len());
            }
            let ghost r0 = pred_edges@;
            push_row(&mut pred_edges, p, VisitItem::Edge(b, k));
            proof {
                assert forall|q: int, z: VisitItem| 0 <= q < cv.len() implies (#[trigger] pred_edges@[q]@.contains(z) <==> (z is Edge
                    && ((z->Edge_0 as int) < b || (z->Edge_0 == b && (z->Edge_1 as int) < k + 1))
                    && (z->Edge_1 as int) < cv[z->Edge_0 as int].len() && cv[z->Edge_0 as int][z->Edge_1 as int].0 == q)) by {
                    if z != VisitItem::Edge(b, k) || q != p {
                        if pred_edges@[q]@.contains(z) {
                            assert(r0[q]@.contains(z));
                        }
                        if r0[q]@.contains(z) {
                            assert(pred_edges@[q]@.contains(z));
                        }
                    }
                }
            }
            k = k + 1;
        }
        b = b + 1;
    }
    // the lists of dependents of blocks and edges
    let mut block_deps: Vec<Vec<VisitItem>> = Vec::new();
    let mut edge_deps: Vec<Vec<Vec<VisitItem>>> = Vec::new();
    let mut b: usize = 0;
    while b < cfg.len()
        invariant
            cv == cfg_view(cfg),
            cv.len() == cfg@.len(),
            b <= cv.len(),
            pred_edges@.len() == cv.len(),
            phis@.len() == cv.len(),
            block_deps@.len() == b,
            edge_deps@.len() == b,
            nodes_wf(nodes@, cv),
            forall|y: VisitItem| #[trigger] consts@.contains(y) <==> (y is Node && (y->Node_0 as int) < nodes@.len() && (
                nodes@[y->Node_0 as int].0 is Constant || nodes@[y->Node_0 as int].0 is Param)),
            forall|x: int, y: VisitItem| 0 <= x < cv.len() ==> (#[trigger] phis@[x]@.contains(y) <==> (y is Node
                && (y->Node_0 as int) < nodes@.len() && nodes@[y->Node_0 as int].0 is Phi && nodes@[y->Node_0 as int].0->Phi_0 == x)),
            forall|p: int, y: VisitItem| 0 <= p < cv.len() ==> (#[trigger] pred_edges@[p]@.contains(y) <==> (y is Edge
                && (y->Edge_0 as int) < cv.len() && (y->Edge_1 as int) < cv[y->Edge_0 as int].len()
                && cv[y->Edge_0 as int][y->Edge_1 as int].0 == p)),
            forall|x: int, y: VisitItem|
                0 <= x < b ==> (#[trigger] block_deps@[x]@.contains(y) <==> depends_on(nodes@, cv, VisitItem::Block(x as usize), y)),
            forall|x: int| 0 <= x < b ==> (#[trigger] edge_deps@[x])@.len() == cv[x].len(),
            forall|x: int, k: int, y: VisitItem|
                0 <= x < b && 0 <= k < cv[x].len() ==> (#[trigger] edge_deps@[x]@[k]@.contains(y)
                    <==> depends_on(nodes@, cv, VisitItem::Edge(x as usize, k as usize), y)),
        decreases cv.len() - b,
    {
        let mut l: Vec<VisitItem> = Vec::new();
        if b == 0 {
            l = consts.clone();
        }
        let mut i: usize = 0;
        let ghost l0 = l@;
        proof {
            assert(b == 0 ==> l@ == consts@);
        }
        while i < pred_edges[b].len()
            invariant
                b < pred_edges@.len(),
                i <= pred_edges@[b as int]@.len(),
                l@ == l0 + pred_edges@[b as int]@.subrange(0, i as int),
            decreases pred_edges@[b as int]@.len() - i,
        {
            l.push(pred_edges[b][i]);
            i = i + 1;
            proof {
                assert(l@ =~= l0 + pred_edges@[b as int]@.subrange(0, i as int));
            }
        }
        proof {
            assert(pred_edges@[b as int]@.subrange(0, pred_edges@[b as int]@.len() as int) =~= pred_edges@[b as int]@);
            lemma_concat_contains(l0, pred_edges@[b as int]@);
            assert forall|y: VisitItem| #[trigger] l@.contains(y) <==> depends_on(nodes@, cv, VisitItem::Block(b), y) by {
                if b != 0 {
                    assert(!l0.contains(y));
                }
            }
        }
        block_deps.push(l);
        let mut row: Vec<Vec<VisitItem>> = Vec::new();
        let mut k: usize = 0;
        while k < cfg[b].len()
            invariant
                cv == cfg_view(cfg),
                cv.len() == cfg@.len(),
                b < cv.len(),
                k <= cv[b as int].len(),
                phis@.len() == cv.len(),
                row@.len() == k,
                nodes_wf(nodes@, cv),
                forall|x: int, y: VisitItem| 0 <= x < cv.len() ==> (#[trigger] phis@[x]@.contains(y) <==> (y is Node
                    && (y->Node_0 as int) < nodes@.len() && nodes@[y->Node_0 as int].0 is Phi && nodes@[y->Node_0 as int].0->Phi_0 == x)),
                forall|kk: int, y: VisitItem|
                    0 <= kk < k ==> (#[trigger] row@[kk]@.contains(y) <==> depends_on(
                        nodes@,
                        cv,
                        VisitItem::Edge(b, kk as usize),
                        y,
                    )),
            decreases cv[b as int].len() - k,
        {
            let mut e: Vec<VisitItem> = Vec::new();
            if !cfg[b][k].2 {
                e = phis[b].clone();
                let ghost e0 = e@;
                e.push(VisitItem::Block(b));
                proof {
                    assert(e0 == phis@[b as int]@);
                    lemma_push_contains(e0, VisitItem::Block(b));
                }
            }
            proof {
                assert forall|y: VisitItem| #[trigger] e@.contains(y) <==> depends_on(nodes@, cv, VisitItem::Edge(b, k), y) by {
                    if y is Node && depends_on(nodes@, cv, VisitItem::Edge(b, k), y) {
                        assert(phis@[b as int]@.contains(y));
                    }
                }
            }
            row.push(e);
            k = k + 1;
        }
        edge_deps.push(row);
        b = b + 1;
    }
    let d = Dependents { nodes, class_deps, block_deps, edge_deps };
    proof {
        assert forall|x: VisitItem, y: VisitItem| item_valid(d.nodes@.len(), cv, x) implies (
        #[trigger] d.deps_of(x).contains(y) <==> depends_on(d.nodes@, cv, x, y)) by {
            match x {
                VisitItem::Node(i) => {
                    let c = d.nodes@[i as int].1;
                    assert((c as int) < n);
                    assert(d.class_deps@[c as int]@.contains(y) <==> (item_valid(d.nodes@.len(), cv, y) && match y {
                        VisitItem::Node(j) => reads_class(d.nodes@[j as int].0, c, cv),
                        VisitItem::Edge(b, k) => cv[b as int][k as int].1 == c,
                        VisitItem::Block(_) => false,
                    }));
                },
                VisitItem::Block(b) => {
                    assert(d.block_deps@[b as int]@.contains(y) <==> depends_on(d.nodes@, cv, VisitItem::Block((b as int) as usize), y));
                },
                VisitItem::Edge(b, k) => {
                    assert(d.edge_deps@[b as int]@[k as int]@.contains(y) <==> depends_on(d.nodes@, cv, VisitItem::Edge((b as int) as usize, (k as int) as usize), y));
                },
            }
        }
        assert forall|i: int| 0 <= i < d.nodes@.len() implies (#[trigger] d.nodes@[i].1 as int) < d.class_deps@.len() by {
            assert(ssa.nodes().contains_key(d.nodes@[i].0));
        }
    }
    d
}

/// Counts gathered while an analysis runs: the size of the graph, the
/// number of loop heads, and how many items each inner fixpoint visited.
#[derive(Debug, Clone)]
pub struct AnalysisStatistics {
    pub num_nodes: usize,
    pub num_blocks: usize,
    pub num_edges: usize,
    pub num_component_heads: usize,
    pub num_loop_visits: Vec<usize>,
}

impl AnalysisStatistics {
    /// Statistics of a graph of the given size, with no visits recorded yet.
    pub fn new(num_nodes: usize, num_blocks: usize, num_edges: usize, num_component_heads: usize) -> (r: Self)
        ensures
            r.num_nodes == num_nodes,
            r.num_blocks == num_blocks,
            r.num_edges == num_edges,
            r.num_component_heads == num_component_heads,
            r.num_loop_visits@ == Seq::<usize>::empty(),
    {
        AnalysisStatistics { num_nodes, num_blocks, num_edges, num_component_heads, num_loop_visits: Vec::new() }
    }
}

/// The results of an analysis: for every block and every edge (by block and
/// position of the predecessor) whether it is unreachable, for every class
/// its interval, and the union-find of global value numbering. An entry is
/// `None` until the worklist first visits it. `values` is the table of value
/// numbers keyed by a value's kind and the numbers of its operands.
pub struct Analyses {
    pub unreachable_blocks: Vec<Option<bool>>,
    pub unreachable_edges: Vec<Vec<Option<bool>>>,
    pub intervals: Vec<Option<Interval>>,
    pub value_number_uf: UnionFind,
    pub values: NodeTable,
}

/// Whether the interval holds nothing but zero.
pub open spec fn zero_only(i: Interval) -> bool {
    i.is_empty() || (i.low == 0 && i.high == 0)
}

/// What an earlier round recorded for the edge at position `k` into block
/// `b`: unreachable unless it recorded the edge as reachable. With no
/// earlier round every back edge is taken to be unreachable.
pub open spec fn prev_edge(prev: Option<&Analyses>, b: int, k: int) -> bool {
    match prev {
        Some(o) => if 0 <= b < o.unreachable_edges@.len() && 0 <= k < o.unreachable_edges@[b]@.len() {
            o.unreachable_edges@[b]@[k] != Some(false)
        } else {
            true
        },
        None => true,
    }
}

/// The interval an earlier round recorded for class `id`; empty where it
/// recorded none, and with no earlier round.
pub open spec fn prev_interval(prev: Option<&Analyses>, id: int) -> Interval {
    match prev {
        Some(o) => if 0 <= id < o.intervals@.len() {
            match o.intervals@[id] {
                Some(i) => i,
                None => empty_interval(),
            }
        } else {
            empty_interval()
        },
        None => empty_interval(),
    }
}

/// The earlier round is usable: its union-find is well formed and its
/// intervals are.
pub open spec fn prev_ok(prev: Option<&Analyses>) -> bool {
    match prev {
        Some(o) => o.value_number_uf.wf() && forall|i: int|
            0 <= i < o.intervals@.len() && (#[trigger] o.intervals@[i]) is Some ==> o.intervals@[i]->0.wf(),
        None => true,
    }
}

/// Every node of the list is a well-formed value of an existing class.
pub open spec fn nodes_in(nodes: Seq<(SSAValue, ClassId)>, num_ids: nat, cfg: Seq<Seq<Pred>>) -> bool {
    forall|j: int|
        0 <= j < nodes.len() ==> value_wf((#[trigger] nodes[j]).0, num_ids, cfg) && (nodes[j].1 as int) < num_ids
}

/// One visit of the worklist: its first item is taken off `w0` and
/// recomputed from `a0`, giving the state `a1` and the worklist `w1`, which
/// has the item's dependents appended where the item changed. A node's
/// interval is narrowed by what its value gives and the node is
/// value-numbered; a block's or an edge's reachability is recomputed.
pub open spec fn visit_step(
    a0: Analyses,
    w0: Seq<VisitItem>,
    a1: Analyses,
    w1: Seq<VisitItem>,
    prev: Option<&Analyses>,
    cfg: Seq<Seq<Pred>>,
    d: Dependents,
) -> bool {
    &&& w0.len() > 0
    &&& match w0[0] {
        VisitItem::Node(i) => {
            let value = d.nodes@[i as int].0;
            let id = d.nodes@[i as int].1;
            let old_iv = a0.intervals@[id as int];
            let iv = a0.interval_transfer_spec(prev, cfg, value, id).meet_spec(
                match old_iv {
                    Some(x) => x,
                    None => full_interval(),
                },
            );
            let k = a0.gvn_key(prev, cfg, value);
            let t = table_contents(a0.values);
            let vn1 = if t.contains_key(k) {
                union_spec(a0.value_number_uf@, id as int, t[k] as int)
            } else {
                a0.value_number_uf@
            };
            let number = if t.contains_key(k) {
                vn1[id as int]
            } else {
                id
            };
            let changed = match old_iv {
                Some(x) => !(x.low == iv.low && x.high == iv.high),
                None => true,
            };
            &&& a1.intervals@ == a0.intervals@.update(id as int, Some(iv))
            &&& a1.unreachable_blocks == a0.unreachable_blocks
            &&& a1.unreachable_edges == a0.unreachable_edges
            &&& a1.value_number_uf@ == vn1
            &&& table_contents(a1.values) == t.insert(k, number)
            &&& w1 == if changed || a0.value_number_uf@[id as int] != number {
                w0.drop_first() + d.class_deps@[id as int]@
            } else {
                w0.drop_first()
            }
        },
        VisitItem::Block(b) => {
            let u = a0.block_transfer_spec(prev, cfg, b as int);
            &&& a1.intervals == a0.intervals
            &&& a1.unreachable_blocks@ == a0.unreachable_blocks@.update(b as int, Some(u))
            &&& a1.unreachable_edges == a0.unreachable_edges
            &&& a1.value_number_uf@ == a0.value_number_uf@
            &&& a1.values == a0.values
            &&& w1 == if a0.unreachable_blocks@[b as int] != Some(u) {
                w0.drop_first() + d.block_deps@[b as int]@
            } else {
                w0.drop_first()
            }
        },
        VisitItem::Edge(b, k) => {
            let u = a0.edge_transfer_spec(prev, cfg, b as int, k as int);
            &&& a1.intervals == a0.intervals
            &&& a1.unreachable_blocks == a0.unreachable_blocks
            &&& a1.unreachable_edges@.len() == a0.unreachable_edges@.len()
            &&& forall|b2: int| 0 <= b2 < a0.unreachable_edges@.len() && b2 != b ==> #[trigger] a1.unreachable_edges@[b2] == a0.unreachable_edges@[b2]
            &&& a1.unreachable_edges@[b as int]@ == a0.unreachable_edges@[b as int]@.update(k as int, Some(u))
            &&& a1.value_number_uf@ == a0.value_number_uf@
            &&& a1.values == a0.values
            &&& w1 == if a0.unreachable_edges@[b as int]@[k as int] != Some(u) {
                w0.drop_first() + d.edge_deps@[b as int]@[k as int]@
            } else {
                w0.drop_first()
            }
        },
    }
}

/// Step `i` of a run of the worklist.
#[verifier::opaque]
pub open spec fn step_at(tr: Seq<(Analyses, Seq<VisitItem>)>, i: int, prev: Option<&Analyses>, cfg: Seq<Seq<Pred>>, d: Dependents) -> bool {
    visit_step(tr[i].0, tr[i].1, tr[i + 1].0, tr[i + 1].1, prev, cfg, d)
}

/// A run of the worklist: each state and worklist follows from the one
/// before by one visit.
pub open spec fn visit_run(tr: Seq<(Analyses, Seq<VisitItem>)>, prev: Option<&Analyses>, cfg: Seq<Seq<Pred>>, d: Dependents) -> bool {
    forall|i: int| 0 <= i < tr.len() - 1 ==> #[trigger] step_at(tr, i, prev, cfg, d)
}

/// The state the worklist starts from: `a0` with no block or edge computed
/// yet, shaped after `cfg`.
pub open spec fn start_state(a0: Analyses, a: Analyses, cfg: Seq<Seq<Pred>>) -> bool {
    &&& a.intervals == a0.intervals
    &&& a.value_number_uf == a0.value_number_uf
    &&& a.values == a0.values
    &&& a.unreachable_blocks@ == Seq::new(cfg.len(), |b: int| None::<bool>)
    &&& a.unreachable_edges@.len() == cfg.len()
    &&& forall|b: int| 0 <= b < cfg.len() ==> (#[trigger] a.unreachable_edges@[b])@ == Seq::new(cfg[b].len(), |k: int| None::<bool>)
}

/// The worklist invariant: every node whose inputs have been computed, every
/// visited block and every visited edge is queued or consistent.
pub open spec fn worklist_inv(
    a: Analyses,
    prev: Option<&Analyses>,
    cfg: Seq<Seq<Pred>>,
    nodes: Seq<(SSAValue, ClassId)>,
    wl: Seq<VisitItem>,
) -> bool {
    &&& forall|j: usize|
        (j as int) < nodes.len() && a.inputs_present(cfg, (#[trigger] nodes[j as int]).0) ==> wl.contains(
            VisitItem::Node(j),
        ) || a.node_consistent(prev, cfg, nodes[j as int].0, nodes[j as int].1)
    &&& forall|b: usize|
        (b as int) < cfg.len() && (#[trigger] a.unreachable_blocks@[b as int]) is Some ==> wl.contains(
            VisitItem::Block(b),
        ) || a.unreachable_blocks@[b as int] == Some(a.block_transfer_spec(prev, cfg, b as int))
    &&& forall|b: usize, k: usize|
        (b as int) < cfg.len() && (k as int) < cfg[b as int].len() && (#[trigger] a.unreachable_edges@[b as int]@[k as int]) is Some
            ==> wl.contains(VisitItem::Edge(b, k)) || a.unreachable_edges@[b as int]@[k as int] == Some(
            a.edge_transfer_spec(prev, cfg, b as int, k as int),
        )
}

/// An operand that a value reads is a class that exists.
proof fn lemma_reads_in_range(v: SSAValue, c: ClassId, n: nat, cfg: Seq<Seq<Pred>>)
    requires
        reads_class(v, c, cfg),
        value_wf(v, n, cfg),
    ensures
        (c as int) < n,
{
    match v {
        SSAValue::Phi(_, l, r) => {
            assert(uses_of(v)[0] == l && uses_of(v)[1] == r);
        },
        SSAValue::Unary(_, x) => {
            assert(uses_of(v)[0] == x);
        },
        SSAValue::Binary(_, l, r) => {
            assert(uses_of(v)[0] == l && uses_of(v)[1] == r);
        },
        _ => {},
    }
}

proof fn lemma_drop_first_contains(s: Seq<VisitItem>, y: VisitItem)
    requires
        s.len() > 0,
        s.contains(y),
        s[0] != y,
    ensures
        s.subrange(1, s.len() as int).contains(y),
{
    let i = choose|i: int| 0 <= i < s.len() && s[i] == y;
    assert(s.subrange(1, s.len() as int)[i - 1] == y);
}

/// What the interval of a value reads and whether it has all its inputs
/// depends only on the classes it reads, its forward edges and the entry
/// block.
proof fn lemma_transfer_frame(
    a0: Analyses,
    a1: Analyses,
    prev: Option<&Analyses>,
    cfg: Seq<Seq<Pred>>,
    v: SSAValue,
    id: ClassId,
)
    requires
        v is Constant || v is Param ==> a0.unreachable_blocks@[0] == a1.unreachable_blocks@[0],
        forall|c: ClassId| reads_class(v, c, cfg) ==> a0.intervals@[c as int] == a1.intervals@[c as int],
        v is Phi ==> {
            let b = v->Phi_0 as int;
            &&& !cfg[b][0].2 ==> a0.unreachable_edges@[b]@[0] == a1.unreachable_edges@[b]@[0]
            &&& !cfg[b][1].2 ==> a0.unreachable_edges@[b]@[1] == a1.unreachable_edges@[b]@[1]
        },
    ensures
        a0.interval_transfer_spec(prev, cfg, v, id) == a1.interval_transfer_spec(prev, cfg, v, id),
        a0.inputs_present(cfg, v) == a1.inputs_present(cfg, v),
{
    match v {
        SSAValue::Phi(b, l, r) => {
            if !cfg[b as int][0].2 {
                assert(reads_class(v, l, cfg));
            }
            if !cfg[b as int][1].2 {
                assert(reads_class(v, r, cfg));
            }
        },
        SSAValue::Unary(_, x) => {
            assert(reads_class(v, x, cfg));
        },
        SSAValue::Binary(_, l, r) => {
            assert(reads_class(v, l, cfg));
            assert(reads_class(v, r, cfg));
        },
        _ => {},
    }
}

/// Visiting a node keeps the worklist invariant.
proof fn lemma_node_step(
    a0: Analyses,
    a1: Analyses,
    prev: Option<&Analyses>,
    cfg: Seq<Seq<Pred>>,
    d: Dependents,
    w0: Seq<VisitItem>,
    w2: Seq<VisitItem>,
    i: usize,
    new_iv: Interval,
    changed: bool,
)
    requires
        d.wf(cfg),
        a0.shaped(cfg),
        (i as int) < d.nodes@.len(),
        nodes_in(d.nodes@, a0.intervals@.len(), cfg),
        cfg_wf(cfg, a0.intervals@.len()),
        w0.len() > 0,
        w0[0] == VisitItem::Node(i),
        worklist_inv(a0, prev, cfg, d.nodes@, w0),
        a1.unreachable_blocks@ == a0.unreachable_blocks@,
        a1.unreachable_edges@ == a0.unreachable_edges@,
        a1.intervals@ == a0.intervals@.update(d.nodes@[i as int].1 as int, Some(new_iv)),
        new_iv.subset_of(a0.interval_transfer_spec(prev, cfg, d.nodes@[i as int].0, d.nodes@[i as int].1)),
        a0.intervals@[d.nodes@[i as int].1 as int] is Some ==> new_iv.subset_of(a0.intervals@[d.nodes@[i as int].1 as int]->0),
        changed == (a0.intervals@[d.nodes@[i as int].1 as int] != Some(new_iv)),
        forall|y: VisitItem| w0.subrange(1, w0.len() as int).contains(y) ==> #[trigger] w2.contains(y),
        changed ==> forall|y: VisitItem| d.deps_of(VisitItem::Node(i)).contains(y) ==> #[trigger] w2.contains(y),
    ensures
        worklist_inv(a1, prev, cfg, d.nodes@, w2),
{
    let nodes = d.nodes@;
    let n = a0.intervals@.len();
    let id = nodes[i as int].1;
    let x = VisitItem::Node(i);
    assert(item_valid(nodes.len(), cfg, x));
    assert forall|j: usize|
        (j as int) < nodes.len() && a1.inputs_present(cfg, (#[trigger] nodes[j as int]).0) implies w2.contains(
        VisitItem::Node(j)) || a1.node_consistent(prev, cfg, nodes[j as int].0, nodes[j as int].1) by {
        let vj = nodes[j as int].0;
        let y = VisitItem::Node(j);
        assert(value_wf(vj, n, cfg));
        if changed && reads_class(vj, id, cfg) {
            assert(depends_on(nodes, cfg, x, y));
            assert(d.deps_of(x).contains(y));
        } else {
            assert forall|c: ClassId| reads_class(vj, c, cfg) implies a0.intervals@[c as int] == a1.intervals@[c as int] by {
                lemma_reads_in_range(vj, c, n, cfg);
            }
            lemma_transfer_frame(a0, a1, prev, cfg, vj, nodes[j as int].1);
            if j == i {
                assert(a1.intervals@[id as int] == Some(new_iv));
            } else if w0.contains(y) {
                lemma_drop_first_contains(w0, y);
            } else {
                assert(a0.node_consistent(prev, cfg, vj, nodes[j as int].1));
                if nodes[j as int].1 == id {
                    let t = a0.interval_transfer_spec(prev, cfg, vj, nodes[j as int].1);
                    assert forall|z: int| new_iv.contains(z) implies t.contains(z) by {
                        assert(a0.intervals@[id as int]->0.contains(z));
                    }
                }
            }
        }
    }
    assert forall|b: usize|
        (b as int) < cfg.len() && (#[trigger] a1.unreachable_blocks@[b as int]) is Some implies w2.contains(
        VisitItem::Block(b)) || a1.unreachable_blocks@[b as int] == Some(a1.block_transfer_spec(prev, cfg, b as int)) by {
        let y = VisitItem::Block(b);
        assert(forall|k: int| a0.edge_read(prev, cfg, b as int, k) == a1.edge_read(prev, cfg, b as int, k));
        assert(a0.block_transfer_spec(prev, cfg, b as int) == a1.block_transfer_spec(prev, cfg, b as int));
        if w0.contains(y) {
            lemma_drop_first_contains(w0, y);
        }
    }
    assert forall|b: usize, k: usize|
        (b as int) < cfg.len() && (k as int) < cfg[b as int].len() && (#[trigger] a1.unreachable_edges@[b as int]@[k as int]) is Some implies w2.contains(
        VisitItem::Edge(b, k)) || a1.unreachable_edges@[b as int]@[k as int] == Some(a1.edge_transfer_spec(prev, cfg, b as int, k as int)) by {
        let y = VisitItem::Edge(b, k);
        assert((cfg[b as int][k as int].0 as int) < cfg.len());
        if changed && cfg[b as int][k as int].1 == id {
            assert(depends_on(nodes, cfg, x, y));
            assert(d.deps_of(x).contains(y));
        } else {
            assert(a0.edge_transfer_spec(prev, cfg, b as int, k as int) == a1.edge_transfer_spec(prev, cfg, b as int, k as int));
            if w0.contains(y) {
                lemma_drop_first_contains(w0, y);
            }
        }
    }
}

/// Visiting a block keeps the worklist invariant.
proof fn lemma_block_step(
    a0: Analyses,
    a1: Analyses,
    prev: Option<&Analyses>,
    cfg: Seq<Seq<Pred>>,
    d: Dependents,
    w0: Seq<VisitItem>,
    w2: Seq<VisitItem>,
    b: usize,
    changed: bool,
)
    requires
        d.wf(cfg),
        a0.shaped(cfg),
        (b as int) < cfg.len(),
        nodes_in(d.nodes@, a0.intervals@.len(), cfg),
        cfg_wf(cfg, a0.intervals@.len()),
        w0.len() > 0,
        w0[0] == VisitItem::Block(b),
        worklist_inv(a0, prev, cfg, d.nodes@, w0),
        a1.intervals@ == a0.intervals@,
        a1.unreachable_edges@ == a0.unreachable_edges@,
        a1.unreachable_blocks@ == a0.unreachable_blocks@.update(b as int, Some(a0.block_transfer_spec(prev, cfg, b as int))),
        changed == (a0.unreachable_blocks@[b as int] != Some(a0.block_transfer_spec(prev, cfg, b as int))),
        forall|y: VisitItem| w0.subrange(1, w0.len() as int).contains(y) ==> #[trigger] w2.contains(y),
        changed ==> forall|y: VisitItem| d.deps_of(VisitItem::Block(b)).contains(y) ==> #[trigger] w2.contains(y),
    ensures
        worklist_inv(a1, prev, cfg, d.nodes@, w2),
{
    let nodes = d.nodes@;
    let x = VisitItem::Block(b);
    assert(item_valid(nodes.len(), cfg, x));
    assert forall|j: usize|
        (j as int) < nodes.len() && a1.inputs_present(cfg, (#[trigger] nodes[j as int]).0) implies w2.contains(
        VisitItem::Node(j)) || a1.node_consistent(prev, cfg, nodes[j as int].0, nodes[j as int].1) by {
        let vj = nodes[j as int].0;
        let y = VisitItem::Node(j);
        if changed && b == 0 && (vj is Constant || vj is Param) {
            assert(depends_on(nodes, cfg, x, y));
            assert(d.deps_of(x).contains(y));
        } else {
            lemma_transfer_frame(a0, a1, prev, cfg, vj, nodes[j as int].1);
            if w0.contains(y) {
                lemma_drop_first_contains(w0, y);
            }
        }
    }
    assert forall|b2: usize|
        (b2 as int) < cfg.len() && (#[trigger] a1.unreachable_blocks@[b2 as int]) is Some implies w2.contains(
        VisitItem::Block(b2)) || a1.unreachable_blocks@[b2 as int] == Some(a1.block_transfer_spec(prev, cfg, b2 as int)) by {
        let y = VisitItem::Block(b2);
        assert(forall|k: int| a0.edge_read(prev, cfg, b2 as int, k) == a1.edge_read(prev, cfg, b2 as int, k));
        assert(a0.block_transfer_spec(prev, cfg, b2 as int) == a1.block_transfer_spec(prev, cfg, b2 as int));
        if b2 != b && w0.contains(y) {
            lemma_drop_first_contains(w0, y);
        }
    }
    assert forall|b2: usize, k: usize|
        (b2 as int) < cfg.len() && (k as int) < cfg[b2 as int].len() && (#[trigger] a1.unreachable_edges@[b2 as int]@[k as int]) is Some implies w2.contains(
        VisitItem::Edge(b2, k)) || a1.unreachable_edges@[b2 as int]@[k as int] == Some(a1.edge_transfer_spec(prev, cfg, b2 as int, k as int)) by {
        let y = VisitItem::Edge(b2, k);
        assert((cfg[b2 as int][k as int].0 as int) < cfg.len());
        if changed && cfg[b2 as int][k as int].0 == b {
            assert(depends_on(nodes, cfg, x, y));
            assert(d.deps_of(x).contains(y));
        } else {
            assert(a0.edge_transfer_spec(prev, cfg, b2 as int, k as int) == a1.edge_transfer_spec(prev, cfg, b2 as int, k as int));
            if w0.contains(y) {
                lemma_drop_first_contains(w0, y);
            }
        }
    }
}

/// Visiting an edge keeps the worklist invariant.
proof fn lemma_edge_step(
    a0: Analyses,
    a1: Analyses,
    prev: Option<&Analyses>,
    cfg: Seq<Seq<Pred>>,
    d: Dependents,
    w0: Seq<VisitItem>,
    w2: Seq<VisitItem>,
    b: usize,
    k: usize,
    changed: bool,
)
    requires
        d.wf(cfg),
        a0.shaped(cfg),
        (b as int) < cfg.len(),
        (k as int) < cfg[b as int].len(),
        nodes_in(d.nodes@, a0.intervals@.len(), cfg),
        cfg_wf(cfg, a0.intervals@.len()),
        w0.len() > 0,
        w0[0] == VisitItem::Edge(b, k),
        worklist_inv(a0, prev, cfg, d.nodes@, w0),
        a1.intervals@ == a0.intervals@,
        a1.unreachable_blocks@ == a0.unreachable_blocks@,
        a1.unreachable_edges@.len() == a0.unreachable_edges@.len(),
        forall|b2: int| 0 <= b2 < cfg.len() && b2 != b ==> #[trigger] a1.unreachable_edges@[b2]@ == a0.unreachable_edges@[b2]@,
        a1.unreachable_edges@[b as int]@ == a0.unreachable_edges@[b as int]@.update(k as int, Some(a0.edge_transfer_spec(prev, cfg, b as int, k as int))),
        changed == (a0.unreachable_edges@[b as int]@[k as int] != Some(a0.edge_transfer_spec(prev, cfg, b as int, k as int))),
        forall|y: VisitItem| w0.subrange(1, w0.len() as int).contains(y) ==> #[trigger] w2.contains(y),
        changed ==> forall|y: VisitItem| d.deps_of(VisitItem::Edge(b, k)).contains(y) ==> #[trigger] w2.contains(y),
    ensures
        worklist_inv(a1, prev, cfg, d.nodes@, w2),
{
    let nodes = d.nodes@;
    let x = VisitItem::Edge(b, k);
    assert(item_valid(nodes.len(), cfg, x));
    assert forall|j: usize|
        (j as int) < nodes.len() && a1.inputs_present(cfg, (#[trigger] nodes[j as int]).0) implies w2.contains(
        VisitItem::Node(j)) || a1.node_consistent(prev, cfg, nodes[j as int].0, nodes[j as int].1) by {
        let vj = nodes[j as int].0;
        let y = VisitItem::Node(j);
        if changed && vj is Phi && vj->Phi_0 == b && !cfg[b as int][k as int].2 {
            assert(depends_on(nodes, cfg, x, y));
            assert(d.deps_of(x).contains(y));
        } else {
            if vj is Phi {
                assert(value_wf(vj, a0.intervals@.len(), cfg));
            }
            lemma_transfer_frame(a0, a1, prev, cfg, vj, nodes[j as int].1);
            if w0.contains(y) {
                lemma_drop_first_contains(w0, y);
            }
        }
    }
    assert forall|b2: usize|
        (b2 as int) < cfg.len() && (#[trigger] a1.unreachable_blocks@[b2 as int]) is Some implies w2.contains(
        VisitItem::Block(b2)) || a1.unreachable_blocks@[b2 as int] == Some(a1.block_transfer_spec(prev, cfg, b2 as int)) by {
        let y = VisitItem::Block(b2);
        if changed && b2 == b && !cfg[b as int][k as int].2 {
            assert(depends_on(nodes, cfg, x, y));
            assert(d.deps_of(x).contains(y));
        } else {
            assert(forall|k2: int| 0 <= k2 < cfg[b2 as int].len() ==> a0.edge_read(prev, cfg, b2 as int, k2) == a1.edge_read(prev, cfg, b2 as int, k2));
            assert(a0.block_transfer_spec(prev, cfg, b2 as int) == a1.block_transfer_spec(prev, cfg, b2 as int));
            if w0.contains(y) {
                lemma_drop_first_contains(w0, y);
            }
        }
    }
    assert forall|b2: usize, k2: usize|
        (b2 as int) < cfg.len() && (k2 as int) < cfg[b2 as int].len() && (#[trigger] a1.unreachable_edges@[b2 as int]@[k2 as int]) is Some implies w2.contains(
        VisitItem::Edge(b2, k2)) || a1.unreachable_edges@[b2 as int]@[k2 as int] == Some(a1.edge_transfer_spec(prev, cfg, b2 as int, k2 as int)) by {
        let y = VisitItem::Edge(b2, k2);
        assert(a0.edge_transfer_spec(prev, cfg, b2 as int, k2 as int) == a1.edge_transfer_spec(prev, cfg, b2 as int, k2 as int));
        if !(b2 == b && k2 == k) && w0.contains(y) {
            lemma_drop_first_contains(w0, y);
        }
    }
}

/// One visit keeps the dependents of computed items computed or queued:
/// items computed before stay computed, the visited item is computed, and
/// an item computed for the first time has its dependents queued.
proof fn lemma_closed_step(
    a0: Analyses,
    a1: Analyses,
    cfg: Seq<Seq<Pred>>,
    d: Dependents,
    w0: Seq<VisitItem>,
    w2: Seq<VisitItem>,
)
    requires
        w0.len() > 0,
        a0.closed_upto(d, cfg, w0),
        forall|x: VisitItem|
            item_valid(d.nodes@.len(), cfg, x) && #[trigger] a0.entry_set(d.nodes@, x) ==> a1.entry_set(d.nodes@, x),
        forall|x: VisitItem, y: VisitItem|
            item_valid(d.nodes@.len(), cfg, x) && #[trigger] d.deps_of(x).contains(y) ==> item_valid(d.nodes@.len(), cfg, y),
        item_valid(d.nodes@.len(), cfg, w0[0]),
        a1.entry_set(d.nodes@, w0[0]),
        forall|y: VisitItem| w0.subrange(1, w0.len() as int).contains(y) ==> #[trigger] w2.contains(y),
        forall|x: VisitItem, y: VisitItem|
            item_valid(d.nodes@.len(), cfg, x) && #[trigger] a1.entry_set(d.nodes@, x) && !a0.entry_set(d.nodes@, x)
                && #[trigger] d.deps_of(x).contains(y) ==> w2.contains(y),
    ensures
        a1.closed_upto(d, cfg, w2),
{
    assert forall|x: VisitItem, y: VisitItem|
        item_valid(d.nodes@.len(), cfg, x) && #[trigger] a1.entry_set(d.nodes@, x) && #[trigger] d.deps_of(x).contains(y)
            implies w2.contains(y) || a1.entry_set(d.nodes@, y) by {
        if a0.entry_set(d.nodes@, x) {
            if w0.contains(y) {
                let i = choose|i: int| 0 <= i < w0.len() && w0[i] == y;
                if i > 0 {
                    assert(w0.subrange(1, w0.len() as int)[i - 1] == y);
                    assert(w0.subrange(1, w0.len() as int).contains(y));
                }
            } else {
                assert(a0.entry_set(d.nodes@, y));
            }
        }
    }
}

/// A worklist run that ended closed is closed over the dependency graph.
proof fn lemma_closed_over(a: Analyses, d: Dependents, cfg: Seq<Seq<Pred>>)
    requires
        d.wf(cfg),
        a.closed_upto(d, cfg, Seq::empty()),
    ensures
        a.closed_over(d.nodes@, cfg),
{
    assert forall|x: VisitItem, y: VisitItem|
        #[trigger] depends_on(d.nodes@, cfg, x, y) && #[trigger] a.entry_set(d.nodes@, x) implies a.entry_set(d.nodes@, y) by {
        assert(d.deps_of(x).contains(y));
    }
}

/// The node list holds the graph's values with their classes, and all of
/// them.
pub open spec fn lists_nodes(list: Seq<(SSAValue, ClassId)>, nodes: Map<SSAValue, ClassId>) -> bool {
    &&& forall|i: int| 0 <= i < list.len() ==> nodes.contains_key(#[trigger] list[i].0) && nodes[list[i].0] == list[i].1
    &&& forall|v: SSAValue| #[trigger] nodes.contains_key(v) ==> exists|i: int| 0 <= i < list.len() && #[trigger] list[i].0 == v
}

proof fn lemma_concat_contains(a: Seq<VisitItem>, b: Seq<VisitItem>)
    ensures
        forall|y: VisitItem| #[trigger] (a + b).contains(y) <==> (a.contains(y) || b.contains(y)),
{
    assert forall|y: VisitItem| #[trigger] (a + b).contains(y) implies (a.contains(y) || b.contains(y)) by {
        let i = choose|i: int| 0 <= i < (a + b).len() && (a + b)[i] == y;
        if i < a.len() {
            assert(a[i] == y);
        } else {
            assert(b[i - a.len()] == y);
        }
    }
    assert forall|y: VisitItem| (a.contains(y) || b.contains(y)) implies #[trigger] (a + b).contains(y) by {
        if a.contains(y) {
            let i = choose|i: int| 0 <= i < a.len() && a[i] == y;
            assert((a + b)[i] == y);
        } else {
            let i = choose|i: int| 0 <= i < b.len() && b[i] == y;
            assert((a + b)[a.len() + i] == y);
        }
    }
}

/// Appends `items` to the back of the worklist.
fn push_all(worklist: &mut VecDeque<VisitItem>, items: &Vec<VisitItem>)
    ensures
        final(worklist)@ == old(worklist)@ + items@,
{
    let mut i: usize = 0;
    while i < items.len()
        invariant
            i <= items@.len(),
            worklist@ == old(worklist)@ + items@.subrange(0, i as int),
        decreases items@.len() - i,
    {
        worklist.push_back(items[i]);
        i = i + 1;
        proof {
            assert(worklist@ =~= old(worklist)@ + items@.subrange(0, i as int));
        }
    }
    proof {
        assert(items@.subrange(0, items@.len() as int) =~= items@);
    }
}

/// Records `x` for the edge at position `k` into block `b`.
fn set_edge(edges: &mut Vec<Vec<Option<bool>>>, b: usize, k: usize, x: Option<bool>)
    requires
        b < old(edges)@.len(),
        k < old(edges)@[b as int]@.len(),
    ensures
        final(edges)@.len() == old(edges)@.len(),
        forall|b2: int| 0 <= b2 < old(edges)@.len() && b2 != b ==> #[trigger] final(edges)@[b2] == old(edges)@[b2],
        final(edges)@[b as int]@ == old(edges)@[b as int]@.update(k as int, x),
{
    let mut row: Vec<Option<bool>> = Vec::new();
    let mut j: usize = 0;
    while j < edges[b].len()
        invariant
            b < edges@.len(),
            k < edges@[b as int]@.len(),
            edges@ == old(edges)@,
            j <= edges@[b as int]@.len(),
            row@ == edges@[b as int]@.update(k as int, x).subrange(0, j as int),
        decreases edges@[b as int]@.len() - j,
    {
        let e = if j == k {
            x
        } else {
            edges[b][j]
        };
        row.push(e);
        j = j + 1;
        proof {
            assert(row@ =~= edges@[b as int]@.update(k as int, x).subrange(0, j as int));
        }
    }
    proof {
        assert(row@ =~= old(edges)@[b as int]@.update(k as int, x));
    }
    edges.set(b, row);
}

/// Whether some predecessor is along a back edge.
pub open spec fn has_back_edge(preds: Seq<Pred>) -> bool {
    exists|k: int| 0 <= k < preds.len() && (#[trigger] preds[k]).2
}

/// The number of edges into the first `b` blocks.
pub open spec fn edges_upto(cfg: Seq<Seq<Pred>>, b: int) -> nat
    decreases b,
{
    if b <= 0 {
        0
    } else {
        edges_upto(cfg, b - 1) + cfg[b - 1].len()
    }
}

/// The number of loop heads (blocks entered along a back edge) among the
/// first `b` blocks.
pub open spec fn heads_upto(cfg: Seq<Seq<Pred>>, b: int) -> nat
    decreases b,
{
    if b <= 0 {
        0
    } else {
        heads_upto(cfg, b - 1) + if has_back_edge(cfg[b - 1]) {
            1nat
        } else {
            0nat
        }
    }
}

/// The position of the first back edge among `preds`, if any.
fn first_back_edge(preds: &Vec<Pred>) -> (r: Option<usize>)
    ensures
        match r {
            Some(k) => (k as int) < preds@.len() && preds@[k as int].2 && forall|x: int| 0 <= x < k ==> !(#[trigger] preds@[x]).2,
            None => !has_back_edge(preds@),
        },
{
    let mut k: usize = 0;
    while k < preds.len()
        invariant
            k <= preds@.len(),
            forall|x: int| 0 <= x < k ==> !(#[trigger] preds@[x]).2,
        decreases preds@.len() - k,
    {
        if preds[k].2 {
            return Some(k);
        }
        k = k + 1;
    }
    None
}

/// The number of edges of `cfg`, saturating at `usize::MAX`.
fn count_edges(cfg: &CFG) -> (r: usize)
    ensures
        r == if edges_upto(cfg_view(cfg), cfg@.len() as int) > usize::MAX {
            usize::MAX as nat
        } else {
            edges_upto(cfg_view(cfg), cfg@.len() as int)
        },
{
    let ghost cv = cfg_view(cfg);
    let mut total: usize = 0;
    let mut b: usize = 0;
    while b < cfg.len()
        invariant
            cv == cfg_view(cfg),
            b <= cfg@.len(),
            total == if edges_upto(cv, b as int) > usize::MAX {
                usize::MAX as nat
            } else {
                edges_upto(cv, b as int)
            },
        decreases cfg@.len() - b,
    {
        total = total.saturating_add(cfg[b].len());
        b = b + 1;
    }
    total
}

/// The number of loop heads of `cfg`.
fn count_component_heads(cfg: &CFG) -> (r: usize)
    ensures
        r == heads_upto(cfg_view(cfg), cfg@.len() as int),
{
    let ghost cv = cfg_view(cfg);
    let mut count: usize = 0;
    let mut b: usize = 0;
    while b < cfg.len()
        invariant
            cv == cfg_view(cfg),
            b <= cfg@.len(),
            count == heads_upto(cv, b as int),
            count <= b,
        decreases cfg@.len() - b,
    {
        if first_back_edge(&cfg[b]).is_some() {
            count = count + 1;
        }
        b = b + 1;
    }
    count
}

/// The loop-head phis, where rounds of the optimistic analysis widen: every
/// phi of the graph whose block has a back edge, with its class, its block
/// and the position of the first back edge into the block.
fn widening_points(ssa: &SSAGraph, cfg: &CFG) -> (r: Vec<(ClassId, BlockId, usize)>)
    requires
        ssa.wf(cfg_view(cfg)),
    ensures
        forall|i: int| 0 <= i < r@.len() ==> is_widening_point(*ssa, cfg_view(cfg), #[trigger] r@[i]),
        forall|v: SSAValue|
            #[trigger] ssa.nodes().contains_key(v) && v is Phi && has_back_edge(cfg_view(cfg)[v->Phi_0 as int]) ==> exists|i: int|
                0 <= i < r@.len() && (#[trigger] r@[i]).0 == ssa.nodes()[v] && r@[i].1 == v->Phi_0,
{
    let ghost cv = cfg_view(cfg);
    let entries = ssa.value_entries();
    let mut r: Vec<(ClassId, BlockId, usize)> = Vec::new();
    let mut i: usize = 0;
    while i < entries.len()
        invariant
            cv == cfg_view(cfg),
            ssa.wf(cv),
            i <= entries@.len(),
            forall|x: int|
                0 <= x < entries@.len() ==> ssa.nodes().contains_key(#[trigger] entries@[x].0) && ssa.nodes()[entries@[x].0]
                    == entries@[x].1,
            forall|x: int| 0 <= x < r@.len() ==> is_widening_point(*ssa, cv, #[trigger] r@[x]),
            forall|x: int|
                0 <= x < i && (#[trigger] entries@[x]).0 is Phi && has_back_edge(cv[entries@[x].0->Phi_0 as int]) ==> exists|y: int|
                    0 <= y < r@.len() && (#[trigger] r@[y]).0 == entries@[x].1 && r@[y].1 == entries@[x].0->Phi_0,
        decreases entries@.len() - i,
    {
        let (value, id) = entries[i];
        proof {
            assert(ssa.nodes().contains_key(value));
        }
        match value.try_phi() {
            Some((block, _, _)) => {
                proof {
                    assert(value_wf(value, ssa.num_ids(), cv));
                }
                match first_back_edge(&cfg[block]) {
                    Some(k) => {
                        let ghost r0 = r@;
                        r.push((id, block, k));
                        proof {
                            assert(is_widening_point(*ssa, cv, (id, block, k)));
                            assert(r@[r0.len() as int] == (id, block, k));
                            assert forall|x: int|
                                0 <= x < i + 1 && (#[trigger] entries@[x]).0 is Phi && has_back_edge(cv[entries@[x].0->Phi_0 as int]) implies exists|y: int|
                                0 <= y < r@.len() && (#[trigger] r@[y]).0 == entries@[x].1 && r@[y].1 == entries@[x].0->Phi_0 by {
                                if x < i {
                                    let y = choose|y: int| 0 <= y < r0.len() && (#[trigger] r0[y]).0 == entries@[x].1 && r0[y].1 == entries@[x].0->Phi_0;
                                    assert(r@[y] == r0[y]);
                                }
                            }
                        }
                    },
                    None => {},
                }
            },
            None => {},
        }
        i = i + 1;
    }
    proof {
        assert forall|v: SSAValue|
            #[trigger] ssa.nodes().contains_key(v) && v is Phi && has_back_edge(cv[v->Phi_0 as int]) implies exists|y: int|
                0 <= y < r@.len() && (#[trigger] r@[y]).0 == ssa.nodes()[v] && r@[y].1 == v->Phi_0 by {
            let x = choose|x: int| 0 <= x < entries@.len() && #[trigger] entries@[x].0 == v;
        }
    }
    r
}

/// Whether `(id, b, k)` names a phi of the graph with class `id` in block
/// `b`, and `k` is the position of the first back edge into `b`.
pub open spec fn is_widening_point(ssa: SSAGraph, cfg: Seq<Seq<Pred>>, w: (ClassId, BlockId, usize)) -> bool {
    &&& (w.1 as int) < cfg.len()
    &&& (w.2 as int) < cfg[w.1 as int].len()
    &&& (w.0 as int) < ssa.num_ids()
    &&& cfg[w.1 as int][w.2 as int].2
    &&& forall|x: int| 0 <= x < w.2 ==> !(#[trigger] cfg[w.1 as int][x]).2
    &&& exists|v: SSAValue| #[trigger] ssa.nodes().contains_key(v) && v is Phi && v->Phi_0 == w.1 && ssa.nodes()[v] == w.0
}

/// Whether two recorded intervals are the same.
fn same_interval(a: Option<Interval>, b: Option<Interval>) -> (r: bool)
    ensures
        r == (a == b),
{
    match (a, b) {
        (Some(x), Some(y)) => x.low == y.low && x.high == y.high,
        (None, None) => true,
        _ => false,
    }
}

/// Whether two recorded reachabilities are the same.
fn same_flag(a: Option<bool>, b: Option<bool>) -> (r: bool)
    ensures
        r == (a == b),
{
    match (a, b) {
        (Some(x), Some(y)) => x == y,
        (None, None) => true,
        _ => false,
    }
}

impl Analyses {
    /// The number of classes the analysis records.
    pub open spec fn num_ids(self) -> nat {
        self.intervals@.len()
    }

    /// As `top` makes it: nothing recorded, every class its own number.
    pub open spec fn fresh(self, n: nat) -> bool {
        &&& self.intervals@ == Seq::new(n, |i: int| None::<Interval>)
        &&& self.unreachable_blocks@.len() == 0
        &&& self.unreachable_edges@.len() == 0
        &&& self.value_number_uf.wf()
        &&& self.value_number_uf@ == Seq::new(n, |i: int| i as ClassId)
        &&& table_contents(self.values) == Map::<NodeKey, usize>::empty()
    }

    /// Shaped after `cfg`, with one interval and one value number per class.
    pub open spec fn shaped(self, cfg: Seq<Seq<Pred>>) -> bool {
        &&& self.value_number_uf.wf()
        &&& self.value_number_uf@.len() == self.intervals@.len()
        &&& self.unreachable_blocks@.len() == cfg.len()
        &&& self.unreachable_edges@.len() == cfg.len()
        &&& forall|b: int| 0 <= b < cfg.len() ==> (#[trigger] self.unreachable_edges@[b])@.len() == cfg[b].len()
        &&& forall|i: int| 0 <= i < self.intervals@.len() && (#[trigger] self.intervals@[i]) is Some ==> self.intervals@[i]->0.wf()
    }

    /// The value numbers in the table name classes that exist.
    pub open spec fn table_ok(self) -> bool {
        forall|k: NodeKey|
            #[trigger] table_contents(self.values).contains_key(k) ==> (table_contents(self.values)[k] as int) < self.value_number_uf@.len()
    }

    /// Whether block `b` is recorded unreachable; a block not yet visited is not.
    pub open spec fn block_val(self, b: int) -> bool {
        self.unreachable_blocks@[b] == Some(true)
    }

    /// Whether the edge at position `k` into block `b` is recorded unreachable.
    pub open spec fn edge_val(self, b: int, k: int) -> bool {
        self.unreachable_edges@[b]@[k] == Some(true)
    }

    /// The interval of class `id`; the whole range where none is recorded.
    pub open spec fn interval_val(self, id: int) -> Interval {
        match self.intervals@[id] {
            Some(i) => i,
            None => full_interval(),
        }
    }

    /// Whether the edge at position `k` into `b` counts as unreachable: along
    /// a back edge as the earlier round says, along a forward edge as this
    /// round has it.
    pub open spec fn edge_read(self, prev: Option<&Analyses>, cfg: Seq<Seq<Pred>>, b: int, k: int) -> bool {
        if cfg[b][k].2 {
            prev_edge(prev, b, k)
        } else {
            self.edge_val(b, k)
        }
    }

    /// The interval of class `id` as read along a back edge (from the earlier
    /// round) or along a forward edge (from this one).
    pub open spec fn interval_read(self, prev: Option<&Analyses>, id: int, back_edge: bool) -> Interval {
        if back_edge {
            prev_interval(prev, id)
        } else {
            self.interval_val(id)
        }
    }

    /// The interval that value `v` of class `id` has given the current state.
    pub open spec fn interval_transfer_spec(
        self,
        prev: Option<&Analyses>,
        cfg: Seq<Seq<Pred>>,
        v: SSAValue,
        id: ClassId,
    ) -> Interval {
        match v {
            SSAValue::Constant(c) => Interval { low: c, high: c },
            SSAValue::Param(_) => full_interval(),
            SSAValue::Phi(b, l, r) => {
                let p0 = cfg[b as int][0].2;
                let p1 = cfg[b as int][1].2;
                let li = self.interval_read(prev, l as int, p0);
                let ri = self.interval_read(prev, r as int, p1);
                let lu = self.edge_read(prev, cfg, b as int, 0);
                let ru = self.edge_read(prev, cfg, b as int, 1);
                let iv = if lu && ru {
                    full_interval()
                } else if !lu && ru {
                    li
                } else if lu && !ru {
                    ri
                } else {
                    li.join_spec(ri)
                };
                if (p0 || p1) && prev is Some {
                    prev_interval(prev, id as int).widen_spec(iv)
                } else {
                    iv
                }
            },
            SSAValue::Unary(op, x) => self.interval_val(x as int).unary_spec(op),
            SSAValue::Binary(op, l, r) => self.interval_val(l as int).binary_spec(self.interval_val(r as int), op),
        }
    }

    /// Whether block `b` is unreachable given the current state: it is not
    /// the entry block and every edge into it is unreachable.
    pub open spec fn block_transfer_spec(self, prev: Option<&Analyses>, cfg: Seq<Seq<Pred>>, b: int) -> bool {
        b != 0 && forall|k: int| 0 <= k < cfg[b].len() ==> #[trigger] self.edge_read(prev, cfg, b, k)
    }

    /// Whether the edge at position `k` into `b` is unreachable given the
    /// current state: its predecessor is, or its condition can only be zero.
    pub open spec fn edge_transfer_spec(self, prev: Option<&Analyses>, cfg: Seq<Seq<Pred>>, b: int, k: int) -> bool {
        self.block_val(cfg[b][k].0 as int) || zero_only(self.interval_read(prev, cfg[b][k].1 as int, cfg[b][k].2))
    }

    /// Whether everything the interval of `v` reads in this round has been
    /// computed.
    pub open spec fn inputs_present(self, cfg: Seq<Seq<Pred>>, v: SSAValue) -> bool {
        match v {
            SSAValue::Constant(_) => self.unreachable_blocks@[0] is Some,
            SSAValue::Param(_) => self.unreachable_blocks@[0] is Some,
            SSAValue::Phi(b, l, r) => {
                &&& !cfg[b as int][0].2 ==> self.intervals@[l as int] is Some && self.unreachable_edges@[b as int]@[0] is Some
                &&& !cfg[b as int][1].2 ==> self.intervals@[r as int] is Some && self.unreachable_edges@[b as int]@[1] is Some
            },
            SSAValue::Unary(_, x) => self.intervals@[x as int] is Some,
            SSAValue::Binary(_, l, r) => self.intervals@[l as int] is Some && self.intervals@[r as int] is Some,
        }
    }

    /// Whether the interval of class `id` lies within what value `v` gives.
    pub open spec fn node_consistent(self, prev: Option<&Analyses>, cfg: Seq<Seq<Pred>>, v: SSAValue, id: ClassId) -> bool {
        &&& self.intervals@[id as int] is Some
        &&& self.intervals@[id as int]->0.subset_of(self.interval_transfer_spec(prev, cfg, v, id))
    }

    /// Stability where the worklist computed something: the interval of every
    /// class lies within what each of its values gives wherever all that
    /// value reads has been computed, and every block and edge that was
    /// visited holds what its transfer function gives. Together with
    /// `closed_over`, which says that every item the entry block leads to was
    /// visited, this is a fixed point on the reachable part.
    pub open spec fn stable_where_computed(self, prev: Option<&Analyses>, cfg: Seq<Seq<Pred>>, nodes: Seq<(SSAValue, ClassId)>) -> bool {
        &&& forall|j: usize|
            (j as int) < nodes.len() && self.inputs_present(cfg, (#[trigger] nodes[j as int]).0) ==> self.node_consistent(
                prev,
                cfg,
                nodes[j as int].0,
                nodes[j as int].1,
            )
        &&& forall|b: usize|
            (b as int) < cfg.len() && (#[trigger] self.unreachable_blocks@[b as int]) is Some ==> self.unreachable_blocks@[b as int]
                == Some(self.block_transfer_spec(prev, cfg, b as int))
        &&& forall|b: usize, k: usize|
            (b as int) < cfg.len() && (k as int) < cfg[b as int].len() && (#[trigger] self.unreachable_edges@[b as int]@[k as int]) is Some
                ==> self.unreachable_edges@[b as int]@[k as int] == Some(self.edge_transfer_spec(prev, cfg, b as int, k as int))
    }

    /// The value number of class `id`: along a back edge from the earlier
    /// round's union-find (zero where it has none), else from this round's.
    pub open spec fn vn_read(self, prev: Option<&Analyses>, id: int, back_edge: bool) -> ClassId {
        if back_edge {
            match prev {
                Some(o) => if 0 <= id < o.value_number_uf@.len() {
                    o.value_number_uf@[id]
                } else {
                    0
                },
                None => 0,
            }
        } else {
            self.value_number_uf@[id]
        }
    }

    /// The table key of `value` for value numbering: its kind and operator,
    /// its constant or parameter, and the value numbers of its operands; a
    /// phi whose first (or else second) edge is a back edge has a tag of its
    /// own, so that it is not identified with a phi of the same numbers.
    pub open spec fn gvn_key(self, prev: Option<&Analyses>, cfg: Seq<Seq<Pred>>, value: SSAValue) -> NodeKey {
        match value {
            SSAValue::Constant(c) => (0, c, 0, 0, 0),
            SSAValue::Param(p) => (1, 0, p, 0, 0),
            SSAValue::Phi(b, l, r) => {
                let b0 = cfg[b as int][0].2;
                let b1 = cfg[b as int][1].2;
                let tag: u8 = if b0 {
                    14
                } else if b1 {
                    15
                } else {
                    2
                };
                (tag, 0, b, self.vn_read(prev, l as int, b0), self.vn_read(prev, r as int, b1))
            },
            SSAValue::Unary(op, x) => (unary_code(op), 0, self.vn_read(prev, x as int, false), 0, 0),
            SSAValue::Binary(op, l, r) => (
                binary_code(op),
                0,
                self.vn_read(prev, l as int, false),
                self.vn_read(prev, r as int, false),
                0,
            ),
        }
    }

    /// Whether the worklist has computed item `x`: the interval of a node's
    /// class, the reachability of a block or of an edge.
    pub open spec fn entry_set(self, nodes: Seq<(SSAValue, ClassId)>, x: VisitItem) -> bool {
        match x {
            VisitItem::Node(i) => self.intervals@[nodes[i as int].1 as int] is Some,
            VisitItem::Block(b) => self.unreachable_blocks@[b as int] is Some,
            VisitItem::Edge(b, k) => self.unreachable_edges@[b as int]@[k as int] is Some,
        }
    }

    /// Every item that depends on a computed item is computed too, or still
    /// waits in `w`.
    pub open spec fn closed_upto(self, d: Dependents, cfg: Seq<Seq<Pred>>, w: Seq<VisitItem>) -> bool {
        forall|x: VisitItem, y: VisitItem|
            item_valid(d.nodes@.len(), cfg, x) && #[trigger] self.entry_set(d.nodes@, x) && #[trigger] d.deps_of(x).contains(y)
                ==> w.contains(y) || self.entry_set(d.nodes@, y)
    }

    /// Every item that reads a computed item (as `depends_on` says, over the
    /// node list `nodes`) is computed too: the worklist went everywhere it
    /// could reach from the entry block.
    pub open spec fn closed_over(self, nodes: Seq<(SSAValue, ClassId)>, cfg: Seq<Seq<Pred>>) -> bool {
        forall|x: VisitItem, y: VisitItem|
            #[trigger] depends_on(nodes, cfg, x, y) && #[trigger] self.entry_set(nodes, x) ==> self.entry_set(nodes, y)
    }

    /// `stable_where_computed` over the values of a graph, given as a map from each
    /// value to its class.
    pub open spec fn graph_stable_where_computed(self, prev: Option<&Analyses>, cfg: Seq<Seq<Pred>>, nodes: Map<SSAValue, ClassId>) -> bool {
        &&& forall|v: SSAValue|
            #[trigger] nodes.contains_key(v) && self.inputs_present(cfg, v) ==> self.node_consistent(prev, cfg, v, nodes[v])
        &&& forall|b: usize|
            (b as int) < cfg.len() && (#[trigger] self.unreachable_blocks@[b as int]) is Some ==> self.unreachable_blocks@[b as int]
                == Some(self.block_transfer_spec(prev, cfg, b as int))
        &&& forall|b: usize, k: usize|
            (b as int) < cfg.len() && (k as int) < cfg[b as int].len() && (#[trigger] self.unreachable_edges@[b as int]@[k as int]) is Some
                ==> self.unreachable_edges@[b as int]@[k as int] == Some(self.edge_transfer_spec(prev, cfg, b as int, k as int))
    }

    /// The analysis before anything is known: no entries, and every class
    /// numbered by itself.
    pub fn top(num_class_ids: usize) -> (r: Self)
        ensures
            r.fresh(num_class_ids as nat),
    {
        let mut intervals: Vec<Option<Interval>> = Vec::new();
        let mut i: usize = 0;
        while i < num_class_ids
            invariant
                i <= num_class_ids,
                intervals@ == Seq::new(i as nat, |k: int| None::<Interval>),
            decreases num_class_ids - i,
        {
            intervals.push(None);
            i = i + 1;
            proof {
                assert(intervals@ =~= Seq::new(i as nat, |k: int| None::<Interval>));
            }
        }
        let values = NodeTable::empty();
        proof {
            assert(table_contents(values) =~= Map::<NodeKey, usize>::empty());
        }
        Analyses {
            unreachable_blocks: Vec::new(),
            unreachable_edges: Vec::new(),
            intervals,
            value_number_uf: UnionFind::from_num_ids(num_class_ids),
            values,
        }
    }

    /// Gives a fresh analysis one empty entry per block and per edge of `cfg`.
    fn shape_for(&mut self, cfg: &CFG)
        requires
            old(self).unreachable_blocks@.len() == 0,
            old(self).unreachable_edges@.len() == 0,
        ensures
            final(self).intervals == old(self).intervals,
            final(self).value_number_uf == old(self).value_number_uf,
            final(self).values == old(self).values,
            final(self).unreachable_blocks@ == Seq::new(cfg@.len(), |b: int| None::<bool>),
            final(self).unreachable_edges@.len() == cfg@.len(),
            forall|b: int| 0 <= b < cfg@.len() ==> (#[trigger] final(self).unreachable_edges@[b])@ == Seq::new(
                cfg@[b]@.len(),
                |k: int| None::<bool>,
            ),
    {
        let mut b: usize = 0;
        while b < cfg.len()
            invariant
                b <= cfg@.len(),
                self.intervals == old(self).intervals,
                self.value_number_uf == old(self).value_number_uf,
                self.values == old(self).values,
                self.unreachable_blocks@ == Seq::new(b as nat, |x: int| None::<bool>),
                self.unreachable_edges@.len() == b,
                forall|x: int| 0 <= x < b ==> (#[trigger] self.unreachable_edges@[x])@ == Seq::new(
                    cfg@[x]@.len(),
                    |k: int| None::<bool>,
                ),
            decreases cfg@.len() - b,
        {
            let mut row: Vec<Option<bool>> = Vec::new();
            let mut k: usize = 0;
            while k < cfg[b].len()
                invariant
                    b < cfg@.len(),
                    k <= cfg@[b as int]@.len(),
                    row@ == Seq::new(k as nat, |x: int| None::<bool>),
                decreases cfg@[b as int]@.len() - k,
            {
                row.push(None);
                k = k + 1;
                proof {
                    assert(row@ =~= Seq::new(k as nat, |x: int| None::<bool>));
                }
            }
            self.unreachable_blocks.push(None);
            self.unreachable_edges.push(row);
            b = b + 1;
            proof {
                assert(self.unreachable_blocks@ =~= Seq::new(b as nat, |x: int| None::<bool>));
            }
        }
    }

    /// Whether block `block` is recorded unreachable.
    fn is_block_unreachable(&self, block: BlockId) -> (r: bool)
        requires
            block < self.unreachable_blocks@.len(),
        ensures
            r == self.block_val(block as int),
    {
        match self.unreachable_blocks[block] {
            Some(x) => x,
            None => false,
        }
    }

    /// Whether the edge at position `k` into `block` counts as unreachable,
    /// where `back_edge` says whether it is a back edge.
    fn is_edge_unreachable(&self, block: BlockId, k: usize, back_edge: bool, prev: Option<&Analyses>) -> (r: bool)
        requires
            block < self.unreachable_edges@.len(),
            k < self.unreachable_edges@[block as int]@.len(),
        ensures
            r == (if back_edge {
                prev_edge(prev, block as int, k as int)
            } else {
                self.edge_val(block as int, k as int)
            }),
    {
        if back_edge {
            match prev {
                Some(o) => {
                    if block < o.unreachable_edges.len() && k < o.unreachable_edges[block].len() {
                        match o.unreachable_edges[block][k] {
                            Some(x) => x,
                            None => true,
                        }
                    } else {
                        true
                    }
                },
                None => true,
            }
        } else {
            match self.unreachable_edges[block][k] {
                Some(x) => x,
                None => false,
            }
        }
    }

    /// The interval of class `id` as read along a back edge or a forward edge.
    fn get_interval(&self, id: ClassId, back_edge: bool, prev: Option<&Analyses>) -> (r: Interval)
        requires
            id < self.intervals@.len(),
            prev_ok(prev),
            forall|i: int| 0 <= i < self.intervals@.len() && (#[trigger] self.intervals@[i]) is Some ==> self.intervals@[i]->0.wf(),
        ensures
            r == self.interval_read(prev, id as int, back_edge),
            r.wf(),
    {
        if back_edge {
            match prev {
                Some(o) => {
                    if id < o.intervals.len() {
                        match o.intervals[id] {
                            Some(x) => x,
                            None => Interval::bottom(),
                        }
                    } else {
                        Interval::bottom()
                    }
                },
                None => Interval::bottom(),
            }
        } else {
            match self.intervals[id] {
                Some(x) => x,
                None => Interval::top(),
            }
        }
    }

    /// The value number of class `id`: along a back edge from the earlier
    /// round (0 with none), along a forward edge from this one.
    fn get_value_number(&mut self, id: ClassId, back_edge: bool, prev: Option<&Analyses>) -> (r: ClassId)
        requires
            old(self).value_number_uf.wf(),
            id < old(self).value_number_uf@.len(),
            prev_ok(prev),
        ensures
            final(self).value_number_uf.wf(),
            final(self).value_number_uf@ == old(self).value_number_uf@,
            final(self).intervals == old(self).intervals,
            final(self).unreachable_blocks == old(self).unreachable_blocks,
            final(self).unreachable_edges == old(self).unreachable_edges,
            final(self).values == old(self).values,
            r == old(self).vn_read(prev, id as int, back_edge),
    {
        if back_edge {
            match prev {
                Some(o) => {
                    if id < o.value_number_uf.num_ids() {
                        o.value_number_uf.root_of(id)
                    } else {
                        0
                    }
                },
                None => 0,
            }
        } else {
            self.value_number_uf.find(id)
        }
    }

    /// Whether `block` is unreachable given the current state.
    fn block_unreachable_transfer(&self, block: BlockId, cfg: &CFG, prev: Option<&Analyses>) -> (r: bool)
        requires
            self.shaped(cfg_view(cfg)),
            block < cfg@.len(),
        ensures
            r == self.block_transfer_spec(prev, cfg_view(cfg), block as int),
    {
        let ghost cv = cfg_view(cfg);
        if block == 0 {
            return false;
        }
        let preds = &cfg[block];
        let mut all_unreachable = true;
        let mut k: usize = 0;
        while k < preds.len()
            invariant
                cv == cfg_view(cfg),
                self.shaped(cv),
                block < cv.len(),
                preds@ == cv[block as int],
                k <= preds@.len(),
                all_unreachable == (forall|x: int| 0 <= x < k ==> #[trigger] self.edge_read(prev, cv, block as int, x)),
            decreases preds@.len() - k,
        {
            if !self.is_edge_unreachable(block, k, preds[k].2, prev) {
                all_unreachable = false;
                proof {
                    assert(!self.edge_read(prev, cv, block as int, k as int));
                }
                return false;
            }
            k = k + 1;
        }
        all_unreachable
    }

    /// Whether the edge at position `k` into `block` is unreachable given the
    /// current state.
    fn edge_unreachable_transfer(&self, block: BlockId, k: usize, cfg: &CFG, prev: Option<&Analyses>) -> (r: bool)
        requires
            self.shaped(cfg_view(cfg)),
            cfg_wf(cfg_view(cfg), self.intervals@.len()),
            prev_ok(prev),
            block < cfg@.len(),
            k < cfg@[block as int]@.len(),
        ensures
            r == self.edge_transfer_spec(prev, cfg_view(cfg), block as int, k as int),
    {
        let ghost cv = cfg_view(cfg);
        let (pred, cond, back_edge) = cfg[block][k];
        proof {
            assert(cv[block as int][k as int] == (pred, cond, back_edge));
        }
        if self.is_block_unreachable(pred) {
            return true;
        }
        let cond = self.get_interval(cond, back_edge, prev);
        cond.is_zero()
    }

    /// The interval that `value`, of class `id`, has given the current state.
    fn interval_transfer(&self, value: SSAValue, id: ClassId, cfg: &CFG, prev: Option<&Analyses>) -> (r: Interval)
        requires
            self.shaped(cfg_view(cfg)),
            prev_ok(prev),
            value_wf(value, self.intervals@.len(), cfg_view(cfg)),
        ensures
            r == self.interval_transfer_spec(prev, cfg_view(cfg), value, id),
            r.wf(),
    {
        let ghost cv = cfg_view(cfg);
        proof {
            assert(forall|k: int| 0 <= k < uses_of(value).len() ==> (#[trigger] uses_of(value)[k] as int) < self.intervals@.len());
        }
        match value {
            SSAValue::Constant(cons) => Interval::from_constant(cons),
            SSAValue::Param(_) => Interval::top(),
            SSAValue::Phi(block, lhs, rhs) => {
                proof {
                    assert(uses_of(value)[0] == lhs && uses_of(value)[1] == rhs);
                }
                let preds = &cfg[block];
                let lhs_i = self.get_interval(lhs, preds[0].2, prev);
                let rhs_i = self.get_interval(rhs, preds[1].2, prev);
                let lhs_unreachable = self.is_edge_unreachable(block, 0, preds[0].2, prev);
                let rhs_unreachable = self.is_edge_unreachable(block, 1, preds[1].2, prev);
                let interval = if lhs_unreachable && rhs_unreachable {
                    Interval::top()
                } else if !lhs_unreachable && rhs_unreachable {
                    lhs_i
                } else if lhs_unreachable && !rhs_unreachable {
                    rhs_i
                } else {
                    lhs_i.join(&rhs_i)
                };
                if preds[0].2 || preds[1].2 {
                    match prev {
                        Some(o) => {
                            let old_i = if id < o.intervals.len() {
                                match o.intervals[id] {
                                    Some(x) => x,
                                    None => Interval::bottom(),
                                }
                            } else {
                                Interval::bottom()
                            };
                            old_i.widen(&interval)
                        },
                        None => interval,
                    }
                } else {
                    interval
                }
            },
            SSAValue::Unary(op, input) => {
                proof {
                    assert(uses_of(value)[0] == input);
                }
                self.get_interval(input, false, prev).forward_unary(op)
            },
            SSAValue::Binary(op, lhs, rhs) => {
                proof {
                    assert(uses_of(value)[0] == lhs && uses_of(value)[1] == rhs);
                }
                let l = self.get_interval(lhs, false, prev);
                let r = self.get_interval(rhs, false, prev);
                l.forward_binary(&r, op)
            },
        }
    }

    /// Numbers `value`, of class `id`: the key made of its kind and the value
    /// numbers of its operands is looked up, the class merged with the one
    /// already stored under it, and the key then mapped to the class.
    fn gvn_transfer(&mut self, value: SSAValue, id: ClassId, cfg: &CFG, prev: Option<&Analyses>) -> (r: ClassId)
        requires
            old(self).shaped(cfg_view(cfg)),
            old(self).table_ok(),
            prev_ok(prev),
            id < old(self).intervals@.len(),
            value_wf(value, old(self).intervals@.len(), cfg_view(cfg)),
        ensures
            final(self).shaped(cfg_view(cfg)),
            final(self).table_ok(),
            final(self).intervals == old(self).intervals,
            final(self).unreachable_blocks == old(self).unreachable_blocks,
            final(self).unreachable_edges == old(self).unreachable_edges,
            (r as int) < final(self).value_number_uf@.len(),
            ({
                let k = old(self).gvn_key(prev, cfg_view(cfg), value);
                let t = table_contents(old(self).values);
                &&& t.contains_key(k) ==> final(self).value_number_uf@ == union_spec(
                    old(self).value_number_uf@,
                    id as int,
                    t[k] as int,
                ) && r == final(self).value_number_uf@[id as int]
                &&& !t.contains_key(k) ==> final(self).value_number_uf@ == old(self).value_number_uf@ && r == id
                &&& table_contents(final(self).values) == t.insert(k, r)
            }),
    {
        let ghost cv = cfg_view(cfg);
        let ghost a0 = *self;
        proof {
            assert(forall|k: int| 0 <= k < uses_of(value).len() ==> (#[trigger] uses_of(value)[k] as int) < self.intervals@.len());
        }
        let key: NodeKey = match value {
            SSAValue::Constant(cons) => (0, cons, 0, 0, 0),
            SSAValue::Param(param) => (1, 0, param, 0, 0),
            SSAValue::Phi(block, lhs, rhs) => {
                proof {
                    assert(uses_of(value)[0] == lhs && uses_of(value)[1] == rhs);
                }
                let b0 = cfg[block][0].2;
                let b1 = cfg[block][1].2;
                let l = self.get_value_number(lhs, b0, prev);
                let r = self.get_value_number(rhs, b1, prev);
                if b0 {
                    (14, 0, block, l, r)
                } else if b1 {
                    (15, 0, block, l, r)
                } else {
                    (2, 0, block, l, r)
                }
            },
            SSAValue::Unary(op, input) => {
                proof {
                    assert(uses_of(value)[0] == input);
                }
                let x = self.get_value_number(input, false, prev);
                let tag: u8 = match op {
                    UnaryOp::Neg => 3,
                    UnaryOp::Not => 4,
                };
                (tag, 0, x, 0, 0)
            },
            SSAValue::Binary(op, lhs, rhs) => {
                proof {
                    assert(uses_of(value)[0] == lhs && uses_of(value)[1] == rhs);
                }
                let l = self.get_value_number(lhs, false, prev);
                let r = self.get_value_number(rhs, false, prev);
                let tag: u8 = match op {
                    BinaryOp::Add => 5,
                    BinaryOp::Sub => 6,
                    BinaryOp::Mul => 7,
                    BinaryOp::EE => 8,
                    BinaryOp::NE => 9,
                    BinaryOp::LT => 10,
                    BinaryOp::LE => 11,
                    BinaryOp::GT => 12,
                    BinaryOp::GE => 13,
                };
                (tag, 0, l, r, 0)
            },
        };
        let mut number = id;
        let ghost t0 = table_contents(self.values);
        proof {
            assert(key == a0.gvn_key(prev, cv, value));
            assert(self.value_number_uf@ == a0.value_number_uf@);
        }
        match self.values.get(key) {
            Some(old_id) => {
                proof {
                    assert(t0.contains_key(key));
                }
                self.value_number_uf.union(number, old_id);
                number = self.value_number_uf.find(number);
                proof {
                    self.value_number_uf.lemma_wf();
                }
            },
            None => {},
        }
        self.values.insert(key, number);
        proof {
            assert forall|k: NodeKey| #[trigger] table_contents(self.values).contains_key(k) implies (table_contents(
                self.values,
            )[k] as int) < self.value_number_uf@.len() by {
                if k != key {
                    assert(t0.contains_key(k));
                }
            }
        }
        number
    }

    /// Runs the worklist from the entry block until nothing is left to
    /// visit, reading back edges from `prev`, the earlier round (none in the
    /// first round, where back edges count as unreachable and carry the empty
    /// interval). Each visit recomputes an item and, where it changed,
    /// queues the items that depend on it; a node's interval is narrowed by
    /// what its value gives, and the node is value-numbered. The number of
    /// visits is recorded in `statistics`. The loop is bounded by
    /// `usize::MAX` visits; it returns whether the worklist emptied, and
    /// then the result is a fixed point.
    pub fn inner_fixpoint(
        &mut self,
        cfg: &CFG,
        dependents: &Dependents,
        prev: Option<&Analyses>,
        statistics: &mut AnalysisStatistics,
    ) -> (converged: bool)
        requires
            old(self).fresh(old(self).intervals@.len()),
            dependents.wf(cfg_view(cfg)),
            nodes_in(dependents.nodes@, old(self).intervals@.len(), cfg_view(cfg)),
            cfg_wf(cfg_view(cfg), old(self).intervals@.len()),
            cfg@.len() >= 1,
            prev_ok(prev),
        ensures
            final(self).shaped(cfg_view(cfg)),
            final(self).table_ok(),
            final(self).intervals@.len() == old(self).intervals@.len(),
            converged ==> final(self).stable_where_computed(prev, cfg_view(cfg), dependents.nodes@),
            !converged ==> final(statistics).num_loop_visits@[old(statistics).num_loop_visits@.len() as int] == usize::MAX,
            final(statistics).num_loop_visits@[old(statistics).num_loop_visits@.len() as int] >= 1,
            final(self).unreachable_blocks@[0] == Some(false),
            converged ==> final(self).closed_upto(*dependents, cfg_view(cfg), Seq::empty()),
            final(statistics).num_nodes == old(statistics).num_nodes,
            final(statistics).num_blocks == old(statistics).num_blocks,
            final(statistics).num_edges == old(statistics).num_edges,
            final(statistics).num_component_heads == old(statistics).num_component_heads,
            final(statistics).num_loop_visits@.len() == old(statistics).num_loop_visits@.len() + 1,
            final(statistics).num_loop_visits@.subrange(0, old(statistics).num_loop_visits@.len() as int)
                == old(statistics).num_loop_visits@,
            exists|tr: Seq<(Analyses, Seq<VisitItem>)>|
                #[trigger] visit_run(tr, prev, cfg_view(cfg), *dependents) && {
                    &&& tr.len() == final(statistics).num_loop_visits@[old(statistics).num_loop_visits@.len() as int] + 1
                    &&& start_state(*old(self), tr[0].0, cfg_view(cfg))
                    &&& tr[0].1 == seq![VisitItem::Block(0)]
                    &&& tr.last().0 == *final(self)
                    &&& (converged <==> tr.last().1.len() == 0)
                },
    {
        let ghost cv = cfg_view(cfg);
        let ghost n = self.intervals@.len();
        let ghost nodes = dependents.nodes@;
        let ghost a_old = *self;
        self.shape_for(cfg);
        let mut worklist: VecDeque<VisitItem> = VecDeque::new();
        worklist.push_back(VisitItem::Block(0));
        let ghost a_start = *self;
        let ghost mut tr: Seq<(Analyses, Seq<VisitItem>)> = seq![(*self, worklist@)];
        proof {
            assert forall|b: int| 0 <= b < cv.len() implies (#[trigger] a_start.unreachable_edges@[b])@ == Seq::new(
                cv[b].len(),
                |k: int| None::<bool>,
            ) by {
                assert(cv[b] == cfg@[b]@);
            }
            assert(start_state(a_old, a_start, cv));
            assert(visit_run(tr, prev, cv, *dependents));
        }
        proof {
            assert(self.shaped(cv));
            assert(self.table_ok());
            assert forall|j: usize|
                (j as int) < nodes.len() && self.inputs_present(cv, (#[trigger] nodes[j as int]).0) implies worklist@.contains(
                VisitItem::Node(j)) || self.node_consistent(prev, cv, nodes[j as int].0, nodes[j as int].1) by {
                let v = nodes[j as int].0;
                assert(value_wf(v, n, cv));
                match v {
                    SSAValue::Phi(b, l, r) => {
                        assert(uses_of(v)[0] == l && uses_of(v)[1] == r);
                    },
                    SSAValue::Unary(_, x) => {
                        assert(uses_of(v)[0] == x);
                    },
                    SSAValue::Binary(_, l, r) => {
                        assert(uses_of(v)[0] == l && uses_of(v)[1] == r);
                    },
                    _ => {},
                }
            }
            assert(worklist@[0] == VisitItem::Block(0));
            assert(item_valid(nodes.len(), cv, VisitItem::Block(0)));
            assert(worklist@ =~= seq![VisitItem::Block(0)]);
            assert forall|x: VisitItem| item_valid(nodes.len(), cv, x) implies !#[trigger] self.entry_set(nodes, x) by {
                match x {
                    VisitItem::Node(i) => {
                        assert((nodes[i as int].1 as int) < n);
                    },
                    VisitItem::Block(b) => {},
                    VisitItem::Edge(b, k) => {},
                }
            }
        }
        let mut inner_iter: usize = 0;
        while worklist.len() > 0 && inner_iter < usize::MAX
            invariant
                cv == cfg_view(cfg),
                nodes == dependents.nodes@,
                self.shaped(cv),
                self.table_ok(),
                self.intervals@.len() == n,
                dependents.wf(cv),
                nodes_in(nodes, n, cv),
                cfg_wf(cv, n),
                cv.len() >= 1,
                prev_ok(prev),
                worklist_inv(*self, prev, cv, nodes, worklist@),
                forall|y: VisitItem| #[trigger] worklist@.contains(y) ==> item_valid(nodes.len(), cv, y),
                self.closed_upto(*dependents, cv, worklist@),
                inner_iter == 0 ==> worklist@ == seq![VisitItem::Block(0)],
                inner_iter > 0 ==> self.unreachable_blocks@[0] == Some(false),
                visit_run(tr, prev, cv, *dependents),
                tr.len() == inner_iter + 1,
                tr[0] == (a_start, seq![VisitItem::Block(0)]),
                tr.last() == (*self, worklist@),
                start_state(a_old, a_start, cv),
            decreases usize::MAX - inner_iter,
        {
            let ghost w0 = worklist@;
            let ghost a0 = *self;
            let visit = worklist.pop_front().unwrap();
            proof {
                assert(w0.contains(visit));
                assert(item_valid(nodes.len(), cv, visit));
                assert(forall|y: VisitItem| #[trigger] worklist@.contains(y) ==> w0.contains(y)) by {
                    assert forall|y: VisitItem| #[trigger] worklist@.contains(y) implies w0.contains(y) by {
                        let i = choose|i: int| 0 <= i < worklist@.len() && worklist@[i] == y;
                        assert(w0[i + 1] == y);
                    }
                }
            }
            inner_iter = inner_iter + 1;
            let ghost w1 = worklist@;
            match visit {
                VisitItem::Node(i) => {
                    let (value, id) = dependents.nodes[i];
                    proof {
                        assert(value_wf(value, n, cv) && (id as int) < n);
                    }
                    let old_interval = self.intervals[id];
                    let node_interval = self.interval_transfer(value, id, cfg, prev);
                    let prev_iv = match old_interval {
                        Some(x) => x,
                        None => Interval::top(),
                    };
                    let interval = node_interval.meet(&prev_iv);
                    self.intervals.set(id, Some(interval));
                    let old_number = self.value_number_uf.find(id);
                    let number = self.gvn_transfer(value, id, cfg, prev);
                    let changed = match old_interval {
                        Some(x) => !(x.low == interval.low && x.high == interval.high),
                        None => true,
                    };
                    if changed || old_number != number {
                        push_all(&mut worklist, &dependents.class_deps[id]);
                    }
                    proof {
                        lemma_meet_is_intersection(node_interval, prev_iv);
                        lemma_concat_contains(w1, dependents.deps_of(visit));
                        lemma_node_step(a0, *self, prev, cv, *dependents, w0, worklist@, i, interval, changed);
                        assert forall|x: VisitItem, y: VisitItem|
                            item_valid(nodes.len(), cv, x) && #[trigger] self.entry_set(nodes, x) && !a0.entry_set(nodes, x)
                                && #[trigger] dependents.deps_of(x).contains(y) implies worklist@.contains(y) by {
                            if let VisitItem::Node(j) = x {
                                assert(nodes[j as int].1 == id);
                            }
                        }
                        lemma_closed_step(a0, *self, cv, *dependents, w0, worklist@);
                        assert(visit_step(a0, w0, *self, worklist@, prev, cv, *dependents));
                    }
                },
                VisitItem::Block(block) => {
                    let unreachable = self.block_unreachable_transfer(block, cfg, prev);
                    let old_unreachable = self.unreachable_blocks[block];
                    self.unreachable_blocks.set(block, Some(unreachable));
                    let changed = match old_unreachable {
                        Some(x) => x != unreachable,
                        None => true,
                    };
                    if changed {
                        push_all(&mut worklist, &dependents.block_deps[block]);
                    }
                    proof {
                        lemma_concat_contains(w1, dependents.deps_of(visit));
                        lemma_block_step(a0, *self, prev, cv, *dependents, w0, worklist@, block, changed);
                        lemma_closed_step(a0, *self, cv, *dependents, w0, worklist@);
                        assert(visit_step(a0, w0, *self, worklist@, prev, cv, *dependents));
                    }
                },
                VisitItem::Edge(block, k) => {
                    let unreachable = self.edge_unreachable_transfer(block, k, cfg, prev);
                    let old_unreachable = self.unreachable_edges[block][k];
                    set_edge(&mut self.unreachable_edges, block, k, Some(unreachable));
                    let changed = match old_unreachable {
                        Some(x) => x != unreachable,
                        None => true,
                    };
                    if changed {
                        push_all(&mut worklist, &dependents.edge_deps[block][k]);
                    }
                    proof {
                        lemma_concat_contains(w1, dependents.deps_of(visit));
                        lemma_edge_step(a0, *self, prev, cv, *dependents, w0, worklist@, block, k, changed);
                        lemma_closed_step(a0, *self, cv, *dependents, w0, worklist@);
                        assert(visit_step(a0, w0, *self, worklist@, prev, cv, *dependents));
                    }
                },
            }
            proof {
                assert forall|y: VisitItem| #[trigger] worklist@.contains(y) implies item_valid(nodes.len(), cv, y) by {
                    if w1.contains(y) {
                        assert(w0.contains(y));
                    } else {
                        assert(dependents.deps_of(visit).contains(y));
                    }
                }
                reveal(step_at);
                let tr0 = tr;
                tr = tr.push((*self, worklist@));
                assert forall|x: int| 0 <= x < tr.len() - 1 implies #[trigger] step_at(tr, x, prev, cv, *dependents) by {
                    if x < tr0.len() - 1 {
                        assert(step_at(tr0, x, prev, cv, *dependents));
                        assert(tr[x] == tr0[x] && tr[x + 1] == tr0[x + 1]);
                    } else {
                        assert(tr[x] == (a0, w0));
                    }
                }
            }
        }
        statistics.num_loop_visits.push(inner_iter);
        let converged = worklist.len() == 0;
        proof {
            assert(statistics.num_loop_visits@[statistics.num_loop_visits@.len() - 1] == inner_iter);
            assert(tr[0].0 == a_start);
            if converged {
                assert(forall|y: VisitItem| !worklist@.contains(y));
                assert(self.closed_upto(*dependents, cv, Seq::empty()));
            }
        }
        converged
    }

    /// Whether a round moved any loop head: the interval of a widening
    /// point's phi, or the reachability of its back edge, differs between
    /// `self` and `other`.
    fn changed(&self, other: &Analyses, widening_points: &Vec<(ClassId, BlockId, usize)>) -> (r: bool)
        requires
            forall|i: int|
                0 <= i < widening_points@.len() ==> {
                    let w = #[trigger] widening_points@[i];
                    &&& (w.0 as int) < self.intervals@.len()
                    &&& (w.0 as int) < other.intervals@.len()
                    &&& (w.1 as int) < self.unreachable_edges@.len()
                    &&& (w.1 as int) < other.unreachable_edges@.len()
                    &&& (w.2 as int) < self.unreachable_edges@[w.1 as int]@.len()
                    &&& (w.2 as int) < other.unreachable_edges@[w.1 as int]@.len()
                },
        ensures
            r == exists|i: int|
                0 <= i < widening_points@.len() && {
                    let w = #[trigger] widening_points@[i];
                    self.intervals@[w.0 as int] != other.intervals@[w.0 as int]
                        || self.unreachable_edges@[w.1 as int]@[w.2 as int] != other.unreachable_edges@[w.1 as int]@[w.2 as int]
                },
    {
        let mut i: usize = 0;
        while i < widening_points.len()
            invariant
                i <= widening_points@.len(),
                forall|x: int|
                    0 <= x < widening_points@.len() ==> {
                        let w = #[trigger] widening_points@[x];
                        &&& (w.0 as int) < self.intervals@.len()
                        &&& (w.0 as int) < other.intervals@.len()
                        &&& (w.1 as int) < self.unreachable_edges@.len()
                        &&& (w.1 as int) < other.unreachable_edges@.len()
                        &&& (w.2 as int) < self.unreachable_edges@[w.1 as int]@.len()
                        &&& (w.2 as int) < other.unreachable_edges@[w.1 as int]@.len()
                    },
                forall|x: int|
                    0 <= x < i ==> {
                        let w = #[trigger] widening_points@[x];
                        self.intervals@[w.0 as int] == other.intervals@[w.0 as int]
                            && self.unreachable_edges@[w.1 as int]@[w.2 as int] == other.unreachable_edges@[w.1 as int]@[w.2 as int]
                    },
            decreases widening_points@.len() - i,
        {
            let (phi, block, k) = widening_points[i];
            proof {
                let w = widening_points@[i as int];
                assert((w.0 as int) < self.intervals@.len());
            }
            if !same_interval(self.intervals[phi], other.intervals[phi])
                || !same_flag(self.unreachable_edges[block][k], other.unreachable_edges[block][k]) {
                proof {
                    let w = widening_points@[i as int];
                    assert(self.intervals@[w.0 as int] != other.intervals@[w.0 as int]
                        || self.unreachable_edges@[w.1 as int]@[w.2 as int] != other.unreachable_edges@[w.1 as int]@[w.2 as int]);
                }
                return true;
            }
            i = i + 1;
        }
        false
    }
}

/// Statistics of a graph: its numbers of values, blocks, edges and loop heads.
fn graph_statistics(ssa: &SSAGraph, cfg: &CFG) -> (r: AnalysisStatistics)
    ensures
        r.num_nodes == table_contents(ssa.values).len(),
        r.num_blocks == cfg@.len(),
        r.num_edges == if edges_upto(cfg_view(cfg), cfg@.len() as int) > usize::MAX {
            usize::MAX as nat
        } else {
            edges_upto(cfg_view(cfg), cfg@.len() as int)
        },
        r.num_component_heads == heads_upto(cfg_view(cfg), cfg@.len() as int),
        r.num_loop_visits@ == Seq::<usize>::empty(),
{
    let num_edges = count_edges(cfg);
    let num_component_heads = count_component_heads(cfg);
    AnalysisStatistics::new(ssa.num_values(), cfg.len(), num_edges, num_component_heads)
}

/// The round that the pessimistic analysis reads back edges from: every
/// edge reachable, and every class that holds a value the whole range.
pub open spec fn pessimistic_round(p: Analyses, cfg: Seq<Seq<Pred>>, nodes: Map<SSAValue, ClassId>) -> bool {
    &&& p.unreachable_edges@.len() == cfg.len()
    &&& forall|b: int, k: int|
        0 <= b < cfg.len() && 0 <= k < cfg[b].len() ==> (#[trigger] p.unreachable_edges@[b]@[k]) == Some(false)
    &&& forall|v: SSAValue|
        #[trigger] nodes.contains_key(v) ==> (nodes[v] as int) < p.intervals@.len() && p.intervals@[nodes[v] as int]
            == Some(full_interval())
}

/// Whether two rounds agree at every loop head: on the interval of each
/// phi of a block entered by a back edge, and on the reachability of that
/// block's first back edge.
pub open spec fn loop_heads_agree(ssa: SSAGraph, cfg: Seq<Seq<Pred>>, a: Analyses, b: Analyses) -> bool {
    forall|w: (ClassId, BlockId, usize)|
        #[trigger] is_widening_point(ssa, cfg, w) ==> a.intervals@[w.0 as int] == b.intervals@[w.0 as int]
            && a.unreachable_edges@[w.1 as int]@[w.2 as int] == b.unreachable_edges@[w.1 as int]@[w.2 as int]
}

/// A fixed point over a list of the graph's values, each listed once and
/// all of them listed, is one over the graph.
proof fn lemma_graph_fixpoint(
    a: Analyses,
    prev: Option<&Analyses>,
    cfg: Seq<Seq<Pred>>,
    list: Seq<(SSAValue, ClassId)>,
    nodes: Map<SSAValue, ClassId>,
)
    requires
        a.stable_where_computed(prev, cfg, list),
        list.len() <= usize::MAX,
        forall|i: int| 0 <= i < list.len() ==> nodes.contains_key(#[trigger] list[i].0) && nodes[list[i].0] == list[i].1,
        forall|v: SSAValue| #[trigger] nodes.contains_key(v) ==> exists|i: int| 0 <= i < list.len() && #[trigger] list[i].0 == v,
    ensures
        a.graph_stable_where_computed(prev, cfg, nodes),
{
    assert forall|v: SSAValue| #[trigger] nodes.contains_key(v) && a.inputs_present(cfg, v) implies a.node_consistent(prev, cfg, v, nodes[v]) by {
        let i = choose|i: int| 0 <= i < list.len() && #[trigger] list[i].0 == v;
        let j = i as usize;
        assert(j as int == i);
        assert(list[j as int].0 == v);
    }
}

/// Every visit count of a run is below the budget, so every round ended
/// with an empty worklist.
pub open spec fn visits_below_max(visits: Seq<usize>) -> bool {
    forall|i: int| 0 <= i < visits.len() ==> #[trigger] visits[i] < usize::MAX
}

/// A list that holds every loop head and nothing else, on which two rounds
/// agree, shows that they agree at every loop head.
proof fn lemma_loop_heads_agree(
    ssa: SSAGraph,
    cfg: Seq<Seq<Pred>>,
    wp: Seq<(ClassId, BlockId, usize)>,
    a: Analyses,
    b: Analyses,
)
    requires
        forall|i: int| 0 <= i < wp.len() ==> is_widening_point(ssa, cfg, #[trigger] wp[i]),
        forall|v: SSAValue|
            #[trigger] ssa.nodes().contains_key(v) && v is Phi && has_back_edge(cfg[v->Phi_0 as int]) ==> exists|i: int|
                0 <= i < wp.len() && (#[trigger] wp[i]).0 == ssa.nodes()[v] && wp[i].1 == v->Phi_0,
        forall|i: int|
            0 <= i < wp.len() ==> {
                let w = #[trigger] wp[i];
                a.intervals@[w.0 as int] == b.intervals@[w.0 as int]
                    && a.unreachable_edges@[w.1 as int]@[w.2 as int] == b.unreachable_edges@[w.1 as int]@[w.2 as int]
            },
    ensures
        loop_heads_agree(ssa, cfg, a, b),
{
    assert forall|w: (ClassId, BlockId, usize)| #[trigger] is_widening_point(ssa, cfg, w) implies a.intervals@[w.0 as int]
        == b.intervals@[w.0 as int] && a.unreachable_edges@[w.1 as int]@[w.2 as int] == b.unreachable_edges@[w.1 as int]@[w.2 as int] by {
        let v = choose|v: SSAValue| #[trigger] ssa.nodes().contains_key(v) && v is Phi && v->Phi_0 == w.1 && ssa.nodes()[v] == w.0;
        assert(cfg[w.1 as int][w.2 as int].2);
        assert(has_back_edge(cfg[v->Phi_0 as int]));
        let i = choose|i: int| 0 <= i < wp.len() && (#[trigger] wp[i]).0 == ssa.nodes()[v] && wp[i].1 == v->Phi_0;
        let x = wp[i];
        assert(is_widening_point(ssa, cfg, x));
        if x.2 < w.2 {
            assert(!cfg[w.1 as int][x.2 as int].2);
        } else if w.2 < x.2 {
            assert(!cfg[x.1 as int][w.2 as int].2);
        }
        assert(x == w);
    }
}

/// Whether `a` is what a run of the worklist gives from a fresh analysis over
/// `n` classes, reading the back edges from `prev`, after `visits` visits;
/// a run that stops below `usize::MAX` visits has emptied its worklist.
#[verifier::opaque]
pub open spec fn is_round(a: Analyses, prev: Option<&Analyses>, cfg: Seq<Seq<Pred>>, d: Dependents, n: nat, visits: usize) -> bool {
    exists|a0: Analyses, tr: Seq<(Analyses, Seq<VisitItem>)>|
        #![trigger a0.fresh(n), visit_run(tr, prev, cfg, d)]
        {
            &&& a0.fresh(n)
            &&& visit_run(tr, prev, cfg, d)
            &&& tr.len() == visits + 1
            &&& start_state(a0, tr[0].0, cfg)
            &&& tr[0].1 == seq![VisitItem::Block(0)]
            &&& tr.last().0 == a
            &&& (visits < usize::MAX ==> tr.last().1.len() == 0)
        }
}

proof fn lemma_is_round(
    a: Analyses,
    prev: Option<&Analyses>,
    cfg: Seq<Seq<Pred>>,
    d: Dependents,
    n: nat,
    visits: usize,
    a0: Analyses,
    tr: Seq<(Analyses, Seq<VisitItem>)>,
)
    requires
        a0.fresh(n),
        visit_run(tr, prev, cfg, d),
        tr.len() == visits + 1,
        start_state(a0, tr[0].0, cfg),
        tr[0].1 == seq![VisitItem::Block(0)],
        tr.last().0 == a,
        tr.last().1.len() == 0 || visits == usize::MAX,
    ensures
        is_round(a, prev, cfg, d, n, visits),
{
    reveal(is_round);
}

/// Round `i` of `rounds` is a run of the worklist that reads the round
/// before it (no round, for the first).
#[verifier::opaque]
pub open spec fn round_at(cfg: Seq<Seq<Pred>>, d: Dependents, n: nat, rounds: Seq<Analyses>, visits: Seq<usize>, i: int) -> bool {
    if i == 0 {
        is_round(rounds[0], None, cfg, d, n, visits[0])
    } else {
        is_round(rounds[i], Some(&rounds[i - 1]), cfg, d, n, visits[i])
    }
}

/// Round `i + 1` of `rounds` moved a loop head from round `i`.
#[verifier::opaque]
pub open spec fn moved_at(ssa: SSAGraph, cfg: Seq<Seq<Pred>>, rounds: Seq<Analyses>, i: int) -> bool {
    !loop_heads_agree(ssa, cfg, rounds[i], rounds[i + 1])
}

/// A round of the worklist that reads `prev` and ran from `a_top` ends one
/// more entry of the rounds' record.
proof fn lemma_next_round(
    ssa: SSAGraph,
    cfg: Seq<Seq<Pred>>,
    d: Dependents,
    n: nat,
    r0: Seq<Analyses>,
    s0: Seq<usize>,
    s1: Seq<usize>,
    new_a: Analyses,
    a_top: Analyses,
)
    requires
        r0.len() == s0.len(),
        r0.len() >= 1,
        s1.len() == s0.len() + 1,
        s1.subrange(0, s0.len() as int) == s0,
        a_top.fresh(n),
        forall|i: int| 0 <= i < r0.len() ==> #[trigger] round_at(cfg, d, n, r0, s0, i),
        forall|i: int| 0 <= i < r0.len() - 2 ==> #[trigger] moved_at(ssa, cfg, r0, i),
        r0.len() >= 2 ==> moved_at(ssa, cfg, r0, r0.len() - 2),
        exists|tr: Seq<(Analyses, Seq<VisitItem>)>|
            #[trigger] visit_run(tr, Some(&r0.last()), cfg, d) && {
                &&& tr.len() == s1[s0.len() as int] + 1
                &&& start_state(a_top, tr[0].0, cfg)
                &&& tr[0].1 == seq![VisitItem::Block(0)]
                &&& tr.last().0 == new_a
                &&& (tr.last().1.len() == 0 || s1[s0.len() as int] == usize::MAX)
            },
    ensures
        forall|i: int| 0 <= i < r0.len() + 1 ==> #[trigger] round_at(cfg, d, n, r0.push(new_a), s1, i),
        forall|i: int| 0 <= i < r0.len() + 1 - 2 ==> #[trigger] moved_at(ssa, cfg, r0.push(new_a), i),
{
    reveal(round_at);
    reveal(moved_at);
    let rounds = r0.push(new_a);
    let tr = choose|tr: Seq<(Analyses, Seq<VisitItem>)>|
        #[trigger] visit_run(tr, Some(&r0.last()), cfg, d) && {
            &&& tr.len() == s1[s0.len() as int] + 1
            &&& start_state(a_top, tr[0].0, cfg)
            &&& tr[0].1 == seq![VisitItem::Block(0)]
            &&& tr.last().0 == new_a
            &&& (tr.last().1.len() == 0 || s1[s0.len() as int] == usize::MAX)
        };
    lemma_is_round(new_a, Some(&r0.last()), cfg, d, n, s1[s0.len() as int], a_top, tr);
    assert forall|i: int| 0 <= i < r0.len() + 1 implies #[trigger] round_at(cfg, d, n, rounds, s1, i) by {
        if i < r0.len() {
            assert(round_at(cfg, d, n, r0, s0, i));
            assert(s0[i] == s1.subrange(0, s0.len() as int)[i]);
            if i > 0 {
                assert(r0[i - 1] == rounds[i - 1]);
            }
            assert(r0[i] == rounds[i]);
        } else {
            assert(rounds[i - 1] == r0.last());
        }
    }
    assert forall|i: int| 0 <= i < r0.len() + 1 - 2 implies #[trigger] moved_at(ssa, cfg, rounds, i) by {
        assert(r0[i] == rounds[i] && r0[i + 1] == rounds[i + 1]);
        assert(moved_at(ssa, cfg, r0, i));
    }
}

proof fn lemma_outer_run(
    ssa: SSAGraph,
    cfg: Seq<Seq<Pred>>,
    d: Dependents,
    rounds: Seq<Analyses>,
    visits: Seq<usize>,
    r: Analyses,
    done: bool,
)
    requires
        d.wf(cfg),
        lists_nodes(d.nodes@, ssa.nodes()),
        rounds.len() == visits.len(),
        done || rounds.len() == usize::MAX + 1,
        forall|i: int| 0 <= i < rounds.len() ==> #[trigger] round_at(cfg, d, ssa.num_ids(), rounds, visits, i),
        forall|i: int| 0 <= i < rounds.len() - 2 ==> #[trigger] moved_at(ssa, cfg, rounds, i),
        !done ==> r == rounds.last(),
        !done && rounds.len() >= 2 ==> moved_at(ssa, cfg, rounds, rounds.len() - 2),
        done ==> rounds.len() >= 2 && r == rounds[rounds.len() - 2] && loop_heads_agree(ssa, cfg, rounds[rounds.len() - 2], rounds.last()),
    ensures
        outer_run(ssa, cfg, d, rounds, visits, r),
{
    reveal(outer_run);
    reveal(moved_at);
}

/// The rounds of the optimistic analysis, with their visit counts: the
/// first reads no earlier round, each later one reads the round before it;
/// every round but the last two moved a loop head; the result is the
/// round before a round that moved none, or, where the rounds ran out, the
/// last one.
#[verifier::opaque]
pub open spec fn outer_run(
    ssa: SSAGraph,
    cfg: Seq<Seq<Pred>>,
    d: Dependents,
    rounds: Seq<Analyses>,
    visits: Seq<usize>,
    r: Analyses,
) -> bool {
    let len = rounds.len();
    &&& d.wf(cfg)
    &&& lists_nodes(d.nodes@, ssa.nodes())
    &&& len == visits.len()
    &&& len >= 2
    &&& forall|i: int| 0 <= i < len ==> #[trigger] round_at(cfg, d, ssa.num_ids(), rounds, visits, i)
    &&& forall|i: int| 0 <= i < len - 2 ==> #[trigger] moved_at(ssa, cfg, rounds, i)
    &&& ((r == rounds[len - 2] && loop_heads_agree(ssa, cfg, rounds[len - 2], rounds[len - 1])) || (len == usize::MAX + 1
        && r == rounds[len - 1] && !loop_heads_agree(ssa, cfg, rounds[len - 2], rounds[len - 1])))
}

/// The optimistic analysis: a first round of the worklist with every back
/// edge unreachable and every back-edge value empty, then rounds that read
/// back edges from the round before, widened at the loop heads, until a
/// round leaves every loop head as it was (at most `usize::MAX` rounds).
/// Returns the last stable round and the statistics of all rounds.
#[verifier::spinoff_prover]
#[verifier::rlimit(100)]
pub fn outer_fixpoint(ssa: &SSAGraph, cfg: &CFG) -> (r: (Analyses, AnalysisStatistics))
    requires
        ssa.wf(cfg_view(cfg)),
        cfg@.len() >= 1,
    ensures
        r.0.shaped(cfg_view(cfg)),
        r.0.intervals@.len() == ssa.num_ids(),
        r.1.num_nodes == table_contents(ssa.values).len(),
        r.1.num_blocks == cfg@.len(),
        r.1.num_edges == if edges_upto(cfg_view(cfg), cfg@.len() as int) > usize::MAX {
            usize::MAX as nat
        } else {
            edges_upto(cfg_view(cfg), cfg@.len() as int)
        },
        r.1.num_component_heads == heads_upto(cfg_view(cfg), cfg@.len() as int),
        r.1.num_loop_visits@.len() >= 1,
        r.0.unreachable_blocks@[0] == Some(false),
        r.1.num_loop_visits@.len() >= 2,
        exists|d: Dependents, rounds: Seq<Analyses>| #[trigger] outer_run(*ssa, cfg_view(cfg), d, rounds, r.1.num_loop_visits@, r.0),
        visits_below_max(r.1.num_loop_visits@) ==> exists|l: Seq<(SSAValue, ClassId)>|
            #[trigger] lists_nodes(l, ssa.nodes()) && r.0.closed_over(l, cfg_view(cfg)),
        visits_below_max(r.1.num_loop_visits@) && r.1.num_loop_visits@.len() <= usize::MAX ==> {
            &&& r.0.graph_stable_where_computed(None, cfg_view(cfg), ssa.nodes()) || exists|p: Analyses|
                #[trigger] r.0.graph_stable_where_computed(Some(&p), cfg_view(cfg), ssa.nodes())
            &&& exists|q: Analyses|
                #[trigger] q.graph_stable_where_computed(Some(&r.0), cfg_view(cfg), ssa.nodes()) && loop_heads_agree(*ssa, cfg_view(cfg), r.0, q)
        },
{
    let ghost cv = cfg_view(cfg);
    proof {
        ssa.uf.lemma_wf();
    }
    let n = ssa.uf.num_ids();
    let dependents = dependents(ssa, cfg);
    let widening_points = widening_points(ssa, cfg);
    let mut statistics = graph_statistics(ssa, cfg);
    proof {
        assert forall|j: int| 0 <= j < dependents.nodes@.len() implies value_wf(
            (#[trigger] dependents.nodes@[j]).0,
            n as nat,
            cv,
        ) && (dependents.nodes@[j].1 as int) < n by {
            assert(ssa.nodes().contains_key(dependents.nodes@[j].0));
        }
    }
    let num_listed = dependents.nodes.len();
    let mut analyses = Analyses::top(n);
    let ghost a_top = analyses;
    let ghost vis0 = statistics.num_loop_visits@;
    analyses.inner_fixpoint(cfg, &dependents, None, &mut statistics);
    let ghost mut rounds: Seq<Analyses> = seq![analyses];
    proof {
        let tr = choose|tr: Seq<(Analyses, Seq<VisitItem>)>|
            #[trigger] visit_run(tr, None, cv, dependents) && {
                &&& tr.len() == statistics.num_loop_visits@[vis0.len() as int] + 1
                &&& start_state(a_top, tr[0].0, cv)
                &&& tr[0].1 == seq![VisitItem::Block(0)]
                &&& tr.last().0 == analyses
                &&& (tr.last().1.len() == 0 || statistics.num_loop_visits@[vis0.len() as int] == usize::MAX)
            };
        assert(a_top.fresh(n as nat));
        lemma_is_round(analyses, None, cv, dependents, n as nat, statistics.num_loop_visits@[0], a_top, tr);
        assert(round_at(cv, dependents, n as nat, rounds, statistics.num_loop_visits@, 0)) by {
            reveal(round_at);
        }
        assert(dependents.nodes@.len() == num_listed);
        if visits_below_max(statistics.num_loop_visits@) {
            assert(statistics.num_loop_visits@[0] < usize::MAX);
            lemma_graph_fixpoint(analyses, None, cv, dependents.nodes@, ssa.nodes());
            assert(analyses.closed_upto(dependents, cv, Seq::empty()));
        }
    }
    let mut round: usize = 0;
    let mut done = false;
    let ghost mut earlier: Option<Analyses> = None;
    let ghost mut next: Analyses = analyses;
    while !done && round < usize::MAX
        invariant
            cv == cfg_view(cfg),
            ssa.wf(cv),
            n == ssa.num_ids(),
            dependents.wf(cv),
            nodes_in(dependents.nodes@, n as nat, cv),
            cfg_wf(cv, n as nat),
            cv.len() >= 1,
            analyses.shaped(cv),
            analyses.intervals@.len() == n,
            forall|i: int| 0 <= i < widening_points@.len() ==> is_widening_point(*ssa, cv, #[trigger] widening_points@[i]),
            statistics.num_nodes == table_contents(ssa.values).len(),
            statistics.num_blocks == cfg@.len(),
            statistics.num_edges == if edges_upto(cv, cfg@.len() as int) > usize::MAX {
                usize::MAX as nat
            } else {
                edges_upto(cv, cfg@.len() as int)
            },
            statistics.num_component_heads == heads_upto(cv, cfg@.len() as int),
            statistics.num_loop_visits@.len() == round + 1,
            dependents.nodes@.len() <= usize::MAX,
            forall|i: int|
                0 <= i < dependents.nodes@.len() ==> ssa.nodes().contains_key(#[trigger] dependents.nodes@[i].0)
                    && ssa.nodes()[dependents.nodes@[i].0] == dependents.nodes@[i].1,
            forall|v: SSAValue|
                #[trigger] ssa.nodes().contains_key(v) ==> exists|i: int| 0 <= i < dependents.nodes@.len() && #[trigger] dependents.nodes@[i].0 == v,
            forall|i: int| 0 <= i < widening_points@.len() ==> is_widening_point(*ssa, cv, #[trigger] widening_points@[i]),
            forall|v: SSAValue|
                #[trigger] ssa.nodes().contains_key(v) && v is Phi && has_back_edge(cv[v->Phi_0 as int]) ==> exists|i: int|
                    0 <= i < widening_points@.len() && (#[trigger] widening_points@[i]).0 == ssa.nodes()[v] && widening_points@[i].1 == v->Phi_0,
            visits_below_max(statistics.num_loop_visits@) ==> match earlier {
                Some(e) => analyses.graph_stable_where_computed(Some(&e), cv, ssa.nodes()),
                None => analyses.graph_stable_where_computed(None, cv, ssa.nodes()),
            },
            done ==> (visits_below_max(statistics.num_loop_visits@) ==> next.graph_stable_where_computed(Some(&analyses), cv, ssa.nodes())),
            done ==> loop_heads_agree(*ssa, cv, analyses, next),
            analyses.unreachable_blocks@[0] == Some(false),
            visits_below_max(statistics.num_loop_visits@) ==> analyses.closed_upto(dependents, cv, Seq::empty()),
            rounds.len() == round + 1,
            forall|i: int| 0 <= i < rounds.len() ==> #[trigger] round_at(cv, dependents, n as nat, rounds, statistics.num_loop_visits@, i),
            forall|i: int| 0 <= i < rounds.len() - 2 ==> #[trigger] moved_at(*ssa, cv, rounds, i),
            !done ==> analyses == rounds.last(),
            !done && rounds.len() >= 2 ==> moved_at(*ssa, cv, rounds, rounds.len() - 2),
            done ==> rounds.len() >= 2 && analyses == rounds[rounds.len() - 2] && loop_heads_agree(*ssa, cv, rounds[rounds.len() - 2], rounds.last()),
        decreases usize::MAX - round,
    {
        let mut new_analyses = Analyses::top(n);
        let ghost a_top2 = new_analyses;
        let ghost s0 = statistics.num_loop_visits@;
        let ghost prev_a = analyses;
        new_analyses.inner_fixpoint(cfg, &dependents, Some(&analyses), &mut statistics);
        proof {
            assert(prev_a == rounds.last());
            lemma_next_round(*ssa, cv, dependents, n as nat, rounds, s0, statistics.num_loop_visits@, new_analyses, a_top2);
            rounds = rounds.push(new_analyses);
        }
        proof {
            if visits_below_max(statistics.num_loop_visits@) {
                assert(statistics.num_loop_visits@[s0.len() as int] < usize::MAX);
                lemma_graph_fixpoint(new_analyses, Some(&analyses), cv, dependents.nodes@, ssa.nodes());
                assert forall|i: int| 0 <= i < s0.len() implies #[trigger] s0[i] < usize::MAX by {
                    assert(s0[i] == statistics.num_loop_visits@.subrange(0, s0.len() as int)[i]);
                    assert(statistics.num_loop_visits@[i] < usize::MAX);
                }
                assert(new_analyses.closed_upto(dependents, cv, Seq::empty()));
            }
        }
        proof {
            assert forall|i: int| 0 <= i < widening_points@.len() implies {
                let w = #[trigger] widening_points@[i];
                &&& (w.0 as int) < analyses.intervals@.len()
                &&& (w.0 as int) < new_analyses.intervals@.len()
                &&& (w.1 as int) < analyses.unreachable_edges@.len()
                &&& (w.1 as int) < new_analyses.unreachable_edges@.len()
                &&& (w.2 as int) < analyses.unreachable_edges@[w.1 as int]@.len()
                &&& (w.2 as int) < new_analyses.unreachable_edges@[w.1 as int]@.len()
            } by {
                assert(is_widening_point(*ssa, cv, widening_points@[i]));
            }
        }
        if analyses.changed(&new_analyses, &widening_points) {
            proof {
                earlier = Some(analyses);
                assert(rounds[rounds.len() - 2] == analyses && rounds.last() == new_analyses);
                let i = choose|i: int|
                    0 <= i < widening_points@.len() && {
                        let w = #[trigger] widening_points@[i];
                        analyses.intervals@[w.0 as int] != new_analyses.intervals@[w.0 as int]
                            || analyses.unreachable_edges@[w.1 as int]@[w.2 as int] != new_analyses.unreachable_edges@[w.1 as int]@[w.2 as int]
                    };
                assert(is_widening_point(*ssa, cv, widening_points@[i]));
                assert(!loop_heads_agree(*ssa, cv, analyses, new_analyses));
                assert(moved_at(*ssa, cv, rounds, rounds.len() - 2)) by {
                    reveal(moved_at);
                }
            }
            analyses = new_analyses;
        } else {
            proof {
                lemma_loop_heads_agree(*ssa, cv, widening_points@, analyses, new_analyses);
                next = new_analyses;
            }
            done = true;
        }
        round = round + 1;
    }
    proof {
        assert(lists_nodes(dependents.nodes@, ssa.nodes()));
        lemma_outer_run(*ssa, cv, dependents, rounds, statistics.num_loop_visits@, analyses, done);
        if visits_below_max(statistics.num_loop_visits@) && statistics.num_loop_visits@.len() <= usize::MAX {
            assert(done);
            match earlier {
                Some(e) => {
                    assert(analyses.graph_stable_where_computed(Some(&e), cv, ssa.nodes()));
                },
                None => {},
            }
            assert(next.graph_stable_where_computed(Some(&analyses), cv, ssa.nodes()));
        }
        if visits_below_max(statistics.num_loop_visits@) {
            lemma_closed_over(analyses, dependents, cv);
            assert(lists_nodes(dependents.nodes@, ssa.nodes()));
        }
    }
    (analyses, statistics)
}

/// The pessimistic analysis: one run of the worklist in which every back
/// edge is reachable and every value along a back edge may be anything.
pub fn standard_eclass_analysis(ssa: &SSAGraph, cfg: &CFG) -> (r: (Analyses, AnalysisStatistics))
    requires
        ssa.wf(cfg_view(cfg)),
        cfg@.len() >= 1,
    ensures
        r.0.shaped(cfg_view(cfg)),
        r.0.intervals@.len() == ssa.num_ids(),
        r.1.num_nodes == table_contents(ssa.values).len(),
        r.1.num_blocks == cfg@.len(),
        r.1.num_edges == if edges_upto(cfg_view(cfg), cfg@.len() as int) > usize::MAX {
            usize::MAX as nat
        } else {
            edges_upto(cfg_view(cfg), cfg@.len() as int)
        },
        r.1.num_component_heads == heads_upto(cfg_view(cfg), cfg@.len() as int),
        r.1.num_loop_visits@.len() == 1,
        r.0.unreachable_blocks@[0] == Some(false),
        exists|d: Dependents, p: Analyses|
            #![trigger d.wf(cfg_view(cfg)), pessimistic_round(p, cfg_view(cfg), ssa.nodes())]
            d.wf(cfg_view(cfg)) && lists_nodes(d.nodes@, ssa.nodes()) && pessimistic_round(p, cfg_view(cfg), ssa.nodes())
                && is_round(r.0, Some(&p), cfg_view(cfg), d, ssa.num_ids(), r.1.num_loop_visits@[0]),
        r.1.num_loop_visits@[0] < usize::MAX ==> exists|l: Seq<(SSAValue, ClassId)>|
            #[trigger] lists_nodes(l, ssa.nodes()) && r.0.closed_over(l, cfg_view(cfg)),
        r.1.num_loop_visits@[0] < usize::MAX ==> exists|p: Analyses|
            #[trigger] pessimistic_round(p, cfg_view(cfg), ssa.nodes()) && r.0.graph_stable_where_computed(Some(&p), cfg_view(cfg), ssa.nodes()),
{
    let ghost cv = cfg_view(cfg);
    proof {
        ssa.uf.lemma_wf();
    }
    let n = ssa.uf.num_ids();
    let dependents = dependents(ssa, cfg);
    let mut statistics = graph_statistics(ssa, cfg);
    proof {
        assert forall|j: int| 0 <= j < dependents.nodes@.len() implies value_wf(
            (#[trigger] dependents.nodes@[j]).0,
            n as nat,
            cv,
        ) && (dependents.nodes@[j].1 as int) < n by {
            assert(ssa.nodes().contains_key(dependents.nodes@[j].0));
        }
    }
    let mut top = Analyses::top(n);
    top.shape_for(cfg);
    let mut i: usize = 0;
    while i < dependents.nodes.len()
        invariant
            nodes_in(dependents.nodes@, n as nat, cv),
            top.intervals@.len() == n,
            top.value_number_uf.wf(),
            forall|x: int| 0 <= x < top.intervals@.len() && (#[trigger] top.intervals@[x]) is Some ==> top.intervals@[x]->0.wf(),
            top.unreachable_blocks@.len() == cfg@.len(),
            top.unreachable_edges@.len() == cfg@.len(),
            forall|x: int| 0 <= x < cfg@.len() ==> (#[trigger] top.unreachable_edges@[x])@.len() == cfg@[x]@.len(),
            i <= dependents.nodes@.len(),
            forall|j: int| 0 <= j < i ==> top.intervals@[(#[trigger] dependents.nodes@[j]).1 as int] == Some(full_interval()),
        decreases dependents.nodes@.len() - i,
    {
        let id = dependents.nodes[i].1;
        proof {
            assert((dependents.nodes@[i as int].1 as int) < n);
        }
        top.intervals.set(id, Some(Interval::top()));
        i = i + 1;
    }
    let mut b: usize = 0;
    while b < cfg.len()
        invariant
            b <= cfg@.len(),
            top.unreachable_blocks@.len() == cfg@.len(),
            top.unreachable_edges@.len() == cfg@.len(),
            forall|x: int| 0 <= x < cfg@.len() ==> (#[trigger] top.unreachable_edges@[x])@.len() == cfg@[x]@.len(),
            top.intervals@.len() == n,
            top.value_number_uf.wf(),
            forall|x: int| 0 <= x < top.intervals@.len() && (#[trigger] top.intervals@[x]) is Some ==> top.intervals@[x]->0.wf(),
            forall|j: int| 0 <= j < dependents.nodes@.len() ==> top.intervals@[(#[trigger] dependents.nodes@[j]).1 as int] == Some(full_interval()),
            forall|x: int, k: int| 0 <= x < b && 0 <= k < cfg@[x]@.len() ==> (#[trigger] top.unreachable_edges@[x]@[k]) == Some(false),
        decreases cfg@.len() - b,
    {
        top.unreachable_blocks.set(b, Some(false));
        let mut k: usize = 0;
        while k < cfg[b].len()
            invariant
                b < cfg@.len(),
                k <= cfg@[b as int]@.len(),
                top.unreachable_edges@.len() == cfg@.len(),
                forall|x: int| 0 <= x < cfg@.len() ==> (#[trigger] top.unreachable_edges@[x])@.len() == cfg@[x]@.len(),
                top.unreachable_blocks@.len() == cfg@.len(),
                top.intervals@.len() == n,
                top.value_number_uf.wf(),
                forall|x: int| 0 <= x < top.intervals@.len() && (#[trigger] top.intervals@[x]) is Some ==> top.intervals@[x]->0.wf(),
                forall|x: int, k2: int| 0 <= x < b && 0 <= k2 < cfg@[x]@.len() ==> (#[trigger] top.unreachable_edges@[x]@[k2]) == Some(false),
                forall|k2: int| 0 <= k2 < k ==> (#[trigger] top.unreachable_edges@[b as int]@[k2]) == Some(false),
                forall|j: int| 0 <= j < dependents.nodes@.len() ==> top.intervals@[(#[trigger] dependents.nodes@[j]).1 as int] == Some(full_interval()),
            decreases cfg@[b as int]@.len() - k,
        {
            set_edge(&mut top.unreachable_edges, b, k, Some(false));
            k = k + 1;
        }
        b = b + 1;
    }
    let mut analyses = Analyses::top(n);
    let ghost a_top = analyses;
    let ghost vis0 = statistics.num_loop_visits@;
    let converged = analyses.inner_fixpoint(cfg, &dependents, Some(&top), &mut statistics);
    proof {
        let tr = choose|tr: Seq<(Analyses, Seq<VisitItem>)>|
            #[trigger] visit_run(tr, Some(&top), cv, dependents) && {
                &&& tr.len() == statistics.num_loop_visits@[vis0.len() as int] + 1
                &&& start_state(a_top, tr[0].0, cv)
                &&& tr[0].1 == seq![VisitItem::Block(0)]
                &&& tr.last().0 == analyses
                &&& (converged <==> tr.last().1.len() == 0)
            };
        assert(vis0.len() == 0);
        lemma_is_round(analyses, Some(&top), cfg_view(cfg), dependents, ssa.num_ids(), statistics.num_loop_visits@[0], a_top, tr);
        assert(lists_nodes(dependents.nodes@, ssa.nodes()));
        assert(pessimistic_round(top, cv, ssa.nodes())) by {
            assert forall|v: SSAValue| #[trigger] ssa.nodes().contains_key(v) implies (ssa.nodes()[v] as int) < top.intervals@.len()
                && top.intervals@[ssa.nodes()[v] as int] == Some(full_interval()) by {
                let j = choose|j: int| 0 <= j < dependents.nodes@.len() && #[trigger] dependents.nodes@[j].0 == v;
                assert(top.intervals@[dependents.nodes@[j].1 as int] == Some(full_interval()));
            }
        }
        if statistics.num_loop_visits@[0] < usize::MAX {
            assert(converged);
            assert(analyses.stable_where_computed(Some(&top), cv, dependents.nodes@));
            lemma_graph_fixpoint(analyses, Some(&top), cv, dependents.nodes@, ssa.nodes());
            assert(analyses.graph_stable_where_computed(Some(&top), cv, ssa.nodes()));
            lemma_closed_over(analyses, dependents, cv);
            assert(lists_nodes(dependents.nodes@, ssa.nodes()));
            assert(pessimistic_round(top, cv, ssa.nodes()));
        }
        assert(dependents.wf(cfg_view(cfg)) && lists_nodes(dependents.nodes@, ssa.nodes()) && pessimistic_round(top, cfg_view(cfg), ssa.nodes())
            && is_round(analyses, Some(&top), cfg_view(cfg), dependents, ssa.num_ids(), statistics.num_loop_visits@[0]));
    }
    (analyses, statistics)
}

} // verus!
