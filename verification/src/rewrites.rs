//! Arithmetic rewrites on SSA e-graphs, equality saturation, and optimistic
//! equality saturation, which alternates rewriting with the optimistic
//! analysis.
use vstd::prelude::*;

use crate::analyses::{Analyses, Dependents, outer_fixpoint, outer_run};
use crate::ast::BinaryOp;
use crate::domains::{ClassId, Interval, UnionFind, coarsens, full_interval, is_rep_map, lemma_coarsens_push, lemma_coarsens_trans, lemma_union_coarsens, num_roots, union_spec};
use crate::hashcons::{NodeKey, table_contents};
use crate::ssa::{
    CFG,
    Pred,
    SSAGraph,
    SSAValue,
    canon_value,
    canonicalize_graph,
    canonicalize_value,
    represents,
    uses_below,
    lemma_represents_keep,
    lemma_represents_via,
    cfg_view,
    cfg_wf,
    decode,
    encode,
    encode_value,
    lemma_decode_encode,
    lemma_wf_uf_grows,
    uses_of,
    valid_key,
    value_wf,
};

verus! {

/// Whether class `c` holds value `v`: in the graph, or among the values
/// `new_nodes` adds to it.
pub open spec fn has_node(
    nodes: Map<SSAValue, ClassId>,
    new_nodes: Seq<(SSAValue, ClassId)>,
    v: SSAValue,
    c: ClassId,
) -> bool {
    (nodes.contains_key(v) && nodes[v] == c) || exists|i: int| 0 <= i < new_nodes.len() && new_nodes[i] == (v, c)
}

/// Whether the representatives of `a` and `b` agree.
pub open spec fn merged(rep: Seq<ClassId>, a: ClassId, b: ClassId) -> bool {
    rep[a as int] == rep[b as int]
}

/// Whether class `id` is merged with a class that holds `v`.
pub open spec fn merged_with_node(
    nodes: Map<SSAValue, ClassId>,
    new_nodes: Seq<(SSAValue, ClassId)>,
    rep: Seq<ClassId>,
    id: ClassId,
    v: SSAValue,
) -> bool {
    exists|c: ClassId| #[trigger] has_node(nodes, new_nodes, v, c) && merged(rep, id, c)
}

/// The interval the analysis gives class `c`; the whole range where it gives none.
pub open spec fn iv_or_top(ivs: Seq<Option<Interval>>, c: ClassId) -> Interval {
    if (c as int) < ivs.len() && ivs[c as int] is Some {
        ivs[c as int]->0
    } else {
        full_interval()
    }
}

/// Whether class `c` is known to be the constant `k`: it holds the constant
/// node, or its interval is exactly `k`.
pub open spec fn is_const(em: Seq<Seq<SSAValue>>, ivs: Seq<Option<Interval>>, c: ClassId, k: i64) -> bool {
    em[c as int].contains(SSAValue::Constant(k)) || (iv_or_top(ivs, c).low == k && iv_or_top(ivs, c).high == k)
}

/// Whether `v` is an addition.
pub open spec fn is_add(v: SSAValue) -> bool {
    v is Binary && v->Binary_0 == BinaryOp::Add
}

/// Reassociation of `l + r` (of class `id`) through the additions among the
/// first `upto` values of the class of `l`: `(a + b) + r` is `a + (b + r)`.
pub open spec fn add_l_facts(
    em: Seq<Seq<SSAValue>>,
    nodes: Map<SSAValue, ClassId>,
    nn: Seq<(SSAValue, ClassId)>,
    rep: Seq<ClassId>,
    id: ClassId,
    l: ClassId,
    r: ClassId,
    upto: int,
) -> bool {
    forall|k: int|
        0 <= k < upto && is_add(#[trigger] em[l as int][k]) ==> exists|t: ClassId|
            #[trigger] has_node(nodes, nn, SSAValue::Binary(BinaryOp::Add, em[l as int][k]->Binary_2, r), t)
                && merged_with_node(nodes, nn, rep, id, SSAValue::Binary(BinaryOp::Add, em[l as int][k]->Binary_1, t))
}

/// Reassociation of `l + r` through the additions among the first `upto`
/// values of the class of `r`: `l + (a + b)` is `(l + a) + b`.
pub open spec fn add_r_facts(
    em: Seq<Seq<SSAValue>>,
    nodes: Map<SSAValue, ClassId>,
    nn: Seq<(SSAValue, ClassId)>,
    rep: Seq<ClassId>,
    id: ClassId,
    l: ClassId,
    r: ClassId,
    upto: int,
) -> bool {
    forall|k: int|
        0 <= k < upto && is_add(#[trigger] em[r as int][k]) ==> exists|t: ClassId|
            #[trigger] has_node(nodes, nn, SSAValue::Binary(BinaryOp::Add, l, em[r as int][k]->Binary_1), t)
                && merged_with_node(nodes, nn, rep, id, SSAValue::Binary(BinaryOp::Add, t, em[r as int][k]->Binary_2))
}

/// Distribution of `l * r` (of class `id`) over the additions among the
/// first `upto` values of the class of `l`: `(a + b) * r` is `a * r + b * r`.
pub open spec fn mul_l_facts(
    em: Seq<Seq<SSAValue>>,
    nodes: Map<SSAValue, ClassId>,
    nn: Seq<(SSAValue, ClassId)>,
    rep: Seq<ClassId>,
    id: ClassId,
    l: ClassId,
    r: ClassId,
    upto: int,
) -> bool {
    forall|k: int|
        0 <= k < upto && is_add(#[trigger] em[l as int][k]) ==> exists|a: ClassId, b: ClassId|
            #[trigger] has_node(nodes, nn, SSAValue::Binary(BinaryOp::Mul, em[l as int][k]->Binary_1, r), a)
                && #[trigger] has_node(nodes, nn, SSAValue::Binary(BinaryOp::Mul, em[l as int][k]->Binary_2, r), b)
                && merged_with_node(nodes, nn, rep, id, SSAValue::Binary(BinaryOp::Add, a, b))
}

/// Distribution of `l * r` over the additions among the first `upto` values
/// of the class of `r`: `l * (a + b)` is `l * a + l * b`.
pub open spec fn mul_r_facts(
    em: Seq<Seq<SSAValue>>,
    nodes: Map<SSAValue, ClassId>,
    nn: Seq<(SSAValue, ClassId)>,
    rep: Seq<ClassId>,
    id: ClassId,
    l: ClassId,
    r: ClassId,
    upto: int,
) -> bool {
    forall|k: int|
        0 <= k < upto && is_add(#[trigger] em[r as int][k]) ==> exists|a: ClassId, b: ClassId|
            #[trigger] has_node(nodes, nn, SSAValue::Binary(BinaryOp::Mul, l, em[r as int][k]->Binary_1), a)
                && #[trigger] has_node(nodes, nn, SSAValue::Binary(BinaryOp::Mul, l, em[r as int][k]->Binary_2), b)
                && merged_with_node(nodes, nn, rep, id, SSAValue::Binary(BinaryOp::Add, a, b))
}

/// The cancellation of `l - r` (of class `id`) for the pairs scanned so far
/// (every value of the class of `r` before `jr`, and before `kl` the values
/// of the class of `l` paired with value `jr`): where the value of the class
/// of `l` is `a + b` and the class of `b` holds the value of the class of
/// `r`, the difference is `a`.
pub open spec fn sub_facts(em: Seq<Seq<SSAValue>>, rep: Seq<ClassId>, id: ClassId, l: ClassId, r: ClassId, jr: int, kl: int) -> bool {
    forall|k: int, j: int|
        0 <= k < em[l as int].len() && 0 <= j < em[r as int].len() && (j < jr || (j == jr && k < kl)) && is_add(
            #[trigger] em[l as int][k],
        ) && em[em[l as int][k]->Binary_2 as int].contains(#[trigger] em[r as int][j]) ==> merged(rep, id, em[l as int][k]->Binary_1)
}

/// The rewrites of an addition `l + r` of class `id` with `l != r` and `l`
/// not zero: commutativity, and reassociation through every addition in the
/// classes of `l` and of `r`.
pub open spec fn add_rules(
    em: Seq<Seq<SSAValue>>,
    nodes: Map<SSAValue, ClassId>,
    nn: Seq<(SSAValue, ClassId)>,
    rep: Seq<ClassId>,
    id: ClassId,
    l: ClassId,
    r: ClassId,
) -> bool {
    &&& merged_with_node(nodes, nn, rep, id, SSAValue::Binary(BinaryOp::Add, r, l))
    &&& add_l_facts(em, nodes, nn, rep, id, l, r, em[l as int].len() as int)
    &&& add_r_facts(em, nodes, nn, rep, id, l, r, em[r as int].len() as int)
}

/// The rewrites of a product `l * r` of class `id` with `l` neither two nor
/// one: commutativity, and distribution over every addition in the classes
/// of `l` and of `r`.
pub open spec fn mul_rules(
    em: Seq<Seq<SSAValue>>,
    nodes: Map<SSAValue, ClassId>,
    nn: Seq<(SSAValue, ClassId)>,
    rep: Seq<ClassId>,
    id: ClassId,
    l: ClassId,
    r: ClassId,
) -> bool {
    &&& merged_with_node(nodes, nn, rep, id, SSAValue::Binary(BinaryOp::Mul, r, l))
    &&& mul_l_facts(em, nodes, nn, rep, id, l, r, em[l as int].len() as int)
    &&& mul_r_facts(em, nodes, nn, rep, id, l, r, em[r as int].len() as int)
}

/// The rewrite of a difference `l - r` of class `id` with `l != r`: where
/// the class of `l` holds `a + b` and the class of `b` holds a value of the
/// class of `r`, the difference is `a`.
pub open spec fn sub_rules(em: Seq<Seq<SSAValue>>, rep: Seq<ClassId>, id: ClassId, l: ClassId, r: ClassId) -> bool {
    sub_facts(em, rep, id, l, r, em[r as int].len() as int, 0)
}

/// What the rewrites establish for value `v` of class `id`, given the
/// classes' values `em` and the analysis' intervals `ivs`: the first rule
/// whose pattern and condition match applies.
pub open spec fn rule_holds(
    v: SSAValue,
    id: ClassId,
    em: Seq<Seq<SSAValue>>,
    ivs: Seq<Option<Interval>>,
    nodes: Map<SSAValue, ClassId>,
    nn: Seq<(SSAValue, ClassId)>,
    rep: Seq<ClassId>,
) -> bool {
    match v {
        SSAValue::Binary(op, l, r) => match op {
            BinaryOp::Add => if l == r {
                exists|two: ClassId|
                    #[trigger] has_node(nodes, nn, SSAValue::Constant(2), two) && merged_with_node(
                        nodes,
                        nn,
                        rep,
                        id,
                        SSAValue::Binary(BinaryOp::Mul, two, l),
                    )
            } else if is_const(em, ivs, l, 0) {
                merged(rep, id, r)
            } else {
                add_rules(em, nodes, nn, rep, id, l, r)
            },
            BinaryOp::Mul => if is_const(em, ivs, l, 2) {
                merged_with_node(nodes, nn, rep, id, SSAValue::Binary(BinaryOp::Add, r, r))
            } else if is_const(em, ivs, l, 1) {
                merged(rep, id, r)
            } else {
                mul_rules(em, nodes, nn, rep, id, l, r)
            },
            BinaryOp::Sub => if l == r {
                merged_with_node(nodes, nn, rep, id, SSAValue::Constant(0))
            } else {
                sub_rules(em, rep, id, l, r)
            },
            BinaryOp::EE => l == r ==> merged_with_node(nodes, nn, rep, id, SSAValue::Constant(1)),
            BinaryOp::NE => l == r ==> merged_with_node(nodes, nn, rep, id, SSAValue::Constant(0)),
            _ => true,
        },
        _ => true,
    }
}

/// Whether `q` merges every two ids below the length of `s` that `s`
/// merges: the partition of `s` is no coarser than that of `q`.
pub open spec fn merges_within(s: Seq<ClassId>, q: Seq<ClassId>) -> bool {
    forall|i: int, j: int|
        #![trigger s[i], s[j]]
        0 <= i < s.len() && 0 <= j < s.len() && s[i] == s[j] ==> q[i] == q[j]
}

/// Whether `q` merges class `id` with every class that holds `v`.
pub open spec fn node_bound(
    q: Seq<ClassId>,
    nodes: Map<SSAValue, ClassId>,
    nn: Seq<(SSAValue, ClassId)>,
    id: ClassId,
    v: SSAValue,
) -> bool {
    forall|c: ClassId| #[trigger] has_node(nodes, nn, v, c) ==> q[id as int] == q[c as int]
}

/// A partition that merges `a` with `b` stays coarser after their union.
proof fn lemma_within_union(s: Seq<ClassId>, q: Seq<ClassId>, a: int, b: int)
    requires
        merges_within(s, q),
        0 <= a < s.len(),
        0 <= b < s.len(),
        q[a] == q[b],
    ensures
        merges_within(union_spec(s, a, b), q),
{
    let u = union_spec(s, a, b);
    assert forall|i: int, j: int| 0 <= i < u.len() && 0 <= j < u.len() && u[i] == u[j] implies q[i] == q[j] by {
        assert(s[i] == s[a] ==> q[i] == q[a]);
        assert(s[j] == s[a] ==> q[j] == q[a]);
        assert(s[i] == s[b] ==> q[i] == q[b]);
        assert(s[j] == s[b] ==> q[j] == q[b]);
        assert(s[i] == s[j] ==> q[i] == q[j]);
    }
}

/// A fresh id joins no class.
proof fn lemma_within_push(s: Seq<ClassId>, q: Seq<ClassId>)
    requires
        merges_within(s, q),
        is_rep_map(s),
        s.len() <= usize::MAX,
    ensures
        merges_within(s.push(s.len() as ClassId), q),
{
    let t = s.push(s.len() as ClassId);
    assert forall|i: int, j: int| 0 <= i < t.len() && 0 <= j < t.len() && t[i] == t[j] implies q[i] == q[j] by {
        if i < s.len() && j < s.len() {
            assert(t[i] == s[i] && t[j] == s[j]);
        } else if i < s.len() {
            assert((s[i] as int) < s.len());
        } else if j < s.len() {
            assert((s[j] as int) < s.len());
        }
    }
}

/// `merges_within` carries over an `add_value`, which adds at most a fresh id.
proof fn lemma_within_add(u0: Seq<ClassId>, u1: Seq<ClassId>, q: Seq<ClassId>)
    requires
        merges_within(u0, q),
        is_rep_map(u0),
        u1 == u0 || (u0.len() <= usize::MAX && u1 == u0.push(u0.len() as ClassId)),
    ensures
        merges_within(u1, q),
{
    if u1 != u0 {
        lemma_within_push(u0, q);
    }
}

/// The classes that the rewrites of an addition `l + r` merge its class
/// with: that of `r + l`, and those of the reassociations through the
/// additions in the classes of `l` and of `r`.
pub open spec fn add_target(
    em: Seq<Seq<SSAValue>>,
    nodes: Map<SSAValue, ClassId>,
    nn: Seq<(SSAValue, ClassId)>,
    l: ClassId,
    r: ClassId,
    b: ClassId,
) -> bool {
    ||| has_node(nodes, nn, SSAValue::Binary(BinaryOp::Add, r, l), b)
    ||| exists|k: int, t: ClassId|
        0 <= k < em[l as int].len() && is_add(em[l as int][k]) && has_node(
            nodes,
            nn,
            SSAValue::Binary(BinaryOp::Add, em[l as int][k]->Binary_2, r),
            t,
        ) && #[trigger] has_node(nodes, nn, SSAValue::Binary(BinaryOp::Add, em[l as int][k]->Binary_1, t), b)
    ||| exists|k: int, t: ClassId|
        0 <= k < em[r as int].len() && is_add(em[r as int][k]) && has_node(
            nodes,
            nn,
            SSAValue::Binary(BinaryOp::Add, l, em[r as int][k]->Binary_1),
            t,
        ) && #[trigger] has_node(nodes, nn, SSAValue::Binary(BinaryOp::Add, t, em[r as int][k]->Binary_2), b)
}

/// Whether `q` merges class `id` with every class `add_target` names.
pub open spec fn add_bound(
    q: Seq<ClassId>,
    em: Seq<Seq<SSAValue>>,
    nodes: Map<SSAValue, ClassId>,
    nn: Seq<(SSAValue, ClassId)>,
    id: ClassId,
    l: ClassId,
    r: ClassId,
) -> bool {
    forall|b: ClassId| #[trigger] add_target(em, nodes, nn, l, r, b) ==> q[id as int] == q[b as int]
}

proof fn lemma_add_bound_mono(
    q: Seq<ClassId>,
    em: Seq<Seq<SSAValue>>,
    nodes: Map<SSAValue, ClassId>,
    nn0: Seq<(SSAValue, ClassId)>,
    nn1: Seq<(SSAValue, ClassId)>,
    id: ClassId,
    l: ClassId,
    r: ClassId,
)
    requires
        is_prefix(nn0, nn1),
        add_bound(q, em, nodes, nn1, id, l, r),
    ensures
        add_bound(q, em, nodes, nn0, id, l, r),
{
    assert forall|b: ClassId| #[trigger] add_target(em, nodes, nn0, l, r, b) implies q[id as int] == q[b as int] by {
        if has_node(nodes, nn0, SSAValue::Binary(BinaryOp::Add, r, l), b) {
            lemma_has_mono(nodes, nn0, nn1, SSAValue::Binary(BinaryOp::Add, r, l), b);
            assert(add_target(em, nodes, nn1, l, r, b));
        } else if exists|k: int, t: ClassId|
            0 <= k < em[l as int].len() && is_add(em[l as int][k]) && has_node(
                nodes,
                nn0,
                SSAValue::Binary(BinaryOp::Add, em[l as int][k]->Binary_2, r),
                t,
            ) && #[trigger] has_node(nodes, nn0, SSAValue::Binary(BinaryOp::Add, em[l as int][k]->Binary_1, t), b) {
            let (k, t) = choose|k: int, t: ClassId|
                0 <= k < em[l as int].len() && is_add(em[l as int][k]) && has_node(
                    nodes,
                    nn0,
                    SSAValue::Binary(BinaryOp::Add, em[l as int][k]->Binary_2, r),
                    t,
                ) && #[trigger] has_node(nodes, nn0, SSAValue::Binary(BinaryOp::Add, em[l as int][k]->Binary_1, t), b);
            lemma_has_mono(nodes, nn0, nn1, SSAValue::Binary(BinaryOp::Add, em[l as int][k]->Binary_2, r), t);
            lemma_has_mono(nodes, nn0, nn1, SSAValue::Binary(BinaryOp::Add, em[l as int][k]->Binary_1, t), b);
            assert(add_target(em, nodes, nn1, l, r, b));
        } else {
            let (k, t) = choose|k: int, t: ClassId|
                0 <= k < em[r as int].len() && is_add(em[r as int][k]) && has_node(
                    nodes,
                    nn0,
                    SSAValue::Binary(BinaryOp::Add, l, em[r as int][k]->Binary_1),
                    t,
                ) && #[trigger] has_node(nodes, nn0, SSAValue::Binary(BinaryOp::Add, t, em[r as int][k]->Binary_2), b);
            lemma_has_mono(nodes, nn0, nn1, SSAValue::Binary(BinaryOp::Add, l, em[r as int][k]->Binary_1), t);
            lemma_has_mono(nodes, nn0, nn1, SSAValue::Binary(BinaryOp::Add, t, em[r as int][k]->Binary_2), b);
            assert(add_target(em, nodes, nn1, l, r, b));
        }
    }
}

/// The classes that the rewrites of a product `l * r` merge its class with:
/// that of `r * l`, and those of the distributions over the additions in the
/// classes of `l` and of `r`.
pub open spec fn mul_target(
    em: Seq<Seq<SSAValue>>,
    nodes: Map<SSAValue, ClassId>,
    nn: Seq<(SSAValue, ClassId)>,
    l: ClassId,
    r: ClassId,
    b: ClassId,
) -> bool {
    ||| has_node(nodes, nn, SSAValue::Binary(BinaryOp::Mul, r, l), b)
    ||| exists|k: int, x: ClassId, y: ClassId|
        #![trigger has_node(nodes, nn, SSAValue::Binary(BinaryOp::Mul, em[l as int][k]->Binary_1, r), x), has_node(nodes, nn, SSAValue::Binary(BinaryOp::Add, x, y), b)]
        0 <= k < em[l as int].len() && is_add(em[l as int][k]) && has_node(
            nodes,
            nn,
            SSAValue::Binary(BinaryOp::Mul, em[l as int][k]->Binary_1, r),
            x,
        ) && has_node(nodes, nn, SSAValue::Binary(BinaryOp::Mul, em[l as int][k]->Binary_2, r), y) && has_node(
            nodes,
            nn,
            SSAValue::Binary(BinaryOp::Add, x, y),
            b,
        )
    ||| exists|k: int, x: ClassId, y: ClassId|
        #![trigger has_node(nodes, nn, SSAValue::Binary(BinaryOp::Mul, l, em[r as int][k]->Binary_1), x), has_node(nodes, nn, SSAValue::Binary(BinaryOp::Add, x, y), b)]
        0 <= k < em[r as int].len() && is_add(em[r as int][k]) && has_node(
            nodes,
            nn,
            SSAValue::Binary(BinaryOp::Mul, l, em[r as int][k]->Binary_1),
            x,
        ) && has_node(nodes, nn, SSAValue::Binary(BinaryOp::Mul, l, em[r as int][k]->Binary_2), y) && has_node(
            nodes,
            nn,
            SSAValue::Binary(BinaryOp::Add, x, y),
            b,
        )
}

/// Whether `q` merges class `id` with every class `mul_target` names.
pub open spec fn mul_bound(
    q: Seq<ClassId>,
    em: Seq<Seq<SSAValue>>,
    nodes: Map<SSAValue, ClassId>,
    nn: Seq<(SSAValue, ClassId)>,
    id: ClassId,
    l: ClassId,
    r: ClassId,
) -> bool {
    forall|b: ClassId| #[trigger] mul_target(em, nodes, nn, l, r, b) ==> q[id as int] == q[b as int]
}

proof fn lemma_mul_bound_mono(
    q: Seq<ClassId>,
    em: Seq<Seq<SSAValue>>,
    nodes: Map<SSAValue, ClassId>,
    nn0: Seq<(SSAValue, ClassId)>,
    nn1: Seq<(SSAValue, ClassId)>,
    id: ClassId,
    l: ClassId,
    r: ClassId,
)
    requires
        is_prefix(nn0, nn1),
        mul_bound(q, em, nodes, nn1, id, l, r),
    ensures
        mul_bound(q, em, nodes, nn0, id, l, r),
{
    assert forall|b: ClassId| #[trigger] mul_target(em, nodes, nn0, l, r, b) implies q[id as int] == q[b as int] by {
        if has_node(nodes, nn0, SSAValue::Binary(BinaryOp::Mul, r, l), b) {
            lemma_has_mono(nodes, nn0, nn1, SSAValue::Binary(BinaryOp::Mul, r, l), b);
            assert(mul_target(em, nodes, nn1, l, r, b));
        } else if exists|k: int, x: ClassId, y: ClassId|
            #![trigger has_node(nodes, nn0, SSAValue::Binary(BinaryOp::Mul, em[l as int][k]->Binary_1, r), x), has_node(nodes, nn0, SSAValue::Binary(BinaryOp::Add, x, y), b)]
            0 <= k < em[l as int].len() && is_add(em[l as int][k]) && has_node(
                nodes,
                nn0,
                SSAValue::Binary(BinaryOp::Mul, em[l as int][k]->Binary_1, r),
                x,
            ) && has_node(nodes, nn0, SSAValue::Binary(BinaryOp::Mul, em[l as int][k]->Binary_2, r), y) && has_node(
                nodes,
                nn0,
                SSAValue::Binary(BinaryOp::Add, x, y),
                b,
            ) {
            let (k, x, y) = choose|k: int, x: ClassId, y: ClassId|
                #![trigger has_node(nodes, nn0, SSAValue::Binary(BinaryOp::Mul, em[l as int][k]->Binary_1, r), x), has_node(nodes, nn0, SSAValue::Binary(BinaryOp::Add, x, y), b)]
                0 <= k < em[l as int].len() && is_add(em[l as int][k]) && has_node(
                    nodes,
                    nn0,
                    SSAValue::Binary(BinaryOp::Mul, em[l as int][k]->Binary_1, r),
                    x,
                ) && has_node(nodes, nn0, SSAValue::Binary(BinaryOp::Mul, em[l as int][k]->Binary_2, r), y) && has_node(
                    nodes,
                    nn0,
                    SSAValue::Binary(BinaryOp::Add, x, y),
                    b,
                );
            lemma_has_mono(nodes, nn0, nn1, SSAValue::Binary(BinaryOp::Mul, em[l as int][k]->Binary_1, r), x);
            lemma_has_mono(nodes, nn0, nn1, SSAValue::Binary(BinaryOp::Mul, em[l as int][k]->Binary_2, r), y);
            lemma_has_mono(nodes, nn0, nn1, SSAValue::Binary(BinaryOp::Add, x, y), b);
            assert(mul_target(em, nodes, nn1, l, r, b));
        } else {
            let (k, x, y) = choose|k: int, x: ClassId, y: ClassId|
                #![trigger has_node(nodes, nn0, SSAValue::Binary(BinaryOp::Mul, l, em[r as int][k]->Binary_1), x), has_node(nodes, nn0, SSAValue::Binary(BinaryOp::Add, x, y), b)]
                0 <= k < em[r as int].len() && is_add(em[r as int][k]) && has_node(
                    nodes,
                    nn0,
                    SSAValue::Binary(BinaryOp::Mul, l, em[r as int][k]->Binary_1),
                    x,
                ) && has_node(nodes, nn0, SSAValue::Binary(BinaryOp::Mul, l, em[r as int][k]->Binary_2), y) && has_node(
                    nodes,
                    nn0,
                    SSAValue::Binary(BinaryOp::Add, x, y),
                    b,
                );
            lemma_has_mono(nodes, nn0, nn1, SSAValue::Binary(BinaryOp::Mul, l, em[r as int][k]->Binary_1), x);
            lemma_has_mono(nodes, nn0, nn1, SSAValue::Binary(BinaryOp::Mul, l, em[r as int][k]->Binary_2), y);
            lemma_has_mono(nodes, nn0, nn1, SSAValue::Binary(BinaryOp::Add, x, y), b);
            assert(mul_target(em, nodes, nn1, l, r, b));
        }
    }
}

/// The classes that the cancellation in `l - r` merges its class with: `a`,
/// wherever the class of `l` holds `a + b` and the class of `b` holds a
/// value of the class of `r`.
pub open spec fn sub_target(em: Seq<Seq<SSAValue>>, l: ClassId, r: ClassId, b: ClassId) -> bool {
    exists|k: int, j: int|
        #![trigger em[l as int][k], em[r as int][j]]
        0 <= k < em[l as int].len() && 0 <= j < em[r as int].len() && is_add(em[l as int][k])
            && em[em[l as int][k]->Binary_2 as int].contains(em[r as int][j]) && b == em[l as int][k]->Binary_1
}

/// Whether `q` merges class `id` with every class `sub_target` names.
pub open spec fn sub_bound(q: Seq<ClassId>, em: Seq<Seq<SSAValue>>, id: ClassId, l: ClassId, r: ClassId) -> bool {
    forall|b: ClassId| #[trigger] sub_target(em, l, r, b) ==> q[id as int] == q[b as int]
}

/// The classes that the rewrites merge the class of value `v` with; the
/// first rule whose pattern and condition match applies, as in `rule_holds`.
pub open spec fn rule_target(
    v: SSAValue,
    em: Seq<Seq<SSAValue>>,
    ivs: Seq<Option<Interval>>,
    nodes: Map<SSAValue, ClassId>,
    nn: Seq<(SSAValue, ClassId)>,
    b: ClassId,
) -> bool {
    match v {
        SSAValue::Binary(op, l, r) => match op {
            BinaryOp::Add => if l == r {
                exists|two: ClassId|
                    has_node(nodes, nn, SSAValue::Constant(2), two) && #[trigger] has_node(
                        nodes,
                        nn,
                        SSAValue::Binary(BinaryOp::Mul, two, l),
                        b,
                    )
            } else if is_const(em, ivs, l, 0) {
                b == r
            } else {
                add_target(em, nodes, nn, l, r, b)
            },
            BinaryOp::Mul => if is_const(em, ivs, l, 2) {
                has_node(nodes, nn, SSAValue::Binary(BinaryOp::Add, r, r), b)
            } else if is_const(em, ivs, l, 1) {
                b == r
            } else {
                mul_target(em, nodes, nn, l, r, b)
            },
            BinaryOp::Sub => if l == r {
                has_node(nodes, nn, SSAValue::Constant(0), b)
            } else {
                sub_target(em, l, r, b)
            },
            BinaryOp::EE => l == r && has_node(nodes, nn, SSAValue::Constant(1), b),
            BinaryOp::NE => l == r && has_node(nodes, nn, SSAValue::Constant(0), b),
            _ => false,
        },
        _ => false,
    }
}

/// Whether `q` merges class `id` with every class `rule_target` names for `v`.
pub open spec fn rule_bound(
    q: Seq<ClassId>,
    v: SSAValue,
    id: ClassId,
    em: Seq<Seq<SSAValue>>,
    ivs: Seq<Option<Interval>>,
    nodes: Map<SSAValue, ClassId>,
    nn: Seq<(SSAValue, ClassId)>,
) -> bool {
    forall|b: ClassId| #[trigger] rule_target(v, em, ivs, nodes, nn, b) ==> q[id as int] == q[b as int]
}

proof fn lemma_rule_bound_mono(
    q: Seq<ClassId>,
    v: SSAValue,
    id: ClassId,
    em: Seq<Seq<SSAValue>>,
    ivs: Seq<Option<Interval>>,
    nodes: Map<SSAValue, ClassId>,
    nn0: Seq<(SSAValue, ClassId)>,
    nn1: Seq<(SSAValue, ClassId)>,
)
    requires
        is_prefix(nn0, nn1),
        rule_bound(q, v, id, em, ivs, nodes, nn1),
    ensures
        rule_bound(q, v, id, em, ivs, nodes, nn0),
{
    if let SSAValue::Binary(op, l, r) = v {
        if op == BinaryOp::Add && l != r && !is_const(em, ivs, l, 0) {
            assert(add_bound(q, em, nodes, nn1, id, l, r)) by {
                assert forall|b: ClassId| #[trigger] add_target(em, nodes, nn1, l, r, b) implies q[id as int] == q[b as int] by {
                    assert(rule_target(v, em, ivs, nodes, nn1, b));
                }
            }
            lemma_add_bound_mono(q, em, nodes, nn0, nn1, id, l, r);
        }
        if op == BinaryOp::Mul && !is_const(em, ivs, l, 2) && !is_const(em, ivs, l, 1) {
            assert(mul_bound(q, em, nodes, nn1, id, l, r)) by {
                assert forall|b: ClassId| #[trigger] mul_target(em, nodes, nn1, l, r, b) implies q[id as int] == q[b as int] by {
                    assert(rule_target(v, em, ivs, nodes, nn1, b));
                }
            }
            lemma_mul_bound_mono(q, em, nodes, nn0, nn1, id, l, r);
        }
    }
    assert forall|b: ClassId| #[trigger] rule_target(v, em, ivs, nodes, nn0, b) implies q[id as int] == q[b as int] by {
        if let SSAValue::Binary(op, l, r) = v {
            if op == BinaryOp::Add && l == r {
                let two = choose|two: ClassId|
                    has_node(nodes, nn0, SSAValue::Constant(2), two) && #[trigger] has_node(
                        nodes,
                        nn0,
                        SSAValue::Binary(BinaryOp::Mul, two, l),
                        b,
                    );
                lemma_has_mono(nodes, nn0, nn1, SSAValue::Constant(2), two);
                lemma_has_mono(nodes, nn0, nn1, SSAValue::Binary(BinaryOp::Mul, two, l), b);
                assert(rule_target(v, em, ivs, nodes, nn1, b));
            } else if op == BinaryOp::Add && !is_const(em, ivs, l, 0) {
                assert(add_target(em, nodes, nn0, l, r, b));
            } else if op == BinaryOp::Mul && !is_const(em, ivs, l, 2) && !is_const(em, ivs, l, 1) {
                assert(mul_target(em, nodes, nn0, l, r, b));
            } else {
                if op == BinaryOp::Mul && is_const(em, ivs, l, 2) {
                    lemma_has_mono(nodes, nn0, nn1, SSAValue::Binary(BinaryOp::Add, r, r), b);
                } else if (op == BinaryOp::Sub || op == BinaryOp::NE) && l == r {
                    lemma_has_mono(nodes, nn0, nn1, SSAValue::Constant(0), b);
                } else if op == BinaryOp::EE && l == r {
                    lemma_has_mono(nodes, nn0, nn1, SSAValue::Constant(1), b);
                }
                assert(rule_target(v, em, ivs, nodes, nn1, b));
            }
        }
    }
}

/// Whether `q` merges what a round of rewrites may merge: for each value
/// of the graph, its class with every class that `rule_target` names for it,
/// and each id with the id that value numbering `vn` gives it.
pub open spec fn rewrite_bound(
    q: Seq<ClassId>,
    em: Seq<Seq<SSAValue>>,
    ivs: Seq<Option<Interval>>,
    nodes: Map<SSAValue, ClassId>,
    nn: Seq<(SSAValue, ClassId)>,
    vn: Seq<ClassId>,
) -> bool {
    &&& forall|v: SSAValue| #[trigger] nodes.contains_key(v) ==> rule_bound(q, v, nodes[v], em, ivs, nodes, nn)
    &&& forall|i: int| 0 <= i < vn.len() ==> q[i] == #[trigger] q[vn[i] as int]
}

/// `rule_bound` for the first `upto` entries of a listing of the values.
spec fn entries_bound(
    q: Seq<ClassId>,
    entries: Seq<(SSAValue, ClassId)>,
    upto: int,
    em: Seq<Seq<SSAValue>>,
    ivs: Seq<Option<Interval>>,
    nodes: Map<SSAValue, ClassId>,
    nn: Seq<(SSAValue, ClassId)>,
) -> bool {
    forall|x: int| 0 <= x < upto ==> #[trigger] rule_bound(q, entries[x].0, entries[x].1, em, ivs, nodes, nn)
}

/// Whether `q` merges each of the first `upto` ids with its value number.
spec fn vn_upto(q: Seq<ClassId>, vn: Seq<ClassId>, upto: int) -> bool {
    forall|x: int| 0 <= x < upto ==> q[x] == #[trigger] q[vn[x] as int]
}

/// Whether `w` is a value that the rewrites of an addition `l + r` ask for:
/// `r + l`, or, for an addition `a + b` in the class of `l`, `b + r` and
/// `a + t` with `t` the class of `b + r`; for an addition `a + b` in the
/// class of `r`, `l + a` and `t + b` with `t` the class of `l + a`.
pub open spec fn add_node(
    em: Seq<Seq<SSAValue>>,
    nodes: Map<SSAValue, ClassId>,
    nn: Seq<(SSAValue, ClassId)>,
    l: ClassId,
    r: ClassId,
    w: SSAValue,
) -> bool {
    ||| w == SSAValue::Binary(BinaryOp::Add, r, l)
    ||| exists|k: int|
        0 <= k < em[l as int].len() && is_add(#[trigger] em[l as int][k]) && (w == SSAValue::Binary(
            BinaryOp::Add,
            em[l as int][k]->Binary_2,
            r,
        ) || exists|t: ClassId|
            #[trigger] has_node(nodes, nn, SSAValue::Binary(BinaryOp::Add, em[l as int][k]->Binary_2, r), t) && w
                == SSAValue::Binary(BinaryOp::Add, em[l as int][k]->Binary_1, t))
    ||| exists|k: int|
        0 <= k < em[r as int].len() && is_add(#[trigger] em[r as int][k]) && (w == SSAValue::Binary(
            BinaryOp::Add,
            l,
            em[r as int][k]->Binary_1,
        ) || exists|t: ClassId|
            #[trigger] has_node(nodes, nn, SSAValue::Binary(BinaryOp::Add, l, em[r as int][k]->Binary_1), t) && w
                == SSAValue::Binary(BinaryOp::Add, t, em[r as int][k]->Binary_2))
}

/// Whether `w` is a value that the rewrites of a product `l * r` ask for:
/// `r * l`, or, for an addition `a + b` in the class of `l`, `a * r`, `b * r`
/// and the sum of their classes; for an addition `a + b` in the class of
/// `r`, `l * a`, `l * b` and the sum of their classes.
pub open spec fn mul_node(
    em: Seq<Seq<SSAValue>>,
    nodes: Map<SSAValue, ClassId>,
    nn: Seq<(SSAValue, ClassId)>,
    l: ClassId,
    r: ClassId,
    w: SSAValue,
) -> bool {
    ||| w == SSAValue::Binary(BinaryOp::Mul, r, l)
    ||| exists|k: int|
        0 <= k < em[l as int].len() && is_add(#[trigger] em[l as int][k]) && (w == SSAValue::Binary(
            BinaryOp::Mul,
            em[l as int][k]->Binary_1,
            r,
        ) || w == SSAValue::Binary(BinaryOp::Mul, em[l as int][k]->Binary_2, r) || exists|x: ClassId, y: ClassId|
            #[trigger] has_node(nodes, nn, SSAValue::Binary(BinaryOp::Mul, em[l as int][k]->Binary_1, r), x) && #[trigger] has_node(
                nodes,
                nn,
                SSAValue::Binary(BinaryOp::Mul, em[l as int][k]->Binary_2, r),
                y,
            ) && w == SSAValue::Binary(BinaryOp::Add, x, y))
    ||| exists|k: int|
        0 <= k < em[r as int].len() && is_add(#[trigger] em[r as int][k]) && (w == SSAValue::Binary(
            BinaryOp::Mul,
            l,
            em[r as int][k]->Binary_1,
        ) || w == SSAValue::Binary(BinaryOp::Mul, l, em[r as int][k]->Binary_2) || exists|x: ClassId, y: ClassId|
            #[trigger] has_node(nodes, nn, SSAValue::Binary(BinaryOp::Mul, l, em[r as int][k]->Binary_1), x) && #[trigger] has_node(
                nodes,
                nn,
                SSAValue::Binary(BinaryOp::Mul, l, em[r as int][k]->Binary_2),
                y,
            ) && w == SSAValue::Binary(BinaryOp::Add, x, y))
}

/// Whether `w` is a value that the rewrites of value `v` ask for; the first
/// rule whose pattern and condition match applies, as in `rule_holds`.
pub open spec fn rule_node(
    v: SSAValue,
    em: Seq<Seq<SSAValue>>,
    ivs: Seq<Option<Interval>>,
    nodes: Map<SSAValue, ClassId>,
    nn: Seq<(SSAValue, ClassId)>,
    w: SSAValue,
) -> bool {
    match v {
        SSAValue::Binary(op, l, r) => match op {
            BinaryOp::Add => if l == r {
                w == SSAValue::Constant(2) || exists|two: ClassId|
                    #[trigger] has_node(nodes, nn, SSAValue::Constant(2), two) && w == SSAValue::Binary(BinaryOp::Mul, two, l)
            } else if is_const(em, ivs, l, 0) {
                false
            } else {
                add_node(em, nodes, nn, l, r, w)
            },
            BinaryOp::Mul => if is_const(em, ivs, l, 2) {
                w == SSAValue::Binary(BinaryOp::Add, r, r)
            } else if is_const(em, ivs, l, 1) {
                false
            } else {
                mul_node(em, nodes, nn, l, r, w)
            },
            BinaryOp::Sub => l == r && w == SSAValue::Constant(0),
            BinaryOp::EE => l == r && w == SSAValue::Constant(1),
            BinaryOp::NE => l == r && w == SSAValue::Constant(0),
            _ => false,
        },
        _ => false,
    }
}

/// Whether every value of `nn` is one that a rule asks for on some value of
/// `nodes`, as `rule_node` says.
#[verifier::opaque]
spec fn rules_ask_for(
    em: Seq<Seq<SSAValue>>,
    ivs: Seq<Option<Interval>>,
    nodes: Map<SSAValue, ClassId>,
    nn: Seq<(SSAValue, ClassId)>,
) -> bool {
    forall|k: int| 0 <= k < nn.len() ==> #[trigger] asked_for(em, ivs, nodes, nn, nn[k].0)
}

/// Whether a rule asks for `w` on some value of `nodes`.
spec fn asked_for(
    em: Seq<Seq<SSAValue>>,
    ivs: Seq<Option<Interval>>,
    nodes: Map<SSAValue, ClassId>,
    nn: Seq<(SSAValue, ClassId)>,
    w: SSAValue,
) -> bool {
    exists|v: SSAValue| nodes.contains_key(v) && #[trigger] rule_node(v, em, ivs, nodes, nn, w)
}

/// Extending `nn0` by values that the rules of one value of `nodes` ask for
/// keeps `rules_ask_for`.
proof fn lemma_rules_ask_for_step(
    em: Seq<Seq<SSAValue>>,
    ivs: Seq<Option<Interval>>,
    nodes: Map<SSAValue, ClassId>,
    nn0: Seq<(SSAValue, ClassId)>,
    nn1: Seq<(SSAValue, ClassId)>,
    value: SSAValue,
)
    requires
        rules_ask_for(em, ivs, nodes, nn0),
        is_prefix(nn0, nn1),
        nodes.contains_key(value),
        forall|k: int| nn0.len() <= k < nn1.len() ==> #[trigger] rule_node(value, em, ivs, nodes, nn1, nn1[k].0),
    ensures
        rules_ask_for(em, ivs, nodes, nn1),
{
    reveal(rules_ask_for);
    assert forall|k: int| 0 <= k < nn1.len() implies #[trigger] asked_for(em, ivs, nodes, nn1, nn1[k].0) by {
        if k < nn0.len() {
            assert(nn1.subrange(0, nn0.len() as int)[k] == nn0[k]);
            assert(asked_for(em, ivs, nodes, nn0, nn0[k].0));
            let v = choose|v: SSAValue| nodes.contains_key(v) && #[trigger] rule_node(v, em, ivs, nodes, nn0, nn0[k].0);
            lemma_rule_node_mono(v, em, ivs, nodes, nn0, nn1, nn0[k].0);
            assert(rule_node(v, em, ivs, nodes, nn1, nn1[k].0));
        } else {
            assert(rule_node(value, em, ivs, nodes, nn1, nn1[k].0));
        }
    }
}

proof fn lemma_rule_node_mono(
    v: SSAValue,
    em: Seq<Seq<SSAValue>>,
    ivs: Seq<Option<Interval>>,
    nodes: Map<SSAValue, ClassId>,
    nn0: Seq<(SSAValue, ClassId)>,
    nn1: Seq<(SSAValue, ClassId)>,
    w: SSAValue,
)
    requires
        is_prefix(nn0, nn1),
        rule_node(v, em, ivs, nodes, nn0, w),
    ensures
        rule_node(v, em, ivs, nodes, nn1, w),
{
    if let SSAValue::Binary(op, l, r) = v {
        if op == BinaryOp::Add && l == r {
            if w != SSAValue::Constant(2) {
                let two = choose|two: ClassId|
                    #[trigger] has_node(nodes, nn0, SSAValue::Constant(2), two) && w == SSAValue::Binary(BinaryOp::Mul, two, l);
                lemma_has_mono(nodes, nn0, nn1, SSAValue::Constant(2), two);
            }
        } else if op == BinaryOp::Add && !is_const(em, ivs, l, 0) {
            lemma_add_node_mono(em, nodes, nn0, nn1, l, r, w);
        } else if op == BinaryOp::Mul && !is_const(em, ivs, l, 2) && !is_const(em, ivs, l, 1) {
            lemma_mul_node_mono(em, nodes, nn0, nn1, l, r, w);
        }
    }
}

proof fn lemma_add_node_mono(
    em: Seq<Seq<SSAValue>>,
    nodes: Map<SSAValue, ClassId>,
    nn0: Seq<(SSAValue, ClassId)>,
    nn1: Seq<(SSAValue, ClassId)>,
    l: ClassId,
    r: ClassId,
    w: SSAValue,
)
    requires
        is_prefix(nn0, nn1),
        add_node(em, nodes, nn0, l, r, w),
    ensures
        add_node(em, nodes, nn1, l, r, w),
{
    if w == SSAValue::Binary(BinaryOp::Add, r, l) {
    } else if exists|k: int|
        0 <= k < em[l as int].len() && is_add(#[trigger] em[l as int][k]) && (w == SSAValue::Binary(
            BinaryOp::Add,
            em[l as int][k]->Binary_2,
            r,
        ) || exists|t: ClassId|
            #[trigger] has_node(nodes, nn0, SSAValue::Binary(BinaryOp::Add, em[l as int][k]->Binary_2, r), t) && w
                == SSAValue::Binary(BinaryOp::Add, em[l as int][k]->Binary_1, t)) {
        let k = choose|k: int|
            0 <= k < em[l as int].len() && is_add(#[trigger] em[l as int][k]) && (w == SSAValue::Binary(
                BinaryOp::Add,
                em[l as int][k]->Binary_2,
                r,
            ) || exists|t: ClassId|
                #[trigger] has_node(nodes, nn0, SSAValue::Binary(BinaryOp::Add, em[l as int][k]->Binary_2, r), t) && w
                    == SSAValue::Binary(BinaryOp::Add, em[l as int][k]->Binary_1, t));
        if w != SSAValue::Binary(BinaryOp::Add, em[l as int][k]->Binary_2, r) {
            let t = choose|t: ClassId|
                #[trigger] has_node(nodes, nn0, SSAValue::Binary(BinaryOp::Add, em[l as int][k]->Binary_2, r), t) && w
                    == SSAValue::Binary(BinaryOp::Add, em[l as int][k]->Binary_1, t);
            lemma_has_mono(nodes, nn0, nn1, SSAValue::Binary(BinaryOp::Add, em[l as int][k]->Binary_2, r), t);
        }
    } else {
        let k = choose|k: int|
            0 <= k < em[r as int].len() && is_add(#[trigger] em[r as int][k]) && (w == SSAValue::Binary(
                BinaryOp::Add,
                l,
                em[r as int][k]->Binary_1,
            ) || exists|t: ClassId|
                #[trigger] has_node(nodes, nn0, SSAValue::Binary(BinaryOp::Add, l, em[r as int][k]->Binary_1), t) && w
                    == SSAValue::Binary(BinaryOp::Add, t, em[r as int][k]->Binary_2));
        if w != SSAValue::Binary(BinaryOp::Add, l, em[r as int][k]->Binary_1) {
            let t = choose|t: ClassId|
                #[trigger] has_node(nodes, nn0, SSAValue::Binary(BinaryOp::Add, l, em[r as int][k]->Binary_1), t) && w
                    == SSAValue::Binary(BinaryOp::Add, t, em[r as int][k]->Binary_2);
            lemma_has_mono(nodes, nn0, nn1, SSAValue::Binary(BinaryOp::Add, l, em[r as int][k]->Binary_1), t);
        }
    }
}

proof fn lemma_mul_node_mono(
    em: Seq<Seq<SSAValue>>,
    nodes: Map<SSAValue, ClassId>,
    nn0: Seq<(SSAValue, ClassId)>,
    nn1: Seq<(SSAValue, ClassId)>,
    l: ClassId,
    r: ClassId,
    w: SSAValue,
)
    requires
        is_prefix(nn0, nn1),
        mul_node(em, nodes, nn0, l, r, w),
    ensures
        mul_node(em, nodes, nn1, l, r, w),
{
    if w == SSAValue::Binary(BinaryOp::Mul, r, l) {
    } else if exists|k: int|
        0 <= k < em[l as int].len() && is_add(#[trigger] em[l as int][k]) && (w == SSAValue::Binary(
            BinaryOp::Mul,
            em[l as int][k]->Binary_1,
            r,
        ) || w == SSAValue::Binary(BinaryOp::Mul, em[l as int][k]->Binary_2, r) || exists|x: ClassId, y: ClassId|
            #[trigger] has_node(nodes, nn0, SSAValue::Binary(BinaryOp::Mul, em[l as int][k]->Binary_1, r), x) && #[trigger] has_node(
                nodes,
                nn0,
                SSAValue::Binary(BinaryOp::Mul, em[l as int][k]->Binary_2, r),
                y,
            ) && w == SSAValue::Binary(BinaryOp::Add, x, y)) {
        let k = choose|k: int|
            0 <= k < em[l as int].len() && is_add(#[trigger] em[l as int][k]) && (w == SSAValue::Binary(
                BinaryOp::Mul,
                em[l as int][k]->Binary_1,
                r,
            ) || w == SSAValue::Binary(BinaryOp::Mul, em[l as int][k]->Binary_2, r) || exists|x: ClassId, y: ClassId|
                #[trigger] has_node(nodes, nn0, SSAValue::Binary(BinaryOp::Mul, em[l as int][k]->Binary_1, r), x) && #[trigger] has_node(
                    nodes,
                    nn0,
                    SSAValue::Binary(BinaryOp::Mul, em[l as int][k]->Binary_2, r),
                    y,
                ) && w == SSAValue::Binary(BinaryOp::Add, x, y));
        if w != SSAValue::Binary(BinaryOp::Mul, em[l as int][k]->Binary_1, r) && w != SSAValue::Binary(
            BinaryOp::Mul,
            em[l as int][k]->Binary_2,
            r,
        ) {
            let (x, y) = choose|x: ClassId, y: ClassId|
                #[trigger] has_node(nodes, nn0, SSAValue::Binary(BinaryOp::Mul, em[l as int][k]->Binary_1, r), x) && #[trigger] has_node(
                    nodes,
                    nn0,
                    SSAValue::Binary(BinaryOp::Mul, em[l as int][k]->Binary_2, r),
                    y,
                ) && w == SSAValue::Binary(BinaryOp::Add, x, y);
            lemma_has_mono(nodes, nn0, nn1, SSAValue::Binary(BinaryOp::Mul, em[l as int][k]->Binary_1, r), x);
            lemma_has_mono(nodes, nn0, nn1, SSAValue::Binary(BinaryOp::Mul, em[l as int][k]->Binary_2, r), y);
        }
    } else {
        let k = choose|k: int|
            0 <= k < em[r as int].len() && is_add(#[trigger] em[r as int][k]) && (w == SSAValue::Binary(
                BinaryOp::Mul,
                l,
                em[r as int][k]->Binary_1,
            ) || w == SSAValue::Binary(BinaryOp::Mul, l, em[r as int][k]->Binary_2) || exists|x: ClassId, y: ClassId|
                #[trigger] has_node(nodes, nn0, SSAValue::Binary(BinaryOp::Mul, l, em[r as int][k]->Binary_1), x) && #[trigger] has_node(
                    nodes,
                    nn0,
                    SSAValue::Binary(BinaryOp::Mul, l, em[r as int][k]->Binary_2),
                    y,
                ) && w == SSAValue::Binary(BinaryOp::Add, x, y));
        if w != SSAValue::Binary(BinaryOp::Mul, l, em[r as int][k]->Binary_1) && w != SSAValue::Binary(
            BinaryOp::Mul,
            l,
            em[r as int][k]->Binary_2,
        ) {
            let (x, y) = choose|x: ClassId, y: ClassId|
                #[trigger] has_node(nodes, nn0, SSAValue::Binary(BinaryOp::Mul, l, em[r as int][k]->Binary_1), x) && #[trigger] has_node(
                    nodes,
                    nn0,
                    SSAValue::Binary(BinaryOp::Mul, l, em[r as int][k]->Binary_2),
                    y,
                ) && w == SSAValue::Binary(BinaryOp::Add, x, y);
            lemma_has_mono(nodes, nn0, nn1, SSAValue::Binary(BinaryOp::Mul, l, em[r as int][k]->Binary_1), x);
            lemma_has_mono(nodes, nn0, nn1, SSAValue::Binary(BinaryOp::Mul, l, em[r as int][k]->Binary_2), y);
        }
    }
}

/// The classes of `em` and of its values' operands are below `n`.
pub open spec fn em_bounded(em: Seq<Seq<SSAValue>>, n: nat) -> bool {
    &&& em.len() <= n
    &&& forall|c: int, k: int|
        0 <= c < em.len() && 0 <= k < em[c].len() ==> forall|x: int|
            0 <= x < uses_of(#[trigger] em[c][k]).len() ==> (#[trigger] uses_of(em[c][k])[x] as int) < em.len()
}

/// The classes of the graph and of the added values are below `n`.
pub open spec fn ids_bounded(nodes: Map<SSAValue, ClassId>, nn: Seq<(SSAValue, ClassId)>, n: nat) -> bool {
    &&& forall|v: SSAValue| #[trigger] nodes.contains_key(v) ==> (nodes[v] as int) < n
    &&& forall|k: int| 0 <= k < nn.len() ==> (#[trigger] nn[k].1 as int) < n
}

/// Whether `a` is a prefix of `b`.
pub open spec fn is_prefix(a: Seq<(SSAValue, ClassId)>, b: Seq<(SSAValue, ClassId)>) -> bool {
    a.len() <= b.len() && b.subrange(0, a.len() as int) == a
}

proof fn lemma_has_mono(
    nodes: Map<SSAValue, ClassId>,
    nn0: Seq<(SSAValue, ClassId)>,
    nn1: Seq<(SSAValue, ClassId)>,
    v: SSAValue,
    c: ClassId,
)
    requires
        has_node(nodes, nn0, v, c),
        is_prefix(nn0, nn1),
    ensures
        has_node(nodes, nn1, v, c),
{
    if !(nodes.contains_key(v) && nodes[v] == c) {
        let i = choose|i: int| 0 <= i < nn0.len() && nn0[i] == (v, c);
        assert(nn1.subrange(0, nn0.len() as int)[i] == nn1[i]);
    }
}

proof fn lemma_has_bounded(nodes: Map<SSAValue, ClassId>, nn: Seq<(SSAValue, ClassId)>, n: nat, v: SSAValue, c: ClassId)
    requires
        has_node(nodes, nn, v, c),
        ids_bounded(nodes, nn, n),
    ensures
        (c as int) < n,
{
    if !(nodes.contains_key(v) && nodes[v] == c) {
        let i = choose|i: int| 0 <= i < nn.len() && nn[i] == (v, c);
        assert((nn[i].1 as int) < n);
    }
}

proof fn lemma_mwn_mono(
    nodes: Map<SSAValue, ClassId>,
    nn0: Seq<(SSAValue, ClassId)>,
    rep0: Seq<ClassId>,
    nn1: Seq<(SSAValue, ClassId)>,
    rep1: Seq<ClassId>,
    id: ClassId,
    v: SSAValue,
)
    requires
        merged_with_node(nodes, nn0, rep0, id, v),
        is_prefix(nn0, nn1),
        coarsens(rep0, rep1),
        ids_bounded(nodes, nn0, rep0.len()),
        (id as int) < rep0.len(),
    ensures
        merged_with_node(nodes, nn1, rep1, id, v),
{
    let c = choose|c: ClassId| #[trigger] has_node(nodes, nn0, v, c) && merged(rep0, id, c);
    lemma_has_mono(nodes, nn0, nn1, v, c);
    lemma_has_bounded(nodes, nn0, rep0.len(), v, c);
    assert(rep0[id as int] == rep0[c as int]);
    assert(has_node(nodes, nn1, v, c) && merged(rep1, id, c));
}

proof fn lemma_merged_mono(rep0: Seq<ClassId>, rep1: Seq<ClassId>, a: ClassId, b: ClassId)
    requires
        merged(rep0, a, b),
        coarsens(rep0, rep1),
        (a as int) < rep0.len(),
        (b as int) < rep0.len(),
    ensures
        merged(rep1, a, b),
{
    assert(rep0[a as int] == rep0[b as int]);
}

proof fn lemma_add_l_mono(
    em: Seq<Seq<SSAValue>>,
    nodes: Map<SSAValue, ClassId>,
    nn0: Seq<(SSAValue, ClassId)>,
    rep0: Seq<ClassId>,
    nn1: Seq<(SSAValue, ClassId)>,
    rep1: Seq<ClassId>,
    id: ClassId,
    l: ClassId,
    r: ClassId,
    upto: int,
)
    requires
        add_l_facts(em, nodes, nn0, rep0, id, l, r, upto),
        is_prefix(nn0, nn1),
        coarsens(rep0, rep1),
        ids_bounded(nodes, nn0, rep0.len()),
        (id as int) < rep0.len(),
    ensures
        add_l_facts(em, nodes, nn1, rep1, id, l, r, upto),
{
    assert forall|k: int| 0 <= k < upto && is_add(#[trigger] em[l as int][k]) implies exists|t: ClassId|
        #[trigger] has_node(nodes, nn1, SSAValue::Binary(BinaryOp::Add, em[l as int][k]->Binary_2, r), t)
            && merged_with_node(nodes, nn1, rep1, id, SSAValue::Binary(BinaryOp::Add, em[l as int][k]->Binary_1, t)) by {
        let w = em[l as int][k];
        let t = choose|t: ClassId|
            #[trigger] has_node(nodes, nn0, SSAValue::Binary(BinaryOp::Add, w->Binary_2, r), t)
                && merged_with_node(nodes, nn0, rep0, id, SSAValue::Binary(BinaryOp::Add, w->Binary_1, t));
        lemma_has_mono(nodes, nn0, nn1, SSAValue::Binary(BinaryOp::Add, w->Binary_2, r), t);
        lemma_mwn_mono(nodes, nn0, rep0, nn1, rep1, id, SSAValue::Binary(BinaryOp::Add, w->Binary_1, t));
    }
}

proof fn lemma_add_r_mono(
    em: Seq<Seq<SSAValue>>,
    nodes: Map<SSAValue, ClassId>,
    nn0: Seq<(SSAValue, ClassId)>,
    rep0: Seq<ClassId>,
    nn1: Seq<(SSAValue, ClassId)>,
    rep1: Seq<ClassId>,
    id: ClassId,
    l: ClassId,
    r: ClassId,
    upto: int,
)
    requires
        add_r_facts(em, nodes, nn0, rep0, id, l, r, upto),
        is_prefix(nn0, nn1),
        coarsens(rep0, rep1),
        ids_bounded(nodes, nn0, rep0.len()),
        (id as int) < rep0.len(),
    ensures
        add_r_facts(em, nodes, nn1, rep1, id, l, r, upto),
{
    assert forall|k: int| 0 <= k < upto && is_add(#[trigger] em[r as int][k]) implies exists|t: ClassId|
        #[trigger] has_node(nodes, nn1, SSAValue::Binary(BinaryOp::Add, l, em[r as int][k]->Binary_1), t)
            && merged_with_node(nodes, nn1, rep1, id, SSAValue::Binary(BinaryOp::Add, t, em[r as int][k]->Binary_2)) by {
        let w = em[r as int][k];
        let t = choose|t: ClassId|
            #[trigger] has_node(nodes, nn0, SSAValue::Binary(BinaryOp::Add, l, w->Binary_1), t)
                && merged_with_node(nodes, nn0, rep0, id, SSAValue::Binary(BinaryOp::Add, t, w->Binary_2));
        lemma_has_mono(nodes, nn0, nn1, SSAValue::Binary(BinaryOp::Add, l, w->Binary_1), t);
        lemma_mwn_mono(nodes, nn0, rep0, nn1, rep1, id, SSAValue::Binary(BinaryOp::Add, t, w->Binary_2));
    }
}

proof fn lemma_mul_l_mono(
    em: Seq<Seq<SSAValue>>,
    nodes: Map<SSAValue, ClassId>,
    nn0: Seq<(SSAValue, ClassId)>,
    rep0: Seq<ClassId>,
    nn1: Seq<(SSAValue, ClassId)>,
    rep1: Seq<ClassId>,
    id: ClassId,
    l: ClassId,
    r: ClassId,
    upto: int,
)
    requires
        mul_l_facts(em, nodes, nn0, rep0, id, l, r, upto),
        is_prefix(nn0, nn1),
        coarsens(rep0, rep1),
        ids_bounded(nodes, nn0, rep0.len()),
        (id as int) < rep0.len(),
    ensures
        mul_l_facts(em, nodes, nn1, rep1, id, l, r, upto),
{
    assert forall|k: int| 0 <= k < upto && is_add(#[trigger] em[l as int][k]) implies exists|a: ClassId, b: ClassId|
        #[trigger] has_node(nodes, nn1, SSAValue::Binary(BinaryOp::Mul, em[l as int][k]->Binary_1, r), a)
            && #[trigger] has_node(nodes, nn1, SSAValue::Binary(BinaryOp::Mul, em[l as int][k]->Binary_2, r), b)
            && merged_with_node(nodes, nn1, rep1, id, SSAValue::Binary(BinaryOp::Add, a, b)) by {
        let w = em[l as int][k];
        let (a, b) = choose|a: ClassId, b: ClassId|
            #[trigger] has_node(nodes, nn0, SSAValue::Binary(BinaryOp::Mul, w->Binary_1, r), a)
                && #[trigger] has_node(nodes, nn0, SSAValue::Binary(BinaryOp::Mul, w->Binary_2, r), b)
                && merged_with_node(nodes, nn0, rep0, id, SSAValue::Binary(BinaryOp::Add, a, b));
        lemma_has_mono(nodes, nn0, nn1, SSAValue::Binary(BinaryOp::Mul, w->Binary_1, r), a);
        lemma_has_mono(nodes, nn0, nn1, SSAValue::Binary(BinaryOp::Mul, w->Binary_2, r), b);
        lemma_mwn_mono(nodes, nn0, rep0, nn1, rep1, id, SSAValue::Binary(BinaryOp::Add, a, b));
    }
}

proof fn lemma_mul_r_mono(
    em: Seq<Seq<SSAValue>>,
    nodes: Map<SSAValue, ClassId>,
    nn0: Seq<(SSAValue, ClassId)>,
    rep0: Seq<ClassId>,
    nn1: Seq<(SSAValue, ClassId)>,
    rep1: Seq<ClassId>,
    id: ClassId,
    l: ClassId,
    r: ClassId,
    upto: int,
)
    requires
        mul_r_facts(em, nodes, nn0, rep0, id, l, r, upto),
        is_prefix(nn0, nn1),
        coarsens(rep0, rep1),
        ids_bounded(nodes, nn0, rep0.len()),
        (id as int) < rep0.len(),
    ensures
        mul_r_facts(em, nodes, nn1, rep1, id, l, r, upto),
{
    assert forall|k: int| 0 <= k < upto && is_add(#[trigger] em[r as int][k]) implies exists|a: ClassId, b: ClassId|
        #[trigger] has_node(nodes, nn1, SSAValue::Binary(BinaryOp::Mul, l, em[r as int][k]->Binary_1), a)
            && #[trigger] has_node(nodes, nn1, SSAValue::Binary(BinaryOp::Mul, l, em[r as int][k]->Binary_2), b)
            && merged_with_node(nodes, nn1, rep1, id, SSAValue::Binary(BinaryOp::Add, a, b)) by {
        let w = em[r as int][k];
        let (a, b) = choose|a: ClassId, b: ClassId|
            #[trigger] has_node(nodes, nn0, SSAValue::Binary(BinaryOp::Mul, l, w->Binary_1), a)
                && #[trigger] has_node(nodes, nn0, SSAValue::Binary(BinaryOp::Mul, l, w->Binary_2), b)
                && merged_with_node(nodes, nn0, rep0, id, SSAValue::Binary(BinaryOp::Add, a, b));
        lemma_has_mono(nodes, nn0, nn1, SSAValue::Binary(BinaryOp::Mul, l, w->Binary_1), a);
        lemma_has_mono(nodes, nn0, nn1, SSAValue::Binary(BinaryOp::Mul, l, w->Binary_2), b);
        lemma_mwn_mono(nodes, nn0, rep0, nn1, rep1, id, SSAValue::Binary(BinaryOp::Add, a, b));
    }
}

proof fn lemma_sub_mono(
    em: Seq<Seq<SSAValue>>,
    rep0: Seq<ClassId>,
    rep1: Seq<ClassId>,
    id: ClassId,
    l: ClassId,
    r: ClassId,
    jr: int,
    kl: int,
)
    requires
        sub_facts(em, rep0, id, l, r, jr, kl),
        coarsens(rep0, rep1),
        em_bounded(em, rep0.len()),
        (id as int) < rep0.len(),
        (l as int) < em.len(),
    ensures
        sub_facts(em, rep1, id, l, r, jr, kl),
{
    assert forall|k: int, j: int|
        0 <= k < em[l as int].len() && 0 <= j < em[r as int].len() && (j < jr || (j == jr && k < kl)) && is_add(
            #[trigger] em[l as int][k],
        ) && em[em[l as int][k]->Binary_2 as int].contains(#[trigger] em[r as int][j]) implies merged(rep1, id, em[l as int][k]->Binary_1) by {
        let w = em[l as int][k];
        assert(uses_of(w)[0] == w->Binary_1);
        lemma_merged_mono(rep0, rep1, id, w->Binary_1);
    }
}

/// The facts of `rule_holds` persist as classes merge and values are added.
proof fn lemma_rule_mono(
    v: SSAValue,
    id: ClassId,
    em: Seq<Seq<SSAValue>>,
    ivs: Seq<Option<Interval>>,
    nodes: Map<SSAValue, ClassId>,
    nn0: Seq<(SSAValue, ClassId)>,
    rep0: Seq<ClassId>,
    nn1: Seq<(SSAValue, ClassId)>,
    rep1: Seq<ClassId>,
)
    requires
        rule_holds(v, id, em, ivs, nodes, nn0, rep0),
        is_prefix(nn0, nn1),
        coarsens(rep0, rep1),
        ids_bounded(nodes, nn0, rep0.len()),
        em_bounded(em, rep0.len()),
        (id as int) < rep0.len(),
        forall|x: int| 0 <= x < uses_of(v).len() ==> (#[trigger] uses_of(v)[x] as int) < em.len(),
    ensures
        rule_holds(v, id, em, ivs, nodes, nn1, rep1),
{
    match v {
        SSAValue::Binary(op, l, r) => {
            assert(uses_of(v)[0] == l && uses_of(v)[1] == r);
            match op {
                BinaryOp::Add => {
                    if l == r {
                        let two = choose|two: ClassId|
                            #[trigger] has_node(nodes, nn0, SSAValue::Constant(2), two) && merged_with_node(
                                nodes,
                                nn0,
                                rep0,
                                id,
                                SSAValue::Binary(BinaryOp::Mul, two, l),
                            );
                        lemma_has_mono(nodes, nn0, nn1, SSAValue::Constant(2), two);
                        lemma_mwn_mono(nodes, nn0, rep0, nn1, rep1, id, SSAValue::Binary(BinaryOp::Mul, two, l));
                    } else if is_const(em, ivs, l, 0) {
                        lemma_merged_mono(rep0, rep1, id, r);
                    } else {
                        lemma_mwn_mono(nodes, nn0, rep0, nn1, rep1, id, SSAValue::Binary(BinaryOp::Add, r, l));
                        lemma_add_l_mono(em, nodes, nn0, rep0, nn1, rep1, id, l, r, em[l as int].len() as int);
                        lemma_add_r_mono(em, nodes, nn0, rep0, nn1, rep1, id, l, r, em[r as int].len() as int);
                    }
                },
                BinaryOp::Mul => {
                    if is_const(em, ivs, l, 2) {
                        lemma_mwn_mono(nodes, nn0, rep0, nn1, rep1, id, SSAValue::Binary(BinaryOp::Add, r, r));
                    } else if is_const(em, ivs, l, 1) {
                        lemma_merged_mono(rep0, rep1, id, r);
                    } else {
                        lemma_mwn_mono(nodes, nn0, rep0, nn1, rep1, id, SSAValue::Binary(BinaryOp::Mul, r, l));
                        lemma_mul_l_mono(em, nodes, nn0, rep0, nn1, rep1, id, l, r, em[l as int].len() as int);
                        lemma_mul_r_mono(em, nodes, nn0, rep0, nn1, rep1, id, l, r, em[r as int].len() as int);
                    }
                },
                BinaryOp::Sub => {
                    if l == r {
                        lemma_mwn_mono(nodes, nn0, rep0, nn1, rep1, id, SSAValue::Constant(0));
                    } else {
                        lemma_sub_mono(em, rep0, rep1, id, l, r, em[r as int].len() as int, 0);
                    }
                },
                BinaryOp::EE => {
                    if l == r {
                        lemma_mwn_mono(nodes, nn0, rep0, nn1, rep1, id, SSAValue::Constant(1));
                    }
                },
                BinaryOp::NE => {
                    if l == r {
                        lemma_mwn_mono(nodes, nn0, rep0, nn1, rep1, id, SSAValue::Constant(0));
                    }
                },
                _ => {},
            }
        },
        _ => {},
    }
}

/// The classes' values as sequences.
pub open spec fn em_view(em: &Vec<Vec<SSAValue>>) -> Seq<Seq<SSAValue>> {
    em@.map_values(|v: Vec<SSAValue>| v@)
}

/// What a rewrite step keeps: the graph holds the values `nodes` it started
/// with (all of classes below `n0`), its union-find is well formed with one
/// class per old id and per added value, and each added value has the next
/// fresh class, is a constant or an operation on earlier classes, and was
/// not in the graph.
pub open spec fn step_inv(ssa: SSAGraph, nodes: Map<SSAValue, ClassId>, nn: Seq<(SSAValue, ClassId)>, n0: nat) -> bool {
    &&& ssa.nodes() == nodes
    &&& ssa.uf.wf()
    &&& ssa.keys_valid()
    &&& ssa.uf@.len() == n0 + nn.len()
    &&& forall|v: SSAValue| #[trigger] nodes.contains_key(v) ==> (nodes[v] as int) < n0
    &&& forall|k: int|
        0 <= k < nn.len() ==> (#[trigger] nn[k]).1 == n0 + k && (nn[k].0 is Constant || nn[k].0 is Binary) && forall|x: int|
            0 <= x < uses_of(nn[k].0).len() ==> (#[trigger] uses_of(nn[k].0)[x] as int) < n0 + k
    &&& forall|k: int| 0 <= k < nn.len() ==> !nodes.contains_key((#[trigger] nn[k]).0)
}

proof fn lemma_step_bounded(ssa: SSAGraph, nodes: Map<SSAValue, ClassId>, nn: Seq<(SSAValue, ClassId)>, n0: nat)
    requires
        step_inv(ssa, nodes, nn, n0),
    ensures
        ids_bounded(nodes, nn, ssa.uf@.len()),
        is_rep_map(ssa.uf@),
{
    ssa.uf.lemma_wf();
    assert forall|k: int| 0 <= k < nn.len() implies (#[trigger] nn[k].1 as int) < ssa.uf@.len() by {
        assert(nn[k].1 == n0 + k);
    }
}

proof fn lemma_prefix_refl(s: Seq<(SSAValue, ClassId)>)
    ensures
        is_prefix(s, s),
{
    assert(s.subrange(0, s.len() as int) =~= s);
}

proof fn lemma_prefix_trans(a: Seq<(SSAValue, ClassId)>, b: Seq<(SSAValue, ClassId)>, c: Seq<(SSAValue, ClassId)>)
    requires
        is_prefix(a, b),
        is_prefix(b, c),
    ensures
        is_prefix(a, c),
{
    assert(c.subrange(0, a.len() as int) =~= b.subrange(0, a.len() as int));
}

/// Whether `v` is among the values of `vals`.
fn vec_contains(vals: &Vec<SSAValue>, x: SSAValue) -> (r: bool)
    ensures
        r == vals@.contains(x),
{
    let mut i: usize = 0;
    while i < vals.len()
        invariant
            i <= vals@.len(),
            forall|j: int| 0 <= j < i ==> vals@[j] != x,
        decreases vals@.len() - i,
    {
        if vals[i] == x {
            proof {
                assert(vals@[i as int] == x);
            }
            return true;
        }
        i = i + 1;
    }
    false
}

/// Whether class `c` is known to be the constant `k`.
fn is_constant(em: &Vec<Vec<SSAValue>>, analyses: &Analyses, c: ClassId, k: i64) -> (r: bool)
    requires
        c < em@.len(),
    ensures
        r == is_const(em_view(em), analyses.intervals@, c, k),
{
    if vec_contains(&em[c], SSAValue::Constant(k)) {
        return true;
    }
    let iv = if c < analyses.intervals.len() {
        match analyses.intervals[c] {
            Some(x) => x,
            None => Interval::top(),
        }
    } else {
        Interval::top()
    };
    iv.is_cons(k)
}

/// The class of `value`: the graph's class for it, or a new class recorded
/// in `nn` when the graph does not hold it.
fn add_value(
    ssa: &mut SSAGraph,
    nn: &mut Vec<(SSAValue, ClassId)>,
    value: SSAValue,
    Ghost(nodes): Ghost<Map<SSAValue, ClassId>>,
    Ghost(n0): Ghost<nat>,
) -> (c: ClassId)
    requires
        step_inv(*old(ssa), nodes, old(nn)@, n0),
        value is Constant || value is Binary,
        forall|x: int| 0 <= x < uses_of(value).len() ==> (#[trigger] uses_of(value)[x] as int) < old(ssa).uf@.len(),
    ensures
        step_inv(*final(ssa), nodes, final(nn)@, n0),
        final(ssa).roots == old(ssa).roots,
        final(ssa).values == old(ssa).values,
        is_prefix(old(nn)@, final(nn)@),
        coarsens(old(ssa).uf@, final(ssa).uf@),
        has_node(nodes, final(nn)@, value, c),
        (c as int) < final(ssa).uf@.len(),
        final(ssa).uf@ == old(ssa).uf@ || (old(ssa).uf@.len() <= usize::MAX && final(ssa).uf@ == old(ssa).uf@.push(
            old(ssa).uf@.len() as ClassId,
        )),
        final(nn)@ == old(nn)@ || final(nn)@ == old(nn)@.push((value, c)),
{
    proof {
        lemma_prefix_refl(nn@);
        lemma_step_bounded(*ssa, nodes, nn@, n0);
    }
    match ssa.lookup(value) {
        Some(id) => id,
        None => {
            let ghost nn0 = nn@;
            let ghost uf0 = ssa.uf@;
            let id = ssa.uf.mk();
            nn.push((value, id));
            proof {
                lemma_coarsens_push(uf0, id);
                assert(nn@[nn0.len() as int] == (value, id));
                assert(nn@.subrange(0, nn0.len() as int) =~= nn0);
                assert forall|k: int|
                    0 <= k < nn@.len() implies (#[trigger] nn@[k]).1 == n0 + k && (nn@[k].0 is Constant || nn@[k].0 is Binary)
                    && forall|x: int| 0 <= x < uses_of(nn@[k].0).len() ==> (#[trigger] uses_of(nn@[k].0)[x] as int) < n0 + k by {
                    if k < nn0.len() {
                        assert(nn@[k] == nn0[k]);
                    }
                }
                assert forall|k: int| 0 <= k < nn@.len() implies !nodes.contains_key((#[trigger] nn@[k]).0) by {
                    if k < nn0.len() {
                        assert(nn@[k] == nn0[k]);
                    }
                }
            }
            id
        },
    }
}

/// Merges class `id` with the class of `value`.
fn merge_with(
    ssa: &mut SSAGraph,
    nn: &mut Vec<(SSAValue, ClassId)>,
    id: ClassId,
    value: SSAValue,
    Ghost(nodes): Ghost<Map<SSAValue, ClassId>>,
    Ghost(n0): Ghost<nat>,
)
    requires
        step_inv(*old(ssa), nodes, old(nn)@, n0),
        value is Constant || value is Binary,
        forall|x: int| 0 <= x < uses_of(value).len() ==> (#[trigger] uses_of(value)[x] as int) < old(ssa).uf@.len(),
        id < old(ssa).uf@.len(),
    ensures
        step_inv(*final(ssa), nodes, final(nn)@, n0),
        final(ssa).roots == old(ssa).roots,
        final(ssa).values == old(ssa).values,
        is_prefix(old(nn)@, final(nn)@),
        coarsens(old(ssa).uf@, final(ssa).uf@),
        merged_with_node(nodes, final(nn)@, final(ssa).uf@, id, value),
        forall|k: int| old(nn)@.len() <= k < final(nn)@.len() ==> (#[trigger] final(nn)@[k]).0 == value,
        forall|q: Seq<ClassId>|
            merges_within(old(ssa).uf@, q) && #[trigger] node_bound(q, nodes, final(nn)@, id, value) ==> merges_within(
                final(ssa).uf@,
                q,
            ),
{
    let ghost uf0 = ssa.uf@;
    proof {
        lemma_step_bounded(*ssa, nodes, nn@, n0);
    }
    let c = add_value(ssa, nn, value, Ghost(nodes), Ghost(n0));
    let ghost uf1 = ssa.uf@;
    proof {
        ssa.uf.lemma_wf();
        lemma_union_coarsens(uf1, id as int, c as int);
    }
    ssa.uf.union(id, c);
    proof {
        lemma_coarsens_trans(uf0, uf1, ssa.uf@);
        assert(has_node(nodes, nn@, value, c) && merged(ssa.uf@, id, c));
        assert forall|q: Seq<ClassId>| merges_within(uf0, q) && #[trigger] node_bound(q, nodes, nn@, id, value) implies merges_within(
            ssa.uf@,
            q,
        ) by {
            if uf1 != uf0 {
                lemma_within_push(uf0, q);
            }
            assert(q[id as int] == q[c as int]);
            lemma_within_union(uf1, q, id as int, c as int);
        }
    }
}

/// Merges classes `a` and `b`.
fn merge(ssa: &mut SSAGraph, a: ClassId, b: ClassId, Ghost(nodes): Ghost<Map<SSAValue, ClassId>>, Ghost(nn): Ghost<Seq<(SSAValue, ClassId)>>, Ghost(n0): Ghost<nat>)
    requires
        step_inv(*old(ssa), nodes, nn, n0),
        a < old(ssa).uf@.len(),
        b < old(ssa).uf@.len(),
    ensures
        step_inv(*final(ssa), nodes, nn, n0),
        final(ssa).roots == old(ssa).roots,
        final(ssa).values == old(ssa).values,
        coarsens(old(ssa).uf@, final(ssa).uf@),
        merged(final(ssa).uf@, a, b),
        final(ssa).uf@ == union_spec(old(ssa).uf@, a as int, b as int),
{
    proof {
        ssa.uf.lemma_wf();
        lemma_union_coarsens(ssa.uf@, a as int, b as int);
    }
    ssa.uf.union(a, b);
}

/// What the rewriting of one value needs: the graph as `step_inv` has it,
/// the classes' values with their operands below `n0`, one entry per class.
pub open spec fn rw_ready(ssa: SSAGraph, em: Seq<Seq<SSAValue>>, nodes: Map<SSAValue, ClassId>, nn: Seq<(SSAValue, ClassId)>, n0: nat) -> bool {
    &&& step_inv(ssa, nodes, nn, n0)
    &&& em.len() == n0
    &&& em_bounded(em, n0)
}

/// Commutativity and reassociation of `l + r`, of class `id`.
fn rewrite_add(
    ssa: &mut SSAGraph,
    nn: &mut Vec<(SSAValue, ClassId)>,
    em: &Vec<Vec<SSAValue>>,
    id: ClassId,
    l: ClassId,
    r: ClassId,
    Ghost(nodes): Ghost<Map<SSAValue, ClassId>>,
    Ghost(n0): Ghost<nat>,
)
    requires
        rw_ready(*old(ssa), em_view(em), nodes, old(nn)@, n0),
        id < n0,
        l < n0,
        r < n0,
    ensures
        rw_ready(*final(ssa), em_view(em), nodes, final(nn)@, n0),
        final(ssa).roots == old(ssa).roots,
        final(ssa).values == old(ssa).values,
        is_prefix(old(nn)@, final(nn)@),
        coarsens(old(ssa).uf@, final(ssa).uf@),
        add_rules(em_view(em), nodes, final(nn)@, final(ssa).uf@, id, l, r),
        forall|k: int|
            old(nn)@.len() <= k < final(nn)@.len() ==> #[trigger] add_node(em_view(em), nodes, final(nn)@, l, r, final(nn)@[k].0),
        forall|q: Seq<ClassId>|
            merges_within(old(ssa).uf@, q) && #[trigger] add_bound(q, em_view(em), nodes, final(nn)@, id, l, r)
                ==> merges_within(final(ssa).uf@, q),
{
    let ghost emv = em_view(em);
    let ghost nn_s = nn@;
    let ghost uf_s = ssa.uf@;
    let ghost ssa_s = *ssa;
    merge_with(ssa, nn, id, SSAValue::Binary(BinaryOp::Add, r, l), Ghost(nodes), Ghost(n0));
    proof {
        assert forall|q: Seq<ClassId>| merges_within(uf_s, q) && #[trigger] add_bound(q, emv, nodes, nn@, id, l, r) implies merges_within(
            ssa.uf@,
            q,
        ) by {
            assert forall|c: ClassId| #[trigger] has_node(nodes, nn@, SSAValue::Binary(BinaryOp::Add, r, l), c) implies q[id as int]
                == q[c as int] by {
                assert(add_target(emv, nodes, nn@, l, r, c));
            }
            assert(node_bound(q, nodes, nn@, id, SSAValue::Binary(BinaryOp::Add, r, l)));
        }
        assert forall|k: int| nn_s.len() <= k < nn@.len() implies #[trigger] add_node(emv, nodes, nn@, l, r, nn@[k].0) by {
            assert(nn@[k].0 == SSAValue::Binary(BinaryOp::Add, r, l));
        }
    }
    let mut k: usize = 0;
    while k < em[l].len()
        invariant
            rw_ready(*ssa, emv, nodes, nn@, n0),
            emv == em_view(em),
            id < n0,
            l < n0,
            r < n0,
            k <= emv[l as int].len(),
            ssa.roots == ssa_s.roots,
            ssa.values == ssa_s.values,
            is_prefix(nn_s, nn@),
            coarsens(uf_s, ssa.uf@),
            merged_with_node(nodes, nn@, ssa.uf@, id, SSAValue::Binary(BinaryOp::Add, r, l)),
            add_l_facts(emv, nodes, nn@, ssa.uf@, id, l, r, k as int),
            forall|q: Seq<ClassId>|
                merges_within(uf_s, q) && #[trigger] add_bound(q, emv, nodes, nn@, id, l, r) ==> merges_within(ssa.uf@, q),
            forall|k: int| nn_s.len() <= k < nn@.len() ==> #[trigger] add_node(emv, nodes, nn@, l, r, nn@[k].0),
        decreases emv[l as int].len() - k,
    {
        let ghost nn0 = nn@;
        let ghost uf0 = ssa.uf@;
        proof {
            lemma_step_bounded(*ssa, nodes, nn@, n0);
        }
        match em[l][k] {
            SSAValue::Binary(BinaryOp::Add, sl, sr) => {
                proof {
                    let w = emv[l as int][k as int];
                    assert(uses_of(w)[0] == sl && uses_of(w)[1] == sr);
                }
                let t = add_value(ssa, nn, SSAValue::Binary(BinaryOp::Add, sr, r), Ghost(nodes), Ghost(n0));
                let ghost nn1 = nn@;
                let ghost uf1 = ssa.uf@;
                merge_with(ssa, nn, id, SSAValue::Binary(BinaryOp::Add, sl, t), Ghost(nodes), Ghost(n0));
                proof {
                    lemma_prefix_trans(nn0, nn1, nn@);
                    lemma_coarsens_trans(uf0, uf1, ssa.uf@);
                    lemma_prefix_trans(nn_s, nn0, nn@);
                    lemma_coarsens_trans(uf_s, uf0, ssa.uf@);
                    lemma_mwn_mono(nodes, nn0, uf0, nn@, ssa.uf@, id, SSAValue::Binary(BinaryOp::Add, r, l));
                    lemma_add_l_mono(emv, nodes, nn0, uf0, nn@, ssa.uf@, id, l, r, k as int);
                    lemma_has_mono(nodes, nn1, nn@, SSAValue::Binary(BinaryOp::Add, sr, r), t);
                    assert(has_node(nodes, nn@, SSAValue::Binary(BinaryOp::Add, sr, r), t) && merged_with_node(
                        nodes,
                        nn@,
                        ssa.uf@,
                        id,
                        SSAValue::Binary(BinaryOp::Add, sl, t),
                    ));
                    assert(add_l_facts(emv, nodes, nn@, ssa.uf@, id, l, r, k + 1));
                    assert forall|q: Seq<ClassId>| merges_within(uf_s, q) && #[trigger] add_bound(q, emv, nodes, nn@, id, l, r) implies merges_within(
                        ssa.uf@,
                        q,
                    ) by {
                        lemma_add_bound_mono(q, emv, nodes, nn0, nn@, id, l, r);
                        assert(merges_within(uf0, q));
                        lemma_within_add(uf0, uf1, q);
                        assert forall|c: ClassId| #[trigger] has_node(nodes, nn@, SSAValue::Binary(BinaryOp::Add, sl, t), c) implies q[id as int]
                            == q[c as int] by {
                            assert(emv[l as int][k as int] == SSAValue::Binary(BinaryOp::Add, sl, sr));
                            assert(add_target(emv, nodes, nn@, l, r, c));
                        }
                        assert(node_bound(q, nodes, nn@, id, SSAValue::Binary(BinaryOp::Add, sl, t)));
                    }
                    assert forall|x: int| nn_s.len() <= x < nn@.len() implies #[trigger] add_node(emv, nodes, nn@, l, r, nn@[x].0) by {
                        assert(emv[l as int][k as int] == SSAValue::Binary(BinaryOp::Add, sl, sr));
                        if x < nn0.len() {
                            assert(nn@.subrange(0, nn0.len() as int)[x] == nn0[x]);
                            assert(add_node(emv, nodes, nn0, l, r, nn0[x].0));
                            lemma_add_node_mono(emv, nodes, nn0, nn@, l, r, nn0[x].0);
                        } else if x < nn1.len() {
                            assert(nn@.subrange(0, nn1.len() as int)[x] == nn1[x]);
                            assert(nn1 == nn0.push((SSAValue::Binary(BinaryOp::Add, sr, r), t)));
                            assert(nn@[x].0 == SSAValue::Binary(BinaryOp::Add, sr, r));
                        } else {
                            assert(nn@[x].0 == SSAValue::Binary(BinaryOp::Add, sl, t));
                        }
                    }
                }
            },
            _ => {
                proof {
                    assert(!is_add(emv[l as int][k as int]));
                    assert(add_l_facts(emv, nodes, nn@, ssa.uf@, id, l, r, k + 1));
                }
            },
        }
        k = k + 1;
    }
    let mut k: usize = 0;
    while k < em[r].len()
        invariant
            rw_ready(*ssa, emv, nodes, nn@, n0),
            emv == em_view(em),
            id < n0,
            l < n0,
            r < n0,
            k <= emv[r as int].len(),
            ssa.roots == ssa_s.roots,
            ssa.values == ssa_s.values,
            is_prefix(nn_s, nn@),
            coarsens(uf_s, ssa.uf@),
            merged_with_node(nodes, nn@, ssa.uf@, id, SSAValue::Binary(BinaryOp::Add, r, l)),
            add_l_facts(emv, nodes, nn@, ssa.uf@, id, l, r, emv[l as int].len() as int),
            add_r_facts(emv, nodes, nn@, ssa.uf@, id, l, r, k as int),
            forall|q: Seq<ClassId>|
                merges_within(uf_s, q) && #[trigger] add_bound(q, emv, nodes, nn@, id, l, r) ==> merges_within(ssa.uf@, q),
            forall|k: int| nn_s.len() <= k < nn@.len() ==> #[trigger] add_node(emv, nodes, nn@, l, r, nn@[k].0),
        decreases emv[r as int].len() - k,
    {
        let ghost nn0 = nn@;
        let ghost uf0 = ssa.uf@;
        proof {
            lemma_step_bounded(*ssa, nodes, nn@, n0);
        }
        match em[r][k] {
            SSAValue::Binary(BinaryOp::Add, sl, sr) => {
                proof {
                    let w = emv[r as int][k as int];
                    assert(uses_of(w)[0] == sl && uses_of(w)[1] == sr);
                }
                let t = add_value(ssa, nn, SSAValue::Binary(BinaryOp::Add, l, sl), Ghost(nodes), Ghost(n0));
                let ghost nn1 = nn@;
                let ghost uf1 = ssa.uf@;
                merge_with(ssa, nn, id, SSAValue::Binary(BinaryOp::Add, t, sr), Ghost(nodes), Ghost(n0));
                proof {
                    lemma_prefix_trans(nn0, nn1, nn@);
                    lemma_coarsens_trans(uf0, uf1, ssa.uf@);
                    lemma_prefix_trans(nn_s, nn0, nn@);
                    lemma_coarsens_trans(uf_s, uf0, ssa.uf@);
                    lemma_mwn_mono(nodes, nn0, uf0, nn@, ssa.uf@, id, SSAValue::Binary(BinaryOp::Add, r, l));
                    lemma_add_l_mono(emv, nodes, nn0, uf0, nn@, ssa.uf@, id, l, r, emv[l as int].len() as int);
                    lemma_add_r_mono(emv, nodes, nn0, uf0, nn@, ssa.uf@, id, l, r, k as int);
                    lemma_has_mono(nodes, nn1, nn@, SSAValue::Binary(BinaryOp::Add, l, sl), t);
                    assert(has_node(nodes, nn@, SSAValue::Binary(BinaryOp::Add, l, sl), t) && merged_with_node(
                        nodes,
                        nn@,
                        ssa.uf@,
                        id,
                        SSAValue::Binary(BinaryOp::Add, t, sr),
                    ));
                    assert(add_r_facts(emv, nodes, nn@, ssa.uf@, id, l, r, k + 1));
                    assert forall|q: Seq<ClassId>| merges_within(uf_s, q) && #[trigger] add_bound(q, emv, nodes, nn@, id, l, r) implies merges_within(
                        ssa.uf@,
                        q,
                    ) by {
                        lemma_add_bound_mono(q, emv, nodes, nn0, nn@, id, l, r);
                        assert(merges_within(uf0, q));
                        lemma_within_add(uf0, uf1, q);
                        assert forall|c: ClassId| #[trigger] has_node(nodes, nn@, SSAValue::Binary(BinaryOp::Add, t, sr), c) implies q[id as int]
                            == q[c as int] by {
                            assert(emv[r as int][k as int] == SSAValue::Binary(BinaryOp::Add, sl, sr));
                            assert(add_target(emv, nodes, nn@, l, r, c));
                        }
                        assert(node_bound(q, nodes, nn@, id, SSAValue::Binary(BinaryOp::Add, t, sr)));
                    }
                    assert forall|x: int| nn_s.len() <= x < nn@.len() implies #[trigger] add_node(emv, nodes, nn@, l, r, nn@[x].0) by {
                        assert(emv[r as int][k as int] == SSAValue::Binary(BinaryOp::Add, sl, sr));
                        if x < nn0.len() {
                            assert(nn@.subrange(0, nn0.len() as int)[x] == nn0[x]);
                            assert(add_node(emv, nodes, nn0, l, r, nn0[x].0));
                            lemma_add_node_mono(emv, nodes, nn0, nn@, l, r, nn0[x].0);
                        } else if x < nn1.len() {
                            assert(nn@.subrange(0, nn1.len() as int)[x] == nn1[x]);
                            assert(nn1 == nn0.push((SSAValue::Binary(BinaryOp::Add, l, sl), t)));
                            assert(nn@[x].0 == SSAValue::Binary(BinaryOp::Add, l, sl));
                        } else {
                            assert(nn@[x].0 == SSAValue::Binary(BinaryOp::Add, t, sr));
                        }
                    }
                }
            },
            _ => {
                proof {
                    assert(!is_add(emv[r as int][k as int]));
                    assert(add_r_facts(emv, nodes, nn@, ssa.uf@, id, l, r, k + 1));
                }
            },
        }
        k = k + 1;
    }
}

/// Commutativity and distribution of `l * r`, of class `id`.
fn rewrite_mul(
    ssa: &mut SSAGraph,
    nn: &mut Vec<(SSAValue, ClassId)>,
    em: &Vec<Vec<SSAValue>>,
    id: ClassId,
    l: ClassId,
    r: ClassId,
    Ghost(nodes): Ghost<Map<SSAValue, ClassId>>,
    Ghost(n0): Ghost<nat>,
)
    requires
        rw_ready(*old(ssa), em_view(em), nodes, old(nn)@, n0),
        id < n0,
        l < n0,
        r < n0,
    ensures
        rw_ready(*final(ssa), em_view(em), nodes, final(nn)@, n0),
        final(ssa).roots == old(ssa).roots,
        final(ssa).values == old(ssa).values,
        is_prefix(old(nn)@, final(nn)@),
        coarsens(old(ssa).uf@, final(ssa).uf@),
        mul_rules(em_view(em), nodes, final(nn)@, final(ssa).uf@, id, l, r),
        forall|k: int|
            old(nn)@.len() <= k < final(nn)@.len() ==> #[trigger] mul_node(em_view(em), nodes, final(nn)@, l, r, final(nn)@[k].0),
        forall|q: Seq<ClassId>|
            merges_within(old(ssa).uf@, q) && #[trigger] mul_bound(q, em_view(em), nodes, final(nn)@, id, l, r)
                ==> merges_within(final(ssa).uf@, q),
{
    let ghost emv = em_view(em);
    let ghost nn_s = nn@;
    let ghost uf_s = ssa.uf@;
    let ghost ssa_s = *ssa;
    merge_with(ssa, nn, id, SSAValue::Binary(BinaryOp::Mul, r, l), Ghost(nodes), Ghost(n0));
    proof {
        assert forall|q: Seq<ClassId>| merges_within(uf_s, q) && #[trigger] mul_bound(q, emv, nodes, nn@, id, l, r) implies merges_within(
            ssa.uf@,
            q,
        ) by {
            assert forall|c: ClassId| #[trigger] has_node(nodes, nn@, SSAValue::Binary(BinaryOp::Mul, r, l), c) implies q[id as int]
                == q[c as int] by {
                assert(mul_target(emv, nodes, nn@, l, r, c));
            }
            assert(node_bound(q, nodes, nn@, id, SSAValue::Binary(BinaryOp::Mul, r, l)));
        }
        assert forall|k: int| nn_s.len() <= k < nn@.len() implies #[trigger] mul_node(emv, nodes, nn@, l, r, nn@[k].0) by {
            assert(nn@[k].0 == SSAValue::Binary(BinaryOp::Mul, r, l));
        }
    }
    let mut k: usize = 0;
    while k < em[l].len()
        invariant
            rw_ready(*ssa, emv, nodes, nn@, n0),
            emv == em_view(em),
            id < n0,
            l < n0,
            r < n0,
            k <= emv[l as int].len(),
            ssa.roots == ssa_s.roots,
            ssa.values == ssa_s.values,
            is_prefix(nn_s, nn@),
            coarsens(uf_s, ssa.uf@),
            merged_with_node(nodes, nn@, ssa.uf@, id, SSAValue::Binary(BinaryOp::Mul, r, l)),
            mul_l_facts(emv, nodes, nn@, ssa.uf@, id, l, r, k as int),
            forall|q: Seq<ClassId>|
                merges_within(uf_s, q) && #[trigger] mul_bound(q, emv, nodes, nn@, id, l, r) ==> merges_within(ssa.uf@, q),
            forall|k: int| nn_s.len() <= k < nn@.len() ==> #[trigger] mul_node(emv, nodes, nn@, l, r, nn@[k].0),
        decreases emv[l as int].len() - k,
    {
        let ghost nn0 = nn@;
        let ghost uf0 = ssa.uf@;
        proof {
            lemma_step_bounded(*ssa, nodes, nn@, n0);
        }
        match em[l][k] {
            SSAValue::Binary(BinaryOp::Add, sl, sr) => {
                proof {
                    let w = emv[l as int][k as int];
                    assert(uses_of(w)[0] == sl && uses_of(w)[1] == sr);
                }
                let a = add_value(ssa, nn, SSAValue::Binary(BinaryOp::Mul, sl, r), Ghost(nodes), Ghost(n0));
                let ghost nn1 = nn@;
                let ghost uf1 = ssa.uf@;
                let b = add_value(ssa, nn, SSAValue::Binary(BinaryOp::Mul, sr, r), Ghost(nodes), Ghost(n0));
                let ghost nn2 = nn@;
                let ghost uf2 = ssa.uf@;
                merge_with(ssa, nn, id, SSAValue::Binary(BinaryOp::Add, a, b), Ghost(nodes), Ghost(n0));
                proof {
                    lemma_prefix_trans(nn0, nn1, nn2);
                    lemma_prefix_trans(nn0, nn2, nn@);
                    lemma_prefix_trans(nn1, nn2, nn@);
                    lemma_coarsens_trans(uf0, uf1, uf2);
                    lemma_coarsens_trans(uf0, uf2, ssa.uf@);
                    lemma_prefix_trans(nn_s, nn0, nn@);
                    lemma_coarsens_trans(uf_s, uf0, ssa.uf@);
                    lemma_mwn_mono(nodes, nn0, uf0, nn@, ssa.uf@, id, SSAValue::Binary(BinaryOp::Mul, r, l));
                    lemma_mul_l_mono(emv, nodes, nn0, uf0, nn@, ssa.uf@, id, l, r, k as int);
                    lemma_has_mono(nodes, nn1, nn@, SSAValue::Binary(BinaryOp::Mul, sl, r), a);
                    lemma_has_mono(nodes, nn2, nn@, SSAValue::Binary(BinaryOp::Mul, sr, r), b);
                    assert(has_node(nodes, nn@, SSAValue::Binary(BinaryOp::Mul, sl, r), a) && has_node(
                        nodes,
                        nn@,
                        SSAValue::Binary(BinaryOp::Mul, sr, r),
                        b,
                    ) && merged_with_node(nodes, nn@, ssa.uf@, id, SSAValue::Binary(BinaryOp::Add, a, b)));
                    assert(mul_l_facts(emv, nodes, nn@, ssa.uf@, id, l, r, k + 1));
                    assert forall|q: Seq<ClassId>| merges_within(uf_s, q) && #[trigger] mul_bound(q, emv, nodes, nn@, id, l, r) implies merges_within(
                        ssa.uf@,
                        q,
                    ) by {
                        lemma_mul_bound_mono(q, emv, nodes, nn0, nn@, id, l, r);
                        assert(merges_within(uf0, q));
                        lemma_within_add(uf0, uf1, q);
                        lemma_within_add(uf1, uf2, q);
                        assert forall|c: ClassId| #[trigger] has_node(nodes, nn@, SSAValue::Binary(BinaryOp::Add, a, b), c) implies q[id as int]
                            == q[c as int] by {
                            assert(emv[l as int][k as int] == SSAValue::Binary(BinaryOp::Add, sl, sr));
                            assert(has_node(nodes, nn@, SSAValue::Binary(BinaryOp::Mul, sl, r), a));
                            assert(mul_target(emv, nodes, nn@, l, r, c));
                        }
                        assert(node_bound(q, nodes, nn@, id, SSAValue::Binary(BinaryOp::Add, a, b)));
                    }
                    assert forall|x: int| nn_s.len() <= x < nn@.len() implies #[trigger] mul_node(emv, nodes, nn@, l, r, nn@[x].0) by {
                        assert(emv[l as int][k as int] == SSAValue::Binary(BinaryOp::Add, sl, sr));
                        if x < nn0.len() {
                            assert(nn@.subrange(0, nn0.len() as int)[x] == nn0[x]);
                            assert(mul_node(emv, nodes, nn0, l, r, nn0[x].0));
                            lemma_mul_node_mono(emv, nodes, nn0, nn@, l, r, nn0[x].0);
                        } else if x < nn1.len() {
                            assert(nn@.subrange(0, nn1.len() as int)[x] == nn1[x]);
                            assert(nn1 == nn0.push((SSAValue::Binary(BinaryOp::Mul, sl, r), a)));
                            assert(nn@[x].0 == SSAValue::Binary(BinaryOp::Mul, sl, r));
                        } else if x < nn2.len() {
                            assert(nn@.subrange(0, nn2.len() as int)[x] == nn2[x]);
                            assert(nn2 == nn1.push((SSAValue::Binary(BinaryOp::Mul, sr, r), b)));
                            assert(nn@[x].0 == SSAValue::Binary(BinaryOp::Mul, sr, r));
                        } else {
                            assert(nn@[x].0 == SSAValue::Binary(BinaryOp::Add, a, b));
                        }
                    }
                }
            },
            _ => {
                proof {
                    assert(!is_add(emv[l as int][k as int]));
                    assert(mul_l_facts(emv, nodes, nn@, ssa.uf@, id, l, r, k + 1));
                }
            },
        }
        k = k + 1;
    }
    let mut k: usize = 0;
    while k < em[r].len()
        invariant
            rw_ready(*ssa, emv, nodes, nn@, n0),
            emv == em_view(em),
            id < n0,
            l < n0,
            r < n0,
            k <= emv[r as int].len(),
            ssa.roots == ssa_s.roots,
            ssa.values == ssa_s.values,
            is_prefix(nn_s, nn@),
            coarsens(uf_s, ssa.uf@),
            merged_with_node(nodes, nn@, ssa.uf@, id, SSAValue::Binary(BinaryOp::Mul, r, l)),
            mul_l_facts(emv, nodes, nn@, ssa.uf@, id, l, r, emv[l as int].len() as int),
            mul_r_facts(emv, nodes, nn@, ssa.uf@, id, l, r, k as int),
            forall|q: Seq<ClassId>|
                merges_within(uf_s, q) && #[trigger] mul_bound(q, emv, nodes, nn@, id, l, r) ==> merges_within(ssa.uf@, q),
            forall|k: int| nn_s.len() <= k < nn@.len() ==> #[trigger] mul_node(emv, nodes, nn@, l, r, nn@[k].0),
        decreases emv[r as int].len() - k,
    {
        let ghost nn0 = nn@;
        let ghost uf0 = ssa.uf@;
        proof {
            lemma_step_bounded(*ssa, nodes, nn@, n0);
        }
        match em[r][k] {
            SSAValue::Binary(BinaryOp::Add, sl, sr) => {
                proof {
                    let w = emv[r as int][k as int];
                    assert(uses_of(w)[0] == sl && uses_of(w)[1] == sr);
                }
                let a = add_value(ssa, nn, SSAValue::Binary(BinaryOp::Mul, l, sl), Ghost(nodes), Ghost(n0));
                let ghost nn1 = nn@;
                let ghost uf1 = ssa.uf@;
                let b = add_value(ssa, nn, SSAValue::Binary(BinaryOp::Mul, l, sr), Ghost(nodes), Ghost(n0));
                let ghost nn2 = nn@;
                let ghost uf2 = ssa.uf@;
                merge_with(ssa, nn, id, SSAValue::Binary(BinaryOp::Add, a, b), Ghost(nodes), Ghost(n0));
                proof {
                    lemma_prefix_trans(nn0, nn1, nn2);
                    lemma_prefix_trans(nn0, nn2, nn@);
                    lemma_prefix_trans(nn1, nn2, nn@);
                    lemma_coarsens_trans(uf0, uf1, uf2);
                    lemma_coarsens_trans(uf0, uf2, ssa.uf@);
                    lemma_prefix_trans(nn_s, nn0, nn@);
                    lemma_coarsens_trans(uf_s, uf0, ssa.uf@);
                    lemma_mwn_mono(nodes, nn0, uf0, nn@, ssa.uf@, id, SSAValue::Binary(BinaryOp::Mul, r, l));
                    lemma_mul_l_mono(emv, nodes, nn0, uf0, nn@, ssa.uf@, id, l, r, emv[l as int].len() as int);
                    lemma_mul_r_mono(emv, nodes, nn0, uf0, nn@, ssa.uf@, id, l, r, k as int);
                    lemma_has_mono(nodes, nn1, nn@, SSAValue::Binary(BinaryOp::Mul, l, sl), a);
                    lemma_has_mono(nodes, nn2, nn@, SSAValue::Binary(BinaryOp::Mul, l, sr), b);
                    assert(has_node(nodes, nn@, SSAValue::Binary(BinaryOp::Mul, l, sl), a) && has_node(
                        nodes,
                        nn@,
                        SSAValue::Binary(BinaryOp::Mul, l, sr),
                        b,
                    ) && merged_with_node(nodes, nn@, ssa.uf@, id, SSAValue::Binary(BinaryOp::Add, a, b)));
                    assert(mul_r_facts(emv, nodes, nn@, ssa.uf@, id, l, r, k + 1));
                    assert forall|q: Seq<ClassId>| merges_within(uf_s, q) && #[trigger] mul_bound(q, emv, nodes, nn@, id, l, r) implies merges_within(
                        ssa.uf@,
                        q,
                    ) by {
                        lemma_mul_bound_mono(q, emv, nodes, nn0, nn@, id, l, r);
                        assert(merges_within(uf0, q));
                        lemma_within_add(uf0, uf1, q);
                        lemma_within_add(uf1, uf2, q);
                        assert forall|c: ClassId| #[trigger] has_node(nodes, nn@, SSAValue::Binary(BinaryOp::Add, a, b), c) implies q[id as int]
                            == q[c as int] by {
                            assert(emv[r as int][k as int] == SSAValue::Binary(BinaryOp::Add, sl, sr));
                            assert(has_node(nodes, nn@, SSAValue::Binary(BinaryOp::Mul, l, sl), a));
                            assert(mul_target(emv, nodes, nn@, l, r, c));
                        }
                        assert(node_bound(q, nodes, nn@, id, SSAValue::Binary(BinaryOp::Add, a, b)));
                    }
                    assert forall|x: int| nn_s.len() <= x < nn@.len() implies #[trigger] mul_node(emv, nodes, nn@, l, r, nn@[x].0) by {
                        assert(emv[r as int][k as int] == SSAValue::Binary(BinaryOp::Add, sl, sr));
                        if x < nn0.len() {
                            assert(nn@.subrange(0, nn0.len() as int)[x] == nn0[x]);
                            assert(mul_node(emv, nodes, nn0, l, r, nn0[x].0));
                            lemma_mul_node_mono(emv, nodes, nn0, nn@, l, r, nn0[x].0);
                        } else if x < nn1.len() {
                            assert(nn@.subrange(0, nn1.len() as int)[x] == nn1[x]);
                            assert(nn1 == nn0.push((SSAValue::Binary(BinaryOp::Mul, l, sl), a)));
                            assert(nn@[x].0 == SSAValue::Binary(BinaryOp::Mul, l, sl));
                        } else if x < nn2.len() {
                            assert(nn@.subrange(0, nn2.len() as int)[x] == nn2[x]);
                            assert(nn2 == nn1.push((SSAValue::Binary(BinaryOp::Mul, l, sr), b)));
                            assert(nn@[x].0 == SSAValue::Binary(BinaryOp::Mul, l, sr));
                        } else {
                            assert(nn@[x].0 == SSAValue::Binary(BinaryOp::Add, a, b));
                        }
                    }
                }
            },
            _ => {
                proof {
                    assert(!is_add(emv[r as int][k as int]));
                    assert(mul_r_facts(emv, nodes, nn@, ssa.uf@, id, l, r, k + 1));
                }
            },
        }
        k = k + 1;
    }
}

/// Cancellation in `l - r`, of class `id`.
fn rewrite_sub(
    ssa: &mut SSAGraph,
    em: &Vec<Vec<SSAValue>>,
    id: ClassId,
    l: ClassId,
    r: ClassId,
    Ghost(nodes): Ghost<Map<SSAValue, ClassId>>,
    Ghost(nn): Ghost<Seq<(SSAValue, ClassId)>>,
    Ghost(n0): Ghost<nat>,
)
    requires
        rw_ready(*old(ssa), em_view(em), nodes, nn, n0),
        id < n0,
        l < n0,
        r < n0,
    ensures
        rw_ready(*final(ssa), em_view(em), nodes, nn, n0),
        final(ssa).roots == old(ssa).roots,
        final(ssa).values == old(ssa).values,
        coarsens(old(ssa).uf@, final(ssa).uf@),
        sub_rules(em_view(em), final(ssa).uf@, id, l, r),
        forall|q: Seq<ClassId>|
            merges_within(old(ssa).uf@, q) && #[trigger] sub_bound(q, em_view(em), id, l, r) ==> merges_within(final(ssa).uf@, q),
{
    let ghost emv = em_view(em);
    let ghost uf_s = ssa.uf@;
    let ghost ssa_s = *ssa;
    let mut j: usize = 0;
    while j < em[r].len()
        invariant
            rw_ready(*ssa, emv, nodes, nn, n0),
            emv == em_view(em),
            id < n0,
            l < n0,
            r < n0,
            j <= emv[r as int].len(),
            ssa.roots == ssa_s.roots,
            ssa.values == ssa_s.values,
            coarsens(uf_s, ssa.uf@),
            sub_facts(emv, ssa.uf@, id, l, r, j as int, 0),
            forall|q: Seq<ClassId>| merges_within(uf_s, q) && #[trigger] sub_bound(q, emv, id, l, r) ==> merges_within(ssa.uf@, q),
        decreases emv[r as int].len() - j,
    {
        let rv = em[r][j];
        let mut k: usize = 0;
        while k < em[l].len()
            invariant
                rw_ready(*ssa, emv, nodes, nn, n0),
                emv == em_view(em),
                id < n0,
                l < n0,
                r < n0,
                j < emv[r as int].len(),
                rv == emv[r as int][j as int],
                k <= emv[l as int].len(),
                ssa.roots == ssa_s.roots,
                ssa.values == ssa_s.values,
                coarsens(uf_s, ssa.uf@),
                sub_facts(emv, ssa.uf@, id, l, r, j as int, k as int),
                forall|q: Seq<ClassId>| merges_within(uf_s, q) && #[trigger] sub_bound(q, emv, id, l, r) ==> merges_within(ssa.uf@, q),
            decreases emv[l as int].len() - k,
        {
            let ghost uf0 = ssa.uf@;
            match em[l][k] {
                SSAValue::Binary(BinaryOp::Add, sl, sr) => {
                    proof {
                        let w = emv[l as int][k as int];
                        assert(uses_of(w)[0] == sl && uses_of(w)[1] == sr);
                    }
                    if vec_contains(&em[sr], rv) {
                        merge(ssa, id, sl, Ghost(nodes), Ghost(nn), Ghost(n0));
                        proof {
                            lemma_coarsens_trans(uf_s, uf0, ssa.uf@);
                            lemma_sub_mono(emv, uf0, ssa.uf@, id, l, r, j as int, k as int);
                            assert forall|q: Seq<ClassId>| merges_within(uf_s, q) && #[trigger] sub_bound(q, emv, id, l, r) implies merges_within(
                                ssa.uf@,
                                q,
                            ) by {
                                assert(emv[l as int][k as int] == SSAValue::Binary(BinaryOp::Add, sl, sr));
                                assert(rv == emv[r as int][j as int]);
                                assert(sub_target(emv, l, r, sl));
                                lemma_within_union(uf0, q, id as int, sl as int);
                            }
                        }
                    }
                },
                _ => {},
            }
            proof {
                assert(sub_facts(emv, ssa.uf@, id, l, r, j as int, k + 1));
            }
            k = k + 1;
        }
        proof {
            assert(sub_facts(emv, ssa.uf@, id, l, r, j + 1, 0));
        }
        j = j + 1;
    }
}

/// Applies to value `value`, of class `id`, the first rewrite whose pattern
/// and condition match.
fn rewrite_node(
    ssa: &mut SSAGraph,
    nn: &mut Vec<(SSAValue, ClassId)>,
    em: &Vec<Vec<SSAValue>>,
    analyses: &Analyses,
    value: SSAValue,
    id: ClassId,
    Ghost(nodes): Ghost<Map<SSAValue, ClassId>>,
    Ghost(n0): Ghost<nat>,
)
    requires
        rw_ready(*old(ssa), em_view(em), nodes, old(nn)@, n0),
        id < n0,
        forall|x: int| 0 <= x < uses_of(value).len() ==> (#[trigger] uses_of(value)[x] as int) < n0,
    ensures
        rw_ready(*final(ssa), em_view(em), nodes, final(nn)@, n0),
        final(ssa).roots == old(ssa).roots,
        final(ssa).values == old(ssa).values,
        is_prefix(old(nn)@, final(nn)@),
        coarsens(old(ssa).uf@, final(ssa).uf@),
        rule_holds(value, id, em_view(em), analyses.intervals@, nodes, final(nn)@, final(ssa).uf@),
        forall|k: int|
            old(nn)@.len() <= k < final(nn)@.len() ==> #[trigger] rule_node(
                value,
                em_view(em),
                analyses.intervals@,
                nodes,
                final(nn)@,
                final(nn)@[k].0,
            ),
        forall|q: Seq<ClassId>|
            merges_within(old(ssa).uf@, q) && #[trigger] rule_bound(
                q,
                value,
                id,
                em_view(em),
                analyses.intervals@,
                nodes,
                final(nn)@,
            ) ==> merges_within(final(ssa).uf@, q),
{
    let ghost emv = em_view(em);
    let ghost ivs = analyses.intervals@;
    let ghost uf_in = ssa.uf@;
    proof {
        lemma_prefix_refl(nn@);
        lemma_step_bounded(*ssa, nodes, nn@, n0);
    }
    match value {
        SSAValue::Binary(op, l, r) => {
            proof {
                assert(uses_of(value)[0] == l && uses_of(value)[1] == r);
            }
            match op {
                BinaryOp::Add => {
                    if l == r {
                        let ghost nn0 = nn@;
                        let ghost uf0 = ssa.uf@;
                        let two = add_value(ssa, nn, SSAValue::Constant(2), Ghost(nodes), Ghost(n0));
                        let ghost nn1 = nn@;
                        let ghost uf1 = ssa.uf@;
                        merge_with(ssa, nn, id, SSAValue::Binary(BinaryOp::Mul, two, l), Ghost(nodes), Ghost(n0));
                        proof {
                            lemma_prefix_trans(nn0, nn1, nn@);
                            lemma_coarsens_trans(uf0, uf1, ssa.uf@);
                            lemma_has_mono(nodes, nn1, nn@, SSAValue::Constant(2), two);
                            assert(has_node(nodes, nn@, SSAValue::Constant(2), two) && merged_with_node(
                                nodes,
                                nn@,
                                ssa.uf@,
                                id,
                                SSAValue::Binary(BinaryOp::Mul, two, l),
                            ));
                            assert forall|q: Seq<ClassId>| merges_within(uf_in, q) && #[trigger] rule_bound(q, value, id, emv, ivs, nodes, nn@)
                                implies merges_within(ssa.uf@, q) by {
                                lemma_within_add(uf0, uf1, q);
                                assert forall|c: ClassId| #[trigger] has_node(nodes, nn@, SSAValue::Binary(BinaryOp::Mul, two, l), c)
                                    implies q[id as int] == q[c as int] by {
                                    assert(rule_target(value, emv, ivs, nodes, nn@, c));
                                }
                                assert(node_bound(q, nodes, nn@, id, SSAValue::Binary(BinaryOp::Mul, two, l)));
                            }
                            assert forall|x: int| nn0.len() <= x < nn@.len() implies #[trigger] rule_node(value, emv, ivs, nodes, nn@, nn@[x].0) by {
                                if x < nn1.len() {
                                    assert(nn@.subrange(0, nn1.len() as int)[x] == nn1[x]);
                                    assert(nn1 == nn0.push((SSAValue::Constant(2), two)));
                                } else {
                                    assert(nn@[x].0 == SSAValue::Binary(BinaryOp::Mul, two, l));
                                }
                            }
                        }
                    } else if is_constant(em, analyses, l, 0) {
                        merge(ssa, id, r, Ghost(nodes), Ghost(nn@), Ghost(n0));
                        proof {
                            assert forall|q: Seq<ClassId>| merges_within(uf_in, q) && #[trigger] rule_bound(q, value, id, emv, ivs, nodes, nn@)
                                implies merges_within(ssa.uf@, q) by {
                                assert(rule_target(value, emv, ivs, nodes, nn@, r));
                                lemma_within_union(uf_in, q, id as int, r as int);
                            }
                        }
                    } else {
                        rewrite_add(ssa, nn, em, id, l, r, Ghost(nodes), Ghost(n0));
                        proof {
                            assert forall|q: Seq<ClassId>| merges_within(uf_in, q) && #[trigger] rule_bound(q, value, id, emv, ivs, nodes, nn@)
                                implies merges_within(ssa.uf@, q) by {
                                assert forall|c: ClassId| #[trigger] add_target(emv, nodes, nn@, l, r, c) implies q[id as int] == q[c as int] by {
                                    assert(rule_target(value, emv, ivs, nodes, nn@, c));
                                }
                                assert(add_bound(q, emv, nodes, nn@, id, l, r));
                            }
                        }
                    }
                },
                BinaryOp::Mul => {
                    if is_constant(em, analyses, l, 2) {
                        merge_with(ssa, nn, id, SSAValue::Binary(BinaryOp::Add, r, r), Ghost(nodes), Ghost(n0));
                        proof {
                            assert forall|q: Seq<ClassId>| merges_within(uf_in, q) && #[trigger] rule_bound(q, value, id, emv, ivs, nodes, nn@)
                                implies merges_within(ssa.uf@, q) by {
                                assert forall|c: ClassId| #[trigger] has_node(nodes, nn@, SSAValue::Binary(BinaryOp::Add, r, r), c)
                                    implies q[id as int] == q[c as int] by {
                                    assert(rule_target(value, emv, ivs, nodes, nn@, c));
                                }
                                assert(node_bound(q, nodes, nn@, id, SSAValue::Binary(BinaryOp::Add, r, r)));
                            }
                        }
                    } else if is_constant(em, analyses, l, 1) {
                        merge(ssa, id, r, Ghost(nodes), Ghost(nn@), Ghost(n0));
                        proof {
                            assert forall|q: Seq<ClassId>| merges_within(uf_in, q) && #[trigger] rule_bound(q, value, id, emv, ivs, nodes, nn@)
                                implies merges_within(ssa.uf@, q) by {
                                assert(rule_target(value, emv, ivs, nodes, nn@, r));
                                lemma_within_union(uf_in, q, id as int, r as int);
                            }
                        }
                    } else {
                        rewrite_mul(ssa, nn, em, id, l, r, Ghost(nodes), Ghost(n0));
                        proof {
                            assert forall|q: Seq<ClassId>| merges_within(uf_in, q) && #[trigger] rule_bound(q, value, id, emv, ivs, nodes, nn@)
                                implies merges_within(ssa.uf@, q) by {
                                assert forall|c: ClassId| #[trigger] mul_target(emv, nodes, nn@, l, r, c) implies q[id as int] == q[c as int] by {
                                    assert(rule_target(value, emv, ivs, nodes, nn@, c));
                                }
                                assert(mul_bound(q, emv, nodes, nn@, id, l, r));
                            }
                        }
                    }
                },
                BinaryOp::Sub => {
                    if l == r {
                        merge_with(ssa, nn, id, SSAValue::Constant(0), Ghost(nodes), Ghost(n0));
                        proof {
                            assert forall|q: Seq<ClassId>| merges_within(uf_in, q) && #[trigger] rule_bound(q, value, id, emv, ivs, nodes, nn@)
                                implies merges_within(ssa.uf@, q) by {
                                assert forall|c: ClassId| #[trigger] has_node(nodes, nn@, SSAValue::Constant(0), c) implies q[id as int]
                                    == q[c as int] by {
                                    assert(rule_target(value, emv, ivs, nodes, nn@, c));
                                }
                                assert(node_bound(q, nodes, nn@, id, SSAValue::Constant(0)));
                            }
                        }
                    } else {
                        rewrite_sub(ssa, em, id, l, r, Ghost(nodes), Ghost(nn@), Ghost(n0));
                        proof {
                            assert forall|q: Seq<ClassId>| merges_within(uf_in, q) && #[trigger] rule_bound(q, value, id, emv, ivs, nodes, nn@)
                                implies merges_within(ssa.uf@, q) by {
                                assert forall|c: ClassId| #[trigger] sub_target(emv, l, r, c) implies q[id as int] == q[c as int] by {
                                    assert(rule_target(value, emv, ivs, nodes, nn@, c));
                                }
                                assert(sub_bound(q, emv, id, l, r));
                            }
                        }
                    }
                },
                BinaryOp::EE => {
                    if l == r {
                        merge_with(ssa, nn, id, SSAValue::Constant(1), Ghost(nodes), Ghost(n0));
                        proof {
                            assert forall|q: Seq<ClassId>| merges_within(uf_in, q) && #[trigger] rule_bound(q, value, id, emv, ivs, nodes, nn@)
                                implies merges_within(ssa.uf@, q) by {
                                assert forall|c: ClassId| #[trigger] has_node(nodes, nn@, SSAValue::Constant(1), c) implies q[id as int]
                                    == q[c as int] by {
                                    assert(rule_target(value, emv, ivs, nodes, nn@, c));
                                }
                                assert(node_bound(q, nodes, nn@, id, SSAValue::Constant(1)));
                            }
                        }
                    }
                },
                BinaryOp::NE => {
                    if l == r {
                        merge_with(ssa, nn, id, SSAValue::Constant(0), Ghost(nodes), Ghost(n0));
                        proof {
                            assert forall|q: Seq<ClassId>| merges_within(uf_in, q) && #[trigger] rule_bound(q, value, id, emv, ivs, nodes, nn@)
                                implies merges_within(ssa.uf@, q) by {
                                assert forall|c: ClassId| #[trigger] has_node(nodes, nn@, SSAValue::Constant(0), c) implies q[id as int]
                                    == q[c as int] by {
                                    assert(rule_target(value, emv, ivs, nodes, nn@, c));
                                }
                                assert(node_bound(q, nodes, nn@, id, SSAValue::Constant(0)));
                            }
                        }
                    }
                },
                _ => {},
            }
        },
        _ => {},
    }
}

/// Applies the rewrites to every value of the graph, then merges every
/// class with the class its analysis value number stands for. New classes
/// are made for values the graph does not hold; those values are returned
/// with their classes, for the caller to add, and each of them is one that a
/// rule asks for on some value of the graph (`rules_ask_for`). The graph's
/// values and roots are left alone; its classes only merge, and only as the
/// rules and the value numbers ask: any partition that keeps the old merges and makes the
/// ones `rewrite_bound` lists makes every merge of the result.
fn rewrites(ssa: &mut SSAGraph, em: &Vec<Vec<SSAValue>>, analyses: &Analyses) -> (new_nodes: Vec<(SSAValue, ClassId)>)
    requires
        old(ssa).uf.wf(),
        old(ssa).keys_valid(),
        forall|v: SSAValue|
            #[trigger] old(ssa).nodes().contains_key(v) ==> (old(ssa).nodes()[v] as int) < old(ssa).num_ids()
                && forall|x: int| 0 <= x < uses_of(v).len() ==> (#[trigger] uses_of(v)[x] as int) < old(ssa).num_ids(),
        em@.len() == old(ssa).num_ids(),
        em_bounded(em_view(em), old(ssa).num_ids()),
        analyses.value_number_uf.wf(),
        analyses.value_number_uf@.len() <= old(ssa).num_ids(),
    ensures
        step_inv(*final(ssa), old(ssa).nodes(), new_nodes@, old(ssa).num_ids()),
        final(ssa).roots == old(ssa).roots,
        final(ssa).values == old(ssa).values,
        coarsens(old(ssa).uf@, final(ssa).uf@),
        forall|v: SSAValue|
            #[trigger] old(ssa).nodes().contains_key(v) ==> rule_holds(
                v,
                old(ssa).nodes()[v],
                em_view(em),
                analyses.intervals@,
                old(ssa).nodes(),
                new_nodes@,
                final(ssa).uf@,
            ),
        forall|i: int|
            0 <= i < analyses.value_number_uf@.len() ==> final(ssa).uf@[i] == #[trigger] final(ssa).uf@[analyses.value_number_uf@[i] as int],
        rules_ask_for(em_view(em), analyses.intervals@, old(ssa).nodes(), new_nodes@),
        forall|q: Seq<ClassId>|
            merges_within(old(ssa).uf@, q) && #[trigger] rewrite_bound(
                q,
                em_view(em),
                analyses.intervals@,
                old(ssa).nodes(),
                new_nodes@,
                analyses.value_number_uf@,
            ) ==> merges_within(final(ssa).uf@, q),
{
    let ghost nodes = ssa.nodes();
    let ghost emv = em_view(em);
    let ghost ivs = analyses.intervals@;
    let ghost uf_s = ssa.uf@;
    let ghost ssa_s = *ssa;
    proof {
        ssa.uf.lemma_wf();
    }
    let n0 = ssa.uf.num_ids();
    let entries = ssa.value_entries();
    let mut new_nodes: Vec<(SSAValue, ClassId)> = Vec::new();
    proof {
        assert forall|k: int|
            0 <= k < new_nodes@.len() implies (#[trigger] new_nodes@[k]).1 == n0 + k && (new_nodes@[k].0 is Constant || new_nodes@[k].0 is Binary)
            && forall|x: int| 0 <= x < uses_of(new_nodes@[k].0).len() ==> (#[trigger] uses_of(new_nodes@[k].0)[x] as int) < n0 + k by {
        }
    }
    proof {
        reveal(rules_ask_for);
    }
    let mut i: usize = 0;
    while i < entries.len()
        invariant
            rw_ready(*ssa, emv, nodes, new_nodes@, n0 as nat),
            emv == em_view(em),
            ivs == analyses.intervals@,
            n0 == uf_s.len(),
            nodes == ssa_s.nodes(),
            i <= entries@.len(),
            ssa.roots == ssa_s.roots,
            ssa.values == ssa_s.values,
            coarsens(uf_s, ssa.uf@),
            forall|x: int|
                0 <= x < entries@.len() ==> nodes.contains_key(#[trigger] entries@[x].0) && nodes[entries@[x].0] == entries@[x].1,
            forall|v: SSAValue|
                #[trigger] nodes.contains_key(v) ==> (nodes[v] as int) < n0 && forall|x: int|
                    0 <= x < uses_of(v).len() ==> (#[trigger] uses_of(v)[x] as int) < n0,
            forall|x: int|
                0 <= x < i ==> rule_holds(#[trigger] entries@[x].0, entries@[x].1, emv, ivs, nodes, new_nodes@, ssa.uf@),
            forall|q: Seq<ClassId>|
                merges_within(uf_s, q) && #[trigger] entries_bound(q, entries@, i as int, emv, ivs, nodes, new_nodes@)
                    ==> merges_within(ssa.uf@, q),
            rules_ask_for(emv, ivs, nodes, new_nodes@),
        decreases entries@.len() - i,
    {
        let (value, id) = entries[i];
        let ghost nn0 = new_nodes@;
        let ghost uf0 = ssa.uf@;
        proof {
            assert(nodes.contains_key(value));
            lemma_step_bounded(*ssa, nodes, new_nodes@, n0 as nat);
        }
        rewrite_node(ssa, &mut new_nodes, em, analyses, value, id, Ghost(nodes), Ghost(n0 as nat));
        proof {
            lemma_coarsens_trans(uf_s, uf0, ssa.uf@);
            assert forall|x: int| 0 <= x < i + 1 implies rule_holds(#[trigger] entries@[x].0, entries@[x].1, emv, ivs, nodes, new_nodes@, ssa.uf@) by {
                if x < i {
                    let w = entries@[x].0;
                    assert(nodes.contains_key(w));
                    lemma_rule_mono(w, entries@[x].1, emv, ivs, nodes, nn0, uf0, new_nodes@, ssa.uf@);
                }
            }
            lemma_rules_ask_for_step(emv, ivs, nodes, nn0, new_nodes@, value);
            assert forall|q: Seq<ClassId>| merges_within(uf_s, q) && #[trigger] entries_bound(q, entries@, i + 1, emv, ivs, nodes, new_nodes@)
                implies merges_within(ssa.uf@, q) by {
                assert forall|x: int| 0 <= x < i implies #[trigger] rule_bound(q, entries@[x].0, entries@[x].1, emv, ivs, nodes, nn0) by {
                    assert(rule_bound(q, entries@[x].0, entries@[x].1, emv, ivs, nodes, new_nodes@));
                    lemma_rule_bound_mono(q, entries@[x].0, entries@[x].1, emv, ivs, nodes, nn0, new_nodes@);
                }
                assert(entries_bound(q, entries@, i as int, emv, ivs, nodes, nn0));
                assert(merges_within(uf0, q));
                assert(entries@[i as int] == (value, id));
                assert(rule_bound(q, value, id, emv, ivs, nodes, new_nodes@));
            }
        }
        i = i + 1;
    }
    let m = analyses.value_number_uf.num_ids();
    let mut id: usize = 0;
    proof {
        analyses.value_number_uf.lemma_wf();
    }
    while id < m
        invariant
            rw_ready(*ssa, emv, nodes, new_nodes@, n0 as nat),
            emv == em_view(em),
            ivs == analyses.intervals@,
            n0 == uf_s.len(),
            nodes == ssa_s.nodes(),
            m == analyses.value_number_uf@.len(),
            m <= n0,
            analyses.value_number_uf.wf(),
            is_rep_map(analyses.value_number_uf@),
            id <= m,
            ssa.roots == ssa_s.roots,
            ssa.values == ssa_s.values,
            coarsens(uf_s, ssa.uf@),
            forall|x: int|
                0 <= x < entries@.len() ==> nodes.contains_key(#[trigger] entries@[x].0) && nodes[entries@[x].0] == entries@[x].1,
            forall|v: SSAValue|
                #[trigger] nodes.contains_key(v) ==> (nodes[v] as int) < n0 && forall|x: int|
                    0 <= x < uses_of(v).len() ==> (#[trigger] uses_of(v)[x] as int) < n0,
            forall|x: int|
                0 <= x < entries@.len() ==> rule_holds(#[trigger] entries@[x].0, entries@[x].1, emv, ivs, nodes, new_nodes@, ssa.uf@),
            forall|x: int| 0 <= x < id ==> ssa.uf@[x] == #[trigger] ssa.uf@[analyses.value_number_uf@[x] as int],
            rules_ask_for(emv, ivs, nodes, new_nodes@),
            forall|q: Seq<ClassId>|
                merges_within(uf_s, q) && entries_bound(q, entries@, entries@.len() as int, emv, ivs, nodes, new_nodes@)
                    && #[trigger] vn_upto(q, analyses.value_number_uf@, id as int) ==> merges_within(ssa.uf@, q),
        decreases m - id,
    {
        let root = analyses.value_number_uf.root_of(id);
        let ghost uf0 = ssa.uf@;
        proof {
            lemma_step_bounded(*ssa, nodes, new_nodes@, n0 as nat);
            lemma_prefix_refl(new_nodes@);
        }
        merge(ssa, id, root, Ghost(nodes), Ghost(new_nodes@), Ghost(n0 as nat));
        proof {
            lemma_coarsens_trans(uf_s, uf0, ssa.uf@);
            assert forall|x: int| 0 <= x < entries@.len() implies rule_holds(#[trigger] entries@[x].0, entries@[x].1, emv, ivs, nodes, new_nodes@, ssa.uf@) by {
                let w = entries@[x].0;
                assert(nodes.contains_key(w));
                lemma_rule_mono(w, entries@[x].1, emv, ivs, nodes, new_nodes@, uf0, new_nodes@, ssa.uf@);
            }
            assert forall|x: int| 0 <= x < id + 1 implies ssa.uf@[x] == #[trigger] ssa.uf@[analyses.value_number_uf@[x] as int] by {
                if x < id {
                    assert(uf0[x] == uf0[analyses.value_number_uf@[x] as int]);
                }
            }
            assert forall|q: Seq<ClassId>|
                merges_within(uf_s, q) && entries_bound(q, entries@, entries@.len() as int, emv, ivs, nodes, new_nodes@)
                    && #[trigger] vn_upto(q, analyses.value_number_uf@, id + 1) implies merges_within(ssa.uf@, q) by {
                assert(vn_upto(q, analyses.value_number_uf@, id as int));
                assert(merges_within(uf0, q));
                assert(q[id as int] == q[analyses.value_number_uf@[id as int] as int]);
                lemma_within_union(uf0, q, id as int, root as int);
            }
        }
        id = id + 1;
    }
    proof {
        assert forall|v: SSAValue| #[trigger] nodes.contains_key(v) implies rule_holds(v, nodes[v], emv, ivs, nodes, new_nodes@, ssa.uf@) by {
            let x = choose|x: int| 0 <= x < entries@.len() && #[trigger] entries@[x].0 == v;
        }
        assert forall|q: Seq<ClassId>|
            merges_within(uf_s, q) && #[trigger] rewrite_bound(q, emv, ivs, nodes, new_nodes@, analyses.value_number_uf@)
                implies merges_within(ssa.uf@, q) by {
            assert forall|x: int| 0 <= x < entries@.len() implies #[trigger] rule_bound(q, entries@[x].0, entries@[x].1, emv, ivs, nodes, new_nodes@) by {
                assert(nodes.contains_key(entries@[x].0));
            }
            assert(entries_bound(q, entries@, entries@.len() as int, emv, ivs, nodes, new_nodes@));
            assert(vn_upto(q, analyses.value_number_uf@, m as int));
        }
    }
    new_nodes
}

/// `canon_value` keeps operands below the size of the union-find.
proof fn lemma_canon_bounded(v: SSAValue, rep: Seq<ClassId>)
    requires
        is_rep_map(rep),
        forall|x: int| 0 <= x < uses_of(v).len() ==> (#[trigger] uses_of(v)[x] as int) < rep.len(),
    ensures
        forall|x: int| 0 <= x < uses_of(canon_value(v, rep)).len() ==> (#[trigger] uses_of(canon_value(v, rep))[x] as int) < rep.len(),
{
    match v {
        SSAValue::Phi(_, l, r) => {
            assert(uses_of(v)[0] == l && uses_of(v)[1] == r);
        },
        SSAValue::Unary(_, x) => {
            assert(uses_of(v)[0] == x);
        },
        SSAValue::Binary(_, l, r) => {
            assert(uses_of(v)[0] == l && uses_of(v)[1] == r);
        },
        _ => {},
    }
}

proof fn lemma_push_contains_val(s: Seq<SSAValue>, x: SSAValue)
    ensures
        forall|y: SSAValue| #[trigger] s.push(x).contains(y) <==> (s.contains(y) || y == x),
{
    assert forall|y: SSAValue| #[trigger] s.push(x).contains(y) implies (s.contains(y) || y == x) by {
        let i = choose|i: int| 0 <= i < s.push(x).len() && s.push(x)[i] == y;
        if i < s.len() {
            assert(s[i] == y);
        }
    }
    assert forall|y: SSAValue| (s.contains(y) || y == x) implies #[trigger] s.push(x).contains(y) by {
        if y == x {
            assert(s.push(x)[s.len() as int] == y);
        } else {
            let i = choose|i: int| 0 <= i < s.len() && s[i] == y;
            assert(s.push(x)[i] == y);
        }
    }
}

/// The values of every class of the graph: entry `c` lists the values of
/// class `c`, each once.
fn eclass_map(ssa: &SSAGraph) -> (em: Vec<Vec<SSAValue>>)
    requires
        ssa.uf.wf(),
        ssa.keys_valid(),
        forall|v: SSAValue|
            #[trigger] ssa.nodes().contains_key(v) ==> (ssa.nodes()[v] as int) < ssa.num_ids() && forall|x: int|
                0 <= x < uses_of(v).len() ==> (#[trigger] uses_of(v)[x] as int) < ssa.num_ids(),
    ensures
        em@.len() == ssa.num_ids(),
        em_bounded(em_view(&em), ssa.num_ids()),
        forall|c: int, v: SSAValue|
            0 <= c < em@.len() ==> (#[trigger] em_view(&em)[c].contains(v) <==> (ssa.nodes().contains_key(v)
                && ssa.nodes()[v] == c)),
{
    proof {
        ssa.uf.lemma_wf();
    }
    let n = ssa.uf.num_ids();
    let entries = ssa.value_entries();
    let mut em: Vec<Vec<SSAValue>> = Vec::new();
    let mut c: usize = 0;
    while c < n
        invariant
            c <= n,
            em@.len() == c,
            forall|d: int| 0 <= d < c ==> (#[trigger] em@[d])@ == Seq::<SSAValue>::empty(),
        decreases n - c,
    {
        em.push(Vec::new());
        c = c + 1;
    }
    let mut i: usize = 0;
    while i < entries.len()
        invariant
            n == ssa.num_ids(),
            em@.len() == n,
            i <= entries@.len(),
            forall|x: int|
                0 <= x < entries@.len() ==> ssa.nodes().contains_key(#[trigger] entries@[x].0) && ssa.nodes()[entries@[x].0] == entries@[x].1,
            forall|v: SSAValue|
                #[trigger] ssa.nodes().contains_key(v) ==> (ssa.nodes()[v] as int) < n && forall|x: int|
                    0 <= x < uses_of(v).len() ==> (#[trigger] uses_of(v)[x] as int) < n,
            forall|d: int, v: SSAValue|
                0 <= d < n ==> (#[trigger] em@[d]@.contains(v) <==> exists|x: int| 0 <= x < i && #[trigger] entries@[x] == (v, d as ClassId)),
        decreases entries@.len() - i,
    {
        let (v, id) = entries[i];
        proof {
            assert(ssa.nodes().contains_key(v));
        }
        let ghost e0 = em@;
        em[id].push(v);
        proof {
            lemma_push_contains_val(e0[id as int]@, v);
            assert forall|d: int, w: SSAValue|
                0 <= d < n implies (#[trigger] em@[d]@.contains(w) <==> exists|x: int| 0 <= x < i + 1 && #[trigger] entries@[x] == (w, d as ClassId)) by {
                if exists|x: int| 0 <= x < i + 1 && #[trigger] entries@[x] == (w, d as ClassId) {
                    let x = choose|x: int| 0 <= x < i + 1 && #[trigger] entries@[x] == (w, d as ClassId);
                    if x < i {
                        assert(e0[d]@.contains(w));
                    }
                }
                if em@[d]@.contains(w) && !(d == id && w == v) {
                    assert(e0[d]@.contains(w));
                }
                if d == id && w == v {
                    assert(entries@[i as int] == (w, d as ClassId));
                }
            }
        }
        i = i + 1;
    }
    proof {
        assert forall|c: int, v: SSAValue| 0 <= c < em@.len() implies (#[trigger] em_view(&em)[c].contains(v) <==> (ssa.nodes().contains_key(v)
            && ssa.nodes()[v] == c)) by {
            assert(em_view(&em)[c] == em@[c]@);
            if em@[c]@.contains(v) {
                let x = choose|x: int| 0 <= x < entries@.len() && #[trigger] entries@[x] == (v, c as ClassId);
                assert(entries@[x].0 == v);
            }
            if ssa.nodes().contains_key(v) && ssa.nodes()[v] == c {
                let x = choose|x: int| 0 <= x < entries@.len() && #[trigger] entries@[x].0 == v;
                assert(entries@[x] == (v, c as ClassId));
            }
        }
        assert forall|c: int, k: int| 0 <= c < em_view(&em).len() && 0 <= k < em_view(&em)[c].len() implies forall|x: int|
            0 <= x < uses_of(#[trigger] em_view(&em)[c][k]).len() ==> (#[trigger] uses_of(em_view(&em)[c][k])[x] as int) < em_view(&em).len() by {
            let w = em_view(&em)[c][k];
            assert(em@[c]@[k] == w);
            assert(em@[c]@.contains(w));
            assert(ssa.nodes().contains_key(w));
        }
    }
    em
}

/// Adds `v` to the values of class `c`.
fn em_push(em: &mut Vec<Vec<SSAValue>>, c: usize, v: SSAValue)
    requires
        c < old(em)@.len(),
    ensures
        final(em)@.len() == old(em)@.len(),
        em_view(final(em)) == em_view(old(em)).update(c as int, em_view(old(em))[c as int].push(v)),
{
    em[c].push(v);
    proof {
        assert(em_view(em) =~= em_view(old(em)).update(c as int, em_view(old(em))[c as int].push(v)));
    }
}

/// Restores the invariants of the e-graph after classes merged: values
/// that collide once their operands are replaced by representatives are
/// merged until none do, and roots and conditions are replaced by
/// representatives; the classes' values are regrouped under the
/// representatives, with canonical operands.
fn rebuild(ssa: &mut SSAGraph, cfg: &mut CFG, em: &mut Vec<Vec<SSAValue>>)
    requires
        old(ssa).wf(cfg_view(old(cfg))),
        old(em)@.len() == old(ssa).num_ids(),
        em_bounded(em_view(old(em)), old(ssa).num_ids()),
    ensures
        final(ssa).wf(cfg_view(final(cfg))),
        final(ssa).canonical(cfg_view(final(cfg))),
        coarsens(old(ssa).uf@, final(ssa).uf@),
        final(ssa).num_ids() == old(ssa).num_ids(),
        final(em)@.len() == final(ssa).num_ids(),
        em_bounded(em_view(final(em)), final(ssa).num_ids()),
        cfg_view(final(cfg)).len() == cfg_view(old(cfg)).len(),
        forall|b: int| 0 <= b < cfg_view(old(cfg)).len() ==> (#[trigger] cfg_view(final(cfg))[b]).len() == cfg_view(old(cfg))[b].len(),
        forall|b: int, k: int| 0 <= b < cfg_view(old(cfg)).len() && 0 <= k < cfg_view(old(cfg))[b].len() ==>
            (#[trigger] cfg_view(final(cfg))[b][k]).0 == cfg_view(old(cfg))[b][k].0 && cfg_view(final(cfg))[b][k].2 == cfg_view(old(cfg))[b][k].2,
        forall|v: SSAValue| #[trigger] old(ssa).nodes().contains_key(v) ==> represents(*final(ssa), v, old(ssa).nodes()[v]),
        final(ssa).roots@.len() == old(ssa).roots@.len(),
        forall|k: int|
            0 <= k < old(ssa).roots@.len() ==> #[trigger] final(ssa).roots@[k] == (
                old(ssa).roots@[k].0,
                final(ssa).uf@[old(ssa).roots@[k].1 as int],
            ),
        forall|b: int, k: int| 0 <= b < cfg_view(old(cfg)).len() && 0 <= k < cfg_view(old(cfg))[b].len() ==>
            (#[trigger] cfg_view(final(cfg))[b][k]).1 == final(ssa).uf@[cfg_view(old(cfg))[b][k].1 as int],
        forall|c: int, k: int|
            0 <= c < em_view(old(em)).len() && 0 <= k < em_view(old(em))[c].len() ==> em_view(final(em))[final(ssa).uf@[c] as int].contains(
                canon_value(#[trigger] em_view(old(em))[c][k], final(ssa).uf@),
            ),
        forall|d: int, j: int|
            0 <= d < em_view(final(em)).len() && 0 <= j < em_view(final(em))[d].len() ==> exists|c: int, k: int|
                0 <= c < em_view(old(em)).len() && 0 <= k < em_view(old(em))[c].len() && final(ssa).uf@[c] == d
                    && #[trigger] em_view(final(em))[d][j] == canon_value(em_view(old(em))[c][k], final(ssa).uf@),
{
    canonicalize_graph(ssa, cfg, Ghost((usize::MAX as nat) + 1));
    proof {
        ssa.uf.lemma_wf();
    }
    let ghost s1 = *ssa;
    let ghost c1 = cfg_view(cfg);
    let n = ssa.uf.num_ids();
    let ghost old_emv = em_view(em);
    let mut new_em: Vec<Vec<SSAValue>> = Vec::new();
    let mut c2: usize = 0;
    while c2 < n
        invariant
            c2 <= n,
            new_em@.len() == c2,
            forall|d: int| 0 <= d < c2 ==> (#[trigger] new_em@[d])@ == Seq::<SSAValue>::empty(),
        decreases n - c2,
    {
        new_em.push(Vec::new());
        c2 = c2 + 1;
    }
    let mut c: usize = 0;
    while c < em.len()
        invariant
            c <= em@.len(),
            n == ssa.uf@.len(),
            ssa.uf.wf(),
            s1.wf(c1),
            s1.canonical(c1),
            ssa.uf@ == s1.uf@,
            ssa.values == s1.values,
            ssa.roots == s1.roots,
            cfg_view(cfg) == c1,
            is_rep_map(ssa.uf@),
            old_emv == em_view(em),
            em@.len() == n,
            em_bounded(old_emv, n as nat),
            new_em@.len() == n,
            forall|d: int, k: int|
                0 <= d < n && 0 <= k < new_em@[d]@.len() ==> forall|x: int|
                    0 <= x < uses_of(#[trigger] new_em@[d]@[k]).len() ==> (#[trigger] uses_of(new_em@[d]@[k])[x] as int) < n,
            forall|c0: int, k0: int|
                0 <= c0 < c && 0 <= k0 < old_emv[c0].len() ==> new_em@[ssa.uf@[c0] as int]@.contains(
                    canon_value(#[trigger] old_emv[c0][k0], ssa.uf@),
                ),
            forall|d: int, j: int|
                0 <= d < n && 0 <= j < new_em@[d]@.len() ==> exists|c0: int, k0: int|
                    0 <= c0 < old_emv.len() && 0 <= k0 < old_emv[c0].len() && ssa.uf@[c0] == d
                        && #[trigger] new_em@[d]@[j] == canon_value(old_emv[c0][k0], ssa.uf@),
        decreases em@.len() - c,
    {
        let root = ssa.uf.find(c);
        proof {
            ssa.uf.lemma_wf();
        }
        let mut k: usize = 0;
        while k < em[c].len()
            invariant
                c < em@.len(),
                (root as int) < n,
                k <= em@[c as int]@.len(),
                n == ssa.uf@.len(),
                ssa.uf.wf(),
                s1.wf(c1),
                s1.canonical(c1),
                ssa.uf@ == s1.uf@,
                ssa.values == s1.values,
                ssa.roots == s1.roots,
                cfg_view(cfg) == c1,
                is_rep_map(ssa.uf@),
                old_emv == em_view(em),
                em@.len() == n,
                em_bounded(old_emv, n as nat),
                new_em@.len() == n,
                forall|d: int, j: int|
                    0 <= d < n && 0 <= j < new_em@[d]@.len() ==> forall|x: int|
                        0 <= x < uses_of(#[trigger] new_em@[d]@[j]).len() ==> (#[trigger] uses_of(new_em@[d]@[j])[x] as int) < n,
                root == ssa.uf@[c as int],
                forall|c0: int, k0: int|
                    0 <= c0 < c && 0 <= k0 < old_emv[c0].len() ==> new_em@[ssa.uf@[c0] as int]@.contains(
                        canon_value(#[trigger] old_emv[c0][k0], ssa.uf@),
                    ),
                forall|k0: int|
                    0 <= k0 < k ==> new_em@[root as int]@.contains(canon_value(#[trigger] old_emv[c as int][k0], ssa.uf@)),
                forall|d: int, j: int|
                    0 <= d < n && 0 <= j < new_em@[d]@.len() ==> exists|c0: int, k0: int|
                        0 <= c0 < old_emv.len() && 0 <= k0 < old_emv[c0].len() && ssa.uf@[c0] == d
                            && #[trigger] new_em@[d]@[j] == canon_value(old_emv[c0][k0], ssa.uf@),
            decreases em@[c as int]@.len() - k,
        {
            let v = em[c][k];
            proof {
                assert(old_emv[c as int][k as int] == v);
                assert(forall|x: int| 0 <= x < uses_of(v).len() ==> (#[trigger] uses_of(v)[x] as int) < n);
            }
            let cv = canonicalize_value(v, &mut ssa.uf);
            proof {
                lemma_canon_bounded(v, ssa.uf@);
            }
            if !vec_contains(&new_em[root], cv) {
                let ghost e0 = new_em@;
                new_em[root].push(cv);
                proof {
                    assert forall|d: int, j: int|
                        0 <= d < n && 0 <= j < new_em@[d]@.len() implies forall|x: int|
                        0 <= x < uses_of(#[trigger] new_em@[d]@[j]).len() ==> (#[trigger] uses_of(new_em@[d]@[j])[x] as int) < n by {
                        if d != root || j < e0[d]@.len() {
                            assert(new_em@[d]@[j] == e0[d]@[j]);
                        }
                    }
                    assert forall|d: int| 0 <= d < n implies #[trigger] e0[d]@.subrange(0, e0[d]@.len() as int)
                        == new_em@[d]@.subrange(0, e0[d]@.len() as int) by {
                        if d == root as int {
                            assert(new_em@[d]@ == e0[d]@.push(cv));
                        }
                        assert(e0[d]@.subrange(0, e0[d]@.len() as int) =~= new_em@[d]@.subrange(0, e0[d]@.len() as int));
                    }
                    assert forall|c0: int, k0: int|
                        0 <= c0 < c && 0 <= k0 < old_emv[c0].len() implies new_em@[ssa.uf@[c0] as int]@.contains(
                        canon_value(#[trigger] old_emv[c0][k0], ssa.uf@)) by {
                        let d = ssa.uf@[c0] as int;
                        let x = canon_value(old_emv[c0][k0], ssa.uf@);
                        assert(e0[d]@.contains(x));
                        let j = choose|j: int| 0 <= j < e0[d]@.len() && e0[d]@[j] == x;
                        assert(e0[d]@.subrange(0, e0[d]@.len() as int)[j] == new_em@[d]@[j]);
                    }
                    assert forall|k0: int|
                        0 <= k0 < k + 1 implies new_em@[root as int]@.contains(canon_value(#[trigger] old_emv[c as int][k0], ssa.uf@)) by {
                        let d = root as int;
                        if k0 == k {
                            assert(new_em@[d]@[e0[d]@.len() as int] == cv);
                        } else {
                            let x = canon_value(old_emv[c as int][k0], ssa.uf@);
                            assert(e0[d]@.contains(x));
                            let j = choose|j: int| 0 <= j < e0[d]@.len() && e0[d]@[j] == x;
                            assert(e0[d]@.subrange(0, e0[d]@.len() as int)[j] == new_em@[d]@[j]);
                        }
                    }
                    assert forall|d: int, j: int|
                        0 <= d < n && 0 <= j < new_em@[d]@.len() implies exists|c0: int, k0: int|
                        0 <= c0 < old_emv.len() && 0 <= k0 < old_emv[c0].len() && ssa.uf@[c0] == d
                            && #[trigger] new_em@[d]@[j] == canon_value(old_emv[c0][k0], ssa.uf@) by {
                        if d != root || j < e0[d]@.len() {
                            assert(new_em@[d]@[j] == e0[d]@[j]);
                        } else {
                            assert(new_em@[d]@[j] == cv);
                            assert(old_emv[c as int][k as int] == v);
                        }
                    }
                }
            }
            k = k + 1;
        }
        c = c + 1;
    }
    proof {
        assert(ssa.uf.wf());
        assert(ssa.values == s1.values);
        assert(s1.wf(c1));
        assert(ssa.nodes() == s1.nodes());
        assert(ssa.wf(c1));
    }
    *em = new_em;
    proof {
        assert forall|v: SSAValue| #[trigger] old(ssa).nodes().contains_key(v) implies represents(*ssa, v, old(ssa).nodes()[v]) by {
            assert(represents(s1, v, old(ssa).nodes()[v]));
            assert(ssa.nodes() == s1.nodes());
        }
    }
    proof {
        assert(ssa.wf(c1));
        assert(ssa.canonical(c1));
        assert forall|c: int, k: int| 0 <= c < em_view(em).len() && 0 <= k < em_view(em)[c].len() implies forall|x: int|
            0 <= x < uses_of(#[trigger] em_view(em)[c][k]).len() ==> (#[trigger] uses_of(em_view(em)[c][k])[x] as int) < em_view(em).len() by {
            assert(em_view(em)[c][k] == em@[c]@[k]);
        }
    }
}

/// Whether the rewrite rules add nothing to a graph: listing the values of
/// each class (in some order) in `em`, every value that the rules ask for,
/// paired in `nn` with the class it is to join, is already in the graph, in
/// a class merged with that one.
pub open spec fn saturated(nodes: Map<SSAValue, ClassId>, num_ids: nat, ivs: Seq<Option<Interval>>, rep: Seq<ClassId>) -> bool {
    exists|em: Seq<Seq<SSAValue>>, nn: Seq<(SSAValue, ClassId)>|
        #![trigger em.len(), nn.len()]
        {
            &&& em.len() == num_ids
            &&& forall|c: int, v: SSAValue|
                0 <= c < em.len() ==> (#[trigger] em[c].contains(v) <==> nodes.contains_key(v) && nodes[v] == c)
            &&& forall|k: int|
                0 <= k < nn.len() ==> nodes.contains_key((#[trigger] nn[k]).0) && merged(rep, nn[k].1, nodes[nn[k].0])
            &&& forall|v: SSAValue| #[trigger] nodes.contains_key(v) ==> rule_holds(v, nodes[v], em, ivs, nodes, nn, rep)
        }
}

/// What a run of saturation makes of the graph it started from (values
/// `nodes` over `num_ids` ids), given the values of each class listed in
/// `em` and the values that the first round's rules asked for, each with
/// the class it was to join, in `nn`: every rule holds of every original
/// value under the final union-find, and the final graph `fin` represents
/// every original value and every value asked for.
pub open spec fn saturation_holds(
    nodes: Map<SSAValue, ClassId>,
    num_ids: nat,
    ivs: Seq<Option<Interval>>,
    em: Seq<Seq<SSAValue>>,
    nn: Seq<(SSAValue, ClassId)>,
    fin: SSAGraph,
) -> bool {
    &&& em.len() == num_ids
    &&& forall|c: int, v: SSAValue| 0 <= c < em.len() ==> (#[trigger] em[c].contains(v) <==> nodes.contains_key(v) && nodes[v] == c)
    &&& forall|v: SSAValue|
        #[trigger] nodes.contains_key(v) ==> rule_holds(v, nodes[v], em, ivs, nodes, nn, fin.uf@) && represents(fin, v, nodes[v])
    &&& forall|k: int| 0 <= k < nn.len() ==> represents(fin, (#[trigger] nn[k]).0, nn[k].1)
}

/// The bounds under which `saturation_holds` carries over to a later graph.
pub open spec fn holds_bounded(nodes: Map<SSAValue, ClassId>, num_ids: nat, em: Seq<Seq<SSAValue>>, nn: Seq<(SSAValue, ClassId)>, n: nat) -> bool {
    &&& num_ids <= n
    &&& ids_bounded(nodes, nn, n)
    &&& em_bounded(em, n)
    &&& forall|v: SSAValue| #[trigger] nodes.contains_key(v) ==> uses_below(v, num_ids)
    &&& forall|k: int| 0 <= k < nn.len() ==> uses_below((#[trigger] nn[k]).0, n)
}

/// Whether `s1` keeps every value of `s0`, in a class merged with its old one.
pub open spec fn keeps_values(s0: SSAGraph, s1: SSAGraph) -> bool {
    forall|w: SSAValue|
        #[trigger] s0.nodes().contains_key(w) ==> s1.nodes().contains_key(w) && s1.uf@[s1.nodes()[w] as int] == s1.uf@[s0.nodes()[w] as int]
}

/// Whether every value of the graph names ids below its union-find's size.
pub open spec fn nodes_below(s: SSAGraph) -> bool {
    forall|w: SSAValue|
        #[trigger] s.nodes().contains_key(w) ==> (s.nodes()[w] as int) < s.uf@.len() && uses_below(w, s.uf@.len())
}

/// `saturation_holds` survives merges that keep every value.
proof fn lemma_holds_keep(
    nodes: Map<SSAValue, ClassId>,
    num_ids: nat,
    ivs: Seq<Option<Interval>>,
    em: Seq<Seq<SSAValue>>,
    nn: Seq<(SSAValue, ClassId)>,
    s0: SSAGraph,
    s1: SSAGraph,
)
    requires
        saturation_holds(nodes, num_ids, ivs, em, nn, s0),
        holds_bounded(nodes, num_ids, em, nn, s0.uf@.len()),
        coarsens(s0.uf@, s1.uf@),
        keeps_values(s0, s1),
        nodes_below(s0),
    ensures
        saturation_holds(nodes, num_ids, ivs, em, nn, s1),
        holds_bounded(nodes, num_ids, em, nn, s1.uf@.len()),
{
    lemma_prefix_refl(nn);
    assert forall|v: SSAValue| #[trigger] nodes.contains_key(v) implies rule_holds(v, nodes[v], em, ivs, nodes, nn, s1.uf@)
        && represents(s1, v, nodes[v]) by {
        lemma_rule_mono(v, nodes[v], em, ivs, nodes, nn, s0.uf@, nn, s1.uf@);
        lemma_represents_keep(s0, s1, v, nodes[v]);
    }
    assert forall|k: int| 0 <= k < nn.len() implies represents(s1, (#[trigger] nn[k]).0, nn[k].1) by {
        lemma_represents_keep(s0, s1, nn[k].0, nn[k].1);
    }
}

/// `saturation_holds` survives a rebuild that represents every value.
proof fn lemma_holds_rebuild(
    nodes: Map<SSAValue, ClassId>,
    num_ids: nat,
    ivs: Seq<Option<Interval>>,
    em: Seq<Seq<SSAValue>>,
    nn: Seq<(SSAValue, ClassId)>,
    s0: SSAGraph,
    s1: SSAGraph,
)
    requires
        saturation_holds(nodes, num_ids, ivs, em, nn, s0),
        holds_bounded(nodes, num_ids, em, nn, s0.uf@.len()),
        coarsens(s0.uf@, s1.uf@),
        forall|w: SSAValue| #[trigger] s0.nodes().contains_key(w) ==> represents(s1, w, s0.nodes()[w]),
        nodes_below(s0),
    ensures
        saturation_holds(nodes, num_ids, ivs, em, nn, s1),
        holds_bounded(nodes, num_ids, em, nn, s1.uf@.len()),
{
    lemma_prefix_refl(nn);
    assert forall|v: SSAValue| #[trigger] nodes.contains_key(v) implies rule_holds(v, nodes[v], em, ivs, nodes, nn, s1.uf@)
        && represents(s1, v, nodes[v]) by {
        lemma_rule_mono(v, nodes[v], em, ivs, nodes, nn, s0.uf@, nn, s1.uf@);
        let c = nodes[v];
        let w0 = choose|w: SSAValue|
            #[trigger] s0.nodes().contains_key(w) && canon_value(w, s0.uf@) == canon_value(v, s0.uf@) && s0.uf@[s0.nodes()[w] as int]
                == s0.uf@[c as int];
        lemma_represents_via(s1, v, c, w0, s0.nodes()[w0], s0.uf@);
    }
    assert forall|k: int| 0 <= k < nn.len() implies represents(s1, (#[trigger] nn[k]).0, nn[k].1) by {
        let v = nn[k].0;
        let c = nn[k].1;
        let w0 = choose|w: SSAValue|
            #[trigger] s0.nodes().contains_key(w) && canon_value(w, s0.uf@) == canon_value(v, s0.uf@) && s0.uf@[s0.nodes()[w] as int]
                == s0.uf@[c as int];
        lemma_represents_via(s1, v, c, w0, s0.nodes()[w0], s0.uf@);
    }
}

/// A represented value stays represented when every value of the graph is.
proof fn lemma_represents_trans(s0: SSAGraph, s1: SSAGraph, v: SSAValue, c: ClassId)
    requires
        represents(s0, v, c),
        forall|w: SSAValue| #[trigger] s0.nodes().contains_key(w) ==> represents(s1, w, s0.nodes()[w]),
        coarsens(s0.uf@, s1.uf@),
        nodes_below(s0),
        uses_below(v, s0.uf@.len()),
        (c as int) < s0.uf@.len(),
    ensures
        represents(s1, v, c),
{
    let w0 = choose|w: SSAValue|
        #[trigger] s0.nodes().contains_key(w) && canon_value(w, s0.uf@) == canon_value(v, s0.uf@) && s0.uf@[s0.nodes()[w] as int]
            == s0.uf@[c as int];
    lemma_represents_via(s1, v, c, w0, s0.nodes()[w0], s0.uf@);
}

/// Equality saturation: at most `max` rounds, each applying the rewrites
/// to every value (with the analysis' intervals and value numbers), adding
/// the new values and rebuilding; it stops early after a round that changes
/// neither the number of values nor the number of classes. Returns whether a
/// round rebuilt the graph; where none did though a round ran, the graph was
/// already saturated. Classes only merge, and the control-flow graph keeps
/// its shape.
pub fn saturate(ssa: &mut SSAGraph, cfg: &mut CFG, analyses: &Analyses, max: usize) -> (changed: bool)
    requires
        old(ssa).wf(cfg_view(old(cfg))),
        analyses.value_number_uf.wf(),
        analyses.value_number_uf@.len() <= old(ssa).num_ids(),
    ensures
        final(ssa).wf(cfg_view(final(cfg))),
        coarsens(old(ssa).uf@, final(ssa).uf@),
        max == 0 ==> !changed,
        forall|v: SSAValue| #[trigger] old(ssa).nodes().contains_key(v) ==> represents(*final(ssa), v, old(ssa).nodes()[v]),
        max > 0 ==> exists|em: Seq<Seq<SSAValue>>, nn: Seq<(SSAValue, ClassId)>|
            #[trigger] saturation_holds(old(ssa).nodes(), old(ssa).num_ids(), analyses.intervals@, em, nn, *final(ssa))
                && holds_bounded(old(ssa).nodes(), old(ssa).num_ids(), em, nn, final(ssa).uf@.len()),
        !changed && max > 0 ==> saturated(old(ssa).nodes(), old(ssa).num_ids(), analyses.intervals@, final(ssa).uf@),
        !changed ==> table_contents(final(ssa).values).len() == table_contents(old(ssa).values).len() && num_roots(
            final(ssa).uf@,
        ) == num_roots(old(ssa).uf@),
        cfg_view(final(cfg)).len() == cfg_view(old(cfg)).len(),
        forall|b: int| 0 <= b < cfg_view(old(cfg)).len() ==> (#[trigger] cfg_view(final(cfg))[b]).len() == cfg_view(old(cfg))[b].len(),
        forall|b: int, k: int| 0 <= b < cfg_view(old(cfg)).len() && 0 <= k < cfg_view(old(cfg))[b].len() ==>
            (#[trigger] cfg_view(final(cfg))[b][k]).0 == cfg_view(old(cfg))[b][k].0 && cfg_view(final(cfg))[b][k].2 == cfg_view(old(cfg))[b][k].2,
        links_kept(*old(ssa), cfg_view(old(cfg)), *final(ssa), cfg_view(final(cfg))),
        !changed ==> final(ssa).nodes() == old(ssa).nodes() && final(ssa).roots == old(ssa).roots && cfg_view(final(cfg))
            == cfg_view(old(cfg)),
{
    let ghost c_s = cfg_view(cfg);
    let ghost uf_s = ssa.uf@;
    let mut changed = false;
    proof {
        assert(links_kept(*ssa, c_s, *ssa, c_s));
        assert forall|v: SSAValue|
            #[trigger] ssa.nodes().contains_key(v) implies (ssa.nodes()[v] as int) < ssa.num_ids() && forall|x: int|
                0 <= x < uses_of(v).len() ==> (#[trigger] uses_of(v)[x] as int) < ssa.num_ids() by {
            assert(value_wf(v, ssa.num_ids(), c_s));
        }
    }
    let mut em = eclass_map(ssa);
    let mut round: usize = 0;
    let ghost nodes_0 = ssa.nodes();
    let ghost n_0 = ssa.num_ids();
    let ghost mut em0 = Seq::<Seq<SSAValue>>::empty();
    let ghost mut nn0 = Seq::<(SSAValue, ClassId)>::empty();

    while round < max
        invariant
            ssa.wf(cfg_view(cfg)),
            uf_s == old(ssa).uf@,
            c_s == cfg_view(old(cfg)),
            links_kept(*old(ssa), c_s, *ssa, cfg_view(cfg)),
            old(ssa).wf(c_s),
            em@.len() == ssa.num_ids(),
            em_bounded(em_view(&em), ssa.num_ids()),
            coarsens(uf_s, ssa.uf@),
            analyses.value_number_uf.wf(),
            analyses.value_number_uf@.len() <= ssa.num_ids(),
            max == 0 ==> !changed,
            changed == (round > 0),
            nodes_0 == old(ssa).nodes(),
            n_0 == old(ssa).num_ids(),
            round > 0 ==> saturation_holds(nodes_0, n_0, analyses.intervals@, em0, nn0, *ssa) && holds_bounded(
                nodes_0,
                n_0,
                em0,
                nn0,
                ssa.uf@.len(),
            ),
            round == 0 ==> ssa.nodes() == old(ssa).nodes() && ssa.num_ids() == old(ssa).num_ids(),
            round == 0 ==> cfg_view(cfg) == c_s && ssa.roots == old(ssa).roots,
            round == 0 ==> forall|c: int, v: SSAValue|
                0 <= c < em@.len() ==> (#[trigger] em_view(&em)[c].contains(v) <==> ssa.nodes().contains_key(v) && ssa.nodes()[v]
                    == c),
            !changed ==> table_contents(ssa.values).len() == table_contents(old(ssa).values).len() && num_roots(ssa.uf@)
                == num_roots(old(ssa).uf@),
            cfg_view(cfg).len() == c_s.len(),
            forall|b: int| 0 <= b < c_s.len() ==> (#[trigger] cfg_view(cfg)[b]).len() == c_s[b].len(),
            forall|b: int, k: int| 0 <= b < c_s.len() && 0 <= k < c_s[b].len() ==>
                (#[trigger] cfg_view(cfg)[b][k]).0 == c_s[b][k].0 && cfg_view(cfg)[b][k].2 == c_s[b][k].2,
        decreases max - round,
    {
        let ghost cv = cfg_view(cfg);
        proof {
            assert(cv.len() == c_s.len());
            assert(forall|b: int| 0 <= b < c_s.len() ==> (#[trigger] cv[b]).len() == c_s[b].len());
            assert(forall|b: int, k: int| 0 <= b < c_s.len() && 0 <= k < c_s[b].len() ==>
                (#[trigger] cv[b][k]).0 == c_s[b][k].0 && cv[b][k].2 == c_s[b][k].2);
        }
        let num_nodes = ssa.num_values();
        proof {
            ssa.uf.lemma_wf();
        }
        let num_classes = ssa.uf.num_classes();
        let ghost ssa0 = *ssa;
        let ghost uf0 = ssa.uf@;
        let ghost em_r = em_view(&em);
        let ghost nodes_r = ssa.nodes();
        proof {
            assert forall|v: SSAValue|
                #[trigger] ssa.nodes().contains_key(v) implies (ssa.nodes()[v] as int) < ssa.num_ids() && forall|x: int|
                    0 <= x < uses_of(v).len() ==> (#[trigger] uses_of(v)[x] as int) < ssa.num_ids() by {
                assert(value_wf(v, ssa.num_ids(), cv));
            }
        }
        let new_nodes = rewrites(ssa, &em, analyses);
        proof {
            lemma_coarsens_trans(uf_s, uf0, ssa.uf@);
            lemma_wf_uf_grows(ssa0, *ssa, cv);
        }
        let ghost n0 = uf0.len();
        let ghost uf_rw = ssa.uf@;
        let ghost s_rw = *ssa;
        proof {
            if round > 0 {
                ssa0.uf.lemma_wf();
                assert(keeps_values(ssa0, s_rw));
                assert forall|w: SSAValue| #[trigger] ssa0.nodes().contains_key(w) implies (ssa0.nodes()[w] as int) < ssa0.uf@.len()
                    && uses_below(w, ssa0.uf@.len()) by {
                    assert(value_wf(w, ssa0.num_ids(), cv));
                }
                lemma_holds_keep(nodes_0, n_0, analyses.intervals@, em0, nn0, ssa0, s_rw);
            }
        }
        // one entry of the map per class
        while em.len() < ssa.uf.num_ids()
            invariant
                ssa.uf.wf(),
                ssa.wf(cv),
                cv == cfg_view(cfg),
                coarsens(uf_s, ssa.uf@),
                ssa.uf@.len() == n0 + new_nodes@.len(),
                em@.len() <= ssa.uf@.len(),
                em@.len() >= n0,
                em_bounded(em_view(&em), em@.len() as nat),
                ssa.uf@ == uf_rw,
                ssa.values == ssa0.values,
                ssa.roots == ssa0.roots,
            decreases ssa.uf@.len() - em@.len(),
        {
            let ghost e0 = em_view(&em);
            em.push(Vec::new());
            proof {
                assert(em_view(&em) =~= e0.push(Seq::empty()));
                assert forall|c: int, k: int| 0 <= c < em_view(&em).len() && 0 <= k < em_view(&em)[c].len() implies forall|x: int|
                    0 <= x < uses_of(#[trigger] em_view(&em)[c][k]).len() ==> (#[trigger] uses_of(em_view(&em)[c][k])[x] as int) < em_view(&em).len() by {
                    assert(em_view(&em)[c] == e0[c]);
                    assert(e0[c][k] == em_view(&em)[c][k]);
                }
            }
        }
        // the new values join the graph
        proof {
            if round > 0 {
                assert(keeps_values(s_rw, *ssa));
                assert(nodes_below(s_rw)) by {
                    assert forall|w: SSAValue| #[trigger] s_rw.nodes().contains_key(w) implies (s_rw.nodes()[w] as int) < s_rw.uf@.len()
                        && uses_below(w, s_rw.uf@.len()) by {
                        assert(value_wf(w, s_rw.num_ids(), cv));
                    }
                }
                lemma_holds_keep(nodes_0, n_0, analyses.intervals@, em0, nn0, s_rw, *ssa);
            }
        }
        let mut j: usize = 0;
        while j < new_nodes.len()
            invariant
                ssa.wf(cv),
                cv == cfg_view(cfg),
                j <= new_nodes@.len(),
                em@.len() == ssa.num_ids(),
                em_bounded(em_view(&em), ssa.num_ids()),
                coarsens(uf_s, ssa.uf@),
                ssa.num_ids() == n0 + new_nodes@.len(),
                forall|k: int|
                    0 <= k < new_nodes@.len() ==> (#[trigger] new_nodes@[k]).1 == n0 + k && (new_nodes@[k].0 is Constant || new_nodes@[k].0 is Binary)
                        && forall|x: int| 0 <= x < uses_of(new_nodes@[k].0).len() ==> (#[trigger] uses_of(new_nodes@[k].0)[x] as int) < n0 + k,
                num_nodes == table_contents(ssa0.values).len(),
                ssa.roots == ssa0.roots,
                j == 0 ==> ssa.values == ssa0.values,
                table_contents(ssa.values).len() >= num_nodes,
                coarsens(uf_rw, ssa.uf@),
                nodes_r == ssa0.nodes(),
                forall|v: SSAValue| #[trigger] nodes_r.contains_key(v) ==> (nodes_r[v] as int) < n0,
                forall|v: SSAValue|
                    #[trigger] nodes_r.contains_key(v) ==> ssa.nodes().contains_key(v) && merged(ssa.uf@, ssa.nodes()[v], nodes_r[v]),
                forall|v: SSAValue|
                    #[trigger] ssa.nodes().contains_key(v) && !nodes_r.contains_key(v) ==> table_contents(ssa.values).len() > num_nodes,
                round > 0 ==> saturation_holds(nodes_0, n_0, analyses.intervals@, em0, nn0, *ssa) && holds_bounded(
                    nodes_0,
                    n_0,
                    em0,
                    nn0,
                    ssa.uf@.len(),
                ),
                forall|k: int|
                    0 <= k < j ==> (nodes_r.contains_key((#[trigger] new_nodes@[k]).0) || table_contents(ssa.values).len() > num_nodes)
                        && ssa.nodes().contains_key(new_nodes@[k].0) && merged(ssa.uf@, new_nodes@[k].1, ssa.nodes()[new_nodes@[k].0]),
            decreases new_nodes@.len() - j,
        {
            let (value, id) = new_nodes[j];
            let key = encode_value(value);
            let ghost t0 = table_contents(ssa.values);
            let ghost nodes0 = ssa.nodes();
            let ghost s0 = *ssa;
            proof {
                assert(new_nodes@[j as int] == (value, id));
                lemma_decode_encode(value);
            }
            let ghost u_before = ssa.uf@;
            let ghost old_slot = t0.contains_key(key);
            match ssa.values.insert(key, id) {
                Some(old_id) => {
                    proof {
                        assert(t0.contains_key(key));
                        assert(nodes0.contains_key(value));
                        assert(old_id == nodes0[value]);
                        ssa.uf.lemma_wf();
                        lemma_union_coarsens(ssa.uf@, old_id as int, id as int);
                    }
                    let ghost u0 = ssa.uf@;
                    ssa.uf.union(old_id, id);
                    proof {
                        lemma_coarsens_trans(uf_s, u0, ssa.uf@);
                    }
                },
                None => {},
            }
            proof {
                assert forall|v: SSAValue| #[trigger] encode(v) == key implies v == value by {
                    lemma_decode_encode(v);
                }
                assert(ssa.nodes() =~= nodes0.insert(value, id));
                assert forall|k: NodeKey| #[trigger] table_contents(ssa.values).contains_key(k) implies valid_key(k) by {
                    if k != key {
                        assert(t0.contains_key(k));
                    }
                }
                assert(value_wf(value, ssa.num_ids(), cv));
                assert forall|v: SSAValue| #[trigger] ssa.nodes().contains_key(v) implies (ssa.nodes()[v] as int) < ssa.num_ids()
                    && value_wf(v, ssa.num_ids(), cv) by {
                    if v != value {
                        assert(nodes0.contains_key(v));
                        assert(value_wf(v, s0.num_ids(), cv));
                    }
                }
                assert(ssa.wf(cv));
                lemma_coarsens_trans(uf_rw, u_before, ssa.uf@);
                let rep = ssa.uf@;
                if old_slot {
                    assert(table_contents(ssa.values).dom() =~= t0.dom());
                    assert(rep[id as int] == rep[nodes0[value] as int]);
                } else {
                    assert(table_contents(ssa.values).dom() =~= t0.dom().insert(key));
                    assert(t0.dom() =~= t0.dom().insert(key).remove(key));
                    assert(t0.dom().finite());
                    assert(!nodes0.contains_key(value));
                }
                assert forall|v: SSAValue| #[trigger] nodes_r.contains_key(v) implies ssa.nodes().contains_key(v) && merged(
                    rep,
                    ssa.nodes()[v],
                    nodes_r[v],
                ) by {
                    assert(nodes0.contains_key(v));
                    lemma_merged_mono(u_before, rep, nodes0[v], nodes_r[v]);
                }
                assert forall|k: int|
                    0 <= k < j + 1 implies (nodes_r.contains_key((#[trigger] new_nodes@[k]).0) || table_contents(ssa.values).len()
                    > num_nodes) && ssa.nodes().contains_key(new_nodes@[k].0) && merged(rep, new_nodes@[k].1, ssa.nodes()[new_nodes@[k].0]) by {
                    if k < j {
                        let w = new_nodes@[k].0;
                        assert(nodes0.contains_key(w));
                        lemma_merged_mono(u_before, rep, new_nodes@[k].1, nodes0[w]);
                    } else {
                        assert(new_nodes@[k] == (value, id));
                        if !nodes_r.contains_key(value) && old_slot {
                            assert(nodes0.contains_key(value));
                        }
                    }
                }
                assert forall|v: SSAValue| #[trigger] ssa.nodes().contains_key(v) && !nodes_r.contains_key(v) implies table_contents(
                    ssa.values,
                ).len() > num_nodes by {
                    if v != value {
                        assert(nodes0.contains_key(v));
                    }
                }
                if round > 0 {
                    assert(keeps_values(s0, *ssa)) by {
                        assert forall|w: SSAValue| #[trigger] s0.nodes().contains_key(w) implies ssa.nodes().contains_key(w)
                            && ssa.uf@[ssa.nodes()[w] as int] == ssa.uf@[s0.nodes()[w] as int] by {
                            if w == value {
                                assert(old_slot);
                            }
                        }
                    }
                    assert(nodes_below(s0)) by {
                        assert forall|w: SSAValue| #[trigger] s0.nodes().contains_key(w) implies (s0.nodes()[w] as int) < s0.uf@.len()
                            && uses_below(w, s0.uf@.len()) by {
                            assert(value_wf(w, s0.num_ids(), cv));
                        }
                    }
                    lemma_holds_keep(nodes_0, n_0, analyses.intervals@, em0, nn0, s0, *ssa);
                }
            }
            if !vec_contains(&em[id], value) {
                let ghost e0 = em_view(&em);
                em_push(&mut em, id, value);
                proof {
                    assert forall|c: int, k: int| 0 <= c < em_view(&em).len() && 0 <= k < em_view(&em)[c].len() implies forall|x: int|
                        0 <= x < uses_of(#[trigger] em_view(&em)[c][k]).len() ==> (#[trigger] uses_of(em_view(&em)[c][k])[x] as int) < em_view(&em).len() by {
                        if c == id && k == e0[c].len() {
                            assert(em_view(&em)[c][k] == value);
                        } else {
                            assert(em_view(&em)[c][k] == e0[c][k]);
                        }
                    }
                }
            }
            j = j + 1;
        }
        proof {
            ssa.uf.lemma_wf();
            if round == 0 {
                let nn = new_nodes@;
                let rep = ssa.uf@;
                lemma_prefix_refl(nn);
                lemma_step_bounded(s_rw, nodes_r, nn, n0);
                assert forall|v: SSAValue| #[trigger] nodes_r.contains_key(v) implies rule_holds(
                    v,
                    nodes_r[v],
                    em_r,
                    analyses.intervals@,
                    nodes_r,
                    nn,
                    rep,
                ) && represents(*ssa, v, nodes_r[v]) by {
                    assert(value_wf(v, ssa0.num_ids(), cv));
                    lemma_rule_mono(v, nodes_r[v], em_r, analyses.intervals@, nodes_r, nn, uf_rw, nn, rep);
                    assert(ssa.nodes().contains_key(v));
                }
                assert forall|k: int| 0 <= k < nn.len() implies represents(*ssa, (#[trigger] nn[k]).0, nn[k].1) by {
                    assert(ssa.nodes().contains_key(new_nodes@[k].0));
                }
                assert forall|v: SSAValue| #[trigger] nodes_r.contains_key(v) implies uses_below(v, n_0) by {
                    assert(value_wf(v, ssa0.num_ids(), cv));
                }
                assert forall|k: int| 0 <= k < nn.len() implies uses_below((#[trigger] nn[k]).0, ssa.uf@.len()) by {
                    assert(new_nodes@[k].1 == n0 + k);
                }
                assert(saturation_holds(nodes_0, n_0, analyses.intervals@, em_r, nn, *ssa));
                assert(holds_bounded(nodes_0, n_0, em_r, nn, ssa.uf@.len()));
                em0 = em_r;
                nn0 = nn;
            }
        }
        proof {
            lemma_coarsens_trans(uf0, uf_rw, ssa.uf@);
            lemma_coarsens_trans(uf_s, uf0, ssa.uf@);
            lemma_links_coarsen(*old(ssa), c_s, ssa0, *ssa, cv);
        }
        if num_nodes == ssa.num_values() && num_classes == ssa.uf.num_classes() {
            proof {
                if round == 0 {
                    if new_nodes@.len() > 0 {
                        assert(nodes_r.contains_key(new_nodes@[0].0) || table_contents(ssa.values).len() > num_nodes);
                        assert(!nodes_r.contains_key(new_nodes@[0].0));
                    }
                    assert(ssa.values == ssa0.values);
                    let nn = new_nodes@;
                    let rep = ssa.uf@;
                    lemma_prefix_refl(nn);
                    lemma_step_bounded(s_rw, nodes_r, nn, n0);
                    assert forall|k: int| 0 <= k < nn.len() implies nodes_r.contains_key((#[trigger] nn[k]).0) && merged(
                        rep,
                        nn[k].1,
                        nodes_r[nn[k].0],
                    ) by {
                        assert(nodes_r.contains_key(new_nodes@[k].0));
                        assert(merged(rep, ssa.nodes()[nn[k].0], nodes_r[nn[k].0]));
                    }
                    assert forall|v: SSAValue| #[trigger] nodes_r.contains_key(v) implies rule_holds(
                        v,
                        nodes_r[v],
                        em_r,
                        analyses.intervals@,
                        nodes_r,
                        nn,
                        rep,
                    ) by {
                        assert(value_wf(v, ssa0.num_ids(), cv));
                        lemma_rule_mono(v, nodes_r[v], em_r, analyses.intervals@, nodes_r, nn, uf_rw, nn, rep);
                    }
                    assert(saturated(old(ssa).nodes(), old(ssa).num_ids(), analyses.intervals@, rep));
                }
            }
            return changed;
        }
        let ghost s_ins = *ssa;
        proof {
            assert(nodes_below(s_ins)) by {
                assert forall|w: SSAValue| #[trigger] s_ins.nodes().contains_key(w) implies (s_ins.nodes()[w] as int) < s_ins.uf@.len()
                    && uses_below(w, s_ins.uf@.len()) by {
                    assert(value_wf(w, s_ins.num_ids(), cv));
                }
            }
        }
        rebuild(ssa, cfg, &mut em);
        proof {
            lemma_holds_rebuild(nodes_0, n_0, analyses.intervals@, em0, nn0, s_ins, *ssa);
            ssa.uf.lemma_wf();
            lemma_coarsens_trans(uf_s, s_ins.uf@, ssa.uf@);
            lemma_links_rebuild(*old(ssa), c_s, s_ins, cv, *ssa, cfg_view(cfg));
        }
        changed = true;
        round = round + 1;
    }
    proof {
        if round == 0 {
            assert forall|v: SSAValue| #[trigger] nodes_0.contains_key(v) implies represents(*ssa, v, nodes_0[v]) by {
                assert(ssa.nodes().contains_key(v));
            }
        }
    }
    changed
}

/// Whether graph `s` with control-flow graph `c` keeps the roots and the
/// conditions of `o` with `co`: the same blocks and edges, each root and
/// each condition in a class merged with its old one.
pub open spec fn links_kept(o: SSAGraph, co: Seq<Seq<Pred>>, s: SSAGraph, c: Seq<Seq<Pred>>) -> bool {
    &&& s.roots@.len() == o.roots@.len()
    &&& forall|k: int|
        0 <= k < o.roots@.len() ==> (#[trigger] s.roots@[k]).0 == o.roots@[k].0 && s.uf@[s.roots@[k].1 as int]
            == s.uf@[o.roots@[k].1 as int]
    &&& c.len() == co.len()
    &&& forall|b: int| 0 <= b < co.len() ==> (#[trigger] c[b]).len() == co[b].len()
    &&& forall|b: int, k: int|
        0 <= b < co.len() && 0 <= k < co[b].len() ==> (#[trigger] c[b][k]).0 == co[b][k].0 && c[b][k].2 == co[b][k].2
            && s.uf@[c[b][k].1 as int] == s.uf@[co[b][k].1 as int]
}

proof fn lemma_links_coarsen(o: SSAGraph, co: Seq<Seq<Pred>>, s0: SSAGraph, s1: SSAGraph, c: Seq<Seq<Pred>>)
    requires
        o.wf(co),
        s0.wf(c),
        links_kept(o, co, s0, c),
        coarsens(o.uf@, s0.uf@),
        coarsens(s0.uf@, s1.uf@),
        s1.roots == s0.roots,
    ensures
        links_kept(o, co, s1, c),
{
    assert forall|k: int| 0 <= k < o.roots@.len() implies (#[trigger] s1.roots@[k]).0 == o.roots@[k].0 && s1.uf@[s1.roots@[k].1 as int]
        == s1.uf@[o.roots@[k].1 as int] by {
        assert((s0.roots@[k].1 as int) < s0.num_ids());
        assert((o.roots@[k].1 as int) < o.num_ids());
        assert(s0.uf@[s0.roots@[k].1 as int] == s0.uf@[o.roots@[k].1 as int]);
    }
    assert forall|b: int, k: int| 0 <= b < co.len() && 0 <= k < co[b].len() implies (#[trigger] c[b][k]).0 == co[b][k].0 && c[b][k].2
        == co[b][k].2 && s1.uf@[c[b][k].1 as int] == s1.uf@[co[b][k].1 as int] by {
        assert((c[b][k].1 as int) < s0.num_ids());
        assert((co[b][k].1 as int) < o.num_ids());
        assert(s0.uf@[c[b][k].1 as int] == s0.uf@[co[b][k].1 as int]);
    }
}

proof fn lemma_links_rebuild(o: SSAGraph, co: Seq<Seq<Pred>>, s0: SSAGraph, c0: Seq<Seq<Pred>>, s1: SSAGraph, c1: Seq<Seq<Pred>>)
    requires
        o.wf(co),
        s0.wf(c0),
        links_kept(o, co, s0, c0),
        coarsens(o.uf@, s0.uf@),
        coarsens(s0.uf@, s1.uf@),
        is_rep_map(s1.uf@),
        s1.roots@.len() == s0.roots@.len(),
        forall|k: int| 0 <= k < s0.roots@.len() ==> #[trigger] s1.roots@[k] == (s0.roots@[k].0, s1.uf@[s0.roots@[k].1 as int]),
        c1.len() == c0.len(),
        forall|b: int| 0 <= b < c0.len() ==> (#[trigger] c1[b]).len() == c0[b].len(),
        forall|b: int, k: int| 0 <= b < c0.len() && 0 <= k < c0[b].len() ==> (#[trigger] c1[b][k]).0 == c0[b][k].0 && c1[b][k].2 == c0[b][k].2,
        forall|b: int, k: int| 0 <= b < c0.len() && 0 <= k < c0[b].len() ==> (#[trigger] c1[b][k]).1 == s1.uf@[c0[b][k].1 as int],
    ensures
        links_kept(o, co, s1, c1),
{
    assert forall|k: int| 0 <= k < o.roots@.len() implies (#[trigger] s1.roots@[k]).0 == o.roots@[k].0 && s1.uf@[s1.roots@[k].1 as int]
        == s1.uf@[o.roots@[k].1 as int] by {
        let x = s0.roots@[k].1;
        assert((x as int) < s0.num_ids());
        assert((o.roots@[k].1 as int) < o.num_ids());
        assert(s0.uf@[x as int] == s0.uf@[o.roots@[k].1 as int]);
        assert(s1.roots@[k] == (s0.roots@[k].0, s1.uf@[x as int]));
        assert(s1.uf@[s1.uf@[x as int] as int] == s1.uf@[x as int]);
    }
    assert forall|b: int, k: int| 0 <= b < co.len() && 0 <= k < co[b].len() implies (#[trigger] c1[b][k]).0 == co[b][k].0 && c1[b][k].2
        == co[b][k].2 && s1.uf@[c1[b][k].1 as int] == s1.uf@[co[b][k].1 as int] by {
        let x = c0[b][k].1;
        assert((x as int) < s0.num_ids());
        assert((co[b][k].1 as int) < o.num_ids());
        assert(s0.uf@[x as int] == s0.uf@[co[b][k].1 as int]);
        assert(c0[b][k] == c0[b][k]);
        assert(s1.uf@[s1.uf@[x as int] as int] == s1.uf@[x as int]);
    }
}

proof fn lemma_links_trans(
    o: SSAGraph,
    co: Seq<Seq<Pred>>,
    s1: SSAGraph,
    c1: Seq<Seq<Pred>>,
    s2: SSAGraph,
    c2: Seq<Seq<Pred>>,
)
    requires
        o.wf(co),
        s1.wf(c1),
        links_kept(o, co, s1, c1),
        links_kept(s1, c1, s2, c2),
        coarsens(o.uf@, s1.uf@),
        coarsens(s1.uf@, s2.uf@),
    ensures
        links_kept(o, co, s2, c2),
{
    assert forall|k: int| 0 <= k < o.roots@.len() implies (#[trigger] s2.roots@[k]).0 == o.roots@[k].0 && s2.uf@[s2.roots@[k].1 as int]
        == s2.uf@[o.roots@[k].1 as int] by {
        assert(s2.roots@[k].0 == s1.roots@[k].0);
        assert((s1.roots@[k].1 as int) < s1.num_ids());
        assert((o.roots@[k].1 as int) < o.num_ids());
        assert(s1.uf@[s1.roots@[k].1 as int] == s1.uf@[o.roots@[k].1 as int]);
    }
    assert forall|b: int, k: int| 0 <= b < co.len() && 0 <= k < co[b].len() implies (#[trigger] c2[b][k]).0 == co[b][k].0 && c2[b][k].2
        == co[b][k].2 && s2.uf@[c2[b][k].1 as int] == s2.uf@[co[b][k].1 as int] by {
        assert(c2[b][k].0 == c1[b][k].0);
        assert((c1[b][k].1 as int) < s1.num_ids());
        assert((co[b][k].1 as int) < o.num_ids());
        assert(s1.uf@[c1[b][k].1 as int] == s1.uf@[co[b][k].1 as int]);
    }
}

/// Optimistic equality saturation: the optimistic analysis, then up to
/// `max_outer_iters` times equality saturation (of at most
/// `max_rewrite_iters` rounds) guided by the latest analysis followed by a
/// fresh analysis, stopping once saturation changes nothing. Returns the
/// last analysis; it covers every class that existed when it was made.
pub fn optimistic_equality_saturation(
    ssa: &mut SSAGraph,
    cfg: &mut CFG,
    max_outer_iters: usize,
    max_rewrite_iters: usize,
) -> (r: Analyses)
    requires
        old(ssa).wf(cfg_view(old(cfg))),
        old(cfg)@.len() >= 1,
    ensures
        final(ssa).wf(cfg_view(final(cfg))),
        links_kept(*old(ssa), cfg_view(old(cfg)), *final(ssa), cfg_view(final(cfg))),
        exists|g: SSAGraph, c: Seq<Seq<Pred>>, d: Dependents, rounds: Seq<Analyses>, st: Seq<usize>|
            #[trigger] outer_run(g, c, d, rounds, st, r) && links_kept(*old(ssa), cfg_view(old(cfg)), g, c) && coarsens(
                old(ssa).uf@,
                g.uf@,
            ) && coarsens(g.uf@, final(ssa).uf@),
        r.shaped(cfg_view(final(cfg))),
        r.unreachable_blocks@[0] == Some(false),
        r.intervals@.len() <= final(ssa).num_ids(),
        coarsens(old(ssa).uf@, final(ssa).uf@),
        forall|v: SSAValue| #[trigger] old(ssa).nodes().contains_key(v) ==> represents(*final(ssa), v, old(ssa).nodes()[v]),
        max_outer_iters > 0 && max_rewrite_iters > 0 ==> exists|
            ivs: Seq<Option<Interval>>,
            em: Seq<Seq<SSAValue>>,
            nn: Seq<(SSAValue, ClassId)>,
        | #[trigger] saturation_holds(old(ssa).nodes(), old(ssa).num_ids(), ivs, em, nn, *final(ssa)),
        cfg_view(final(cfg)).len() == cfg_view(old(cfg)).len(),
        forall|b: int| 0 <= b < cfg_view(old(cfg)).len() ==> (#[trigger] cfg_view(final(cfg))[b]).len() == cfg_view(old(cfg))[b].len(),
        forall|b: int, k: int| 0 <= b < cfg_view(old(cfg)).len() && 0 <= k < cfg_view(old(cfg))[b].len() ==>
            (#[trigger] cfg_view(final(cfg))[b][k]).0 == cfg_view(old(cfg))[b][k].0 && cfg_view(final(cfg))[b][k].2 == cfg_view(old(cfg))[b][k].2,
{
    let ghost c_s = cfg_view(cfg);
    let ghost uf_s = ssa.uf@;
    let (a0, st0) = outer_fixpoint(ssa, cfg);
    let mut analyses = a0;
    let mut i: usize = 0;
    let ghost nodes_0 = ssa.nodes();
    let ghost n_0 = ssa.num_ids();
    let ghost mut ivs0 = Seq::<Option<Interval>>::empty();
    let ghost mut em0 = Seq::<Seq<SSAValue>>::empty();
    let ghost mut nn0 = Seq::<(SSAValue, ClassId)>::empty();
    proof {
        assert(coarsens(uf_s, ssa.uf@));
        assert forall|v: SSAValue| #[trigger] nodes_0.contains_key(v) implies represents(*ssa, v, nodes_0[v]) by {
            assert(ssa.nodes().contains_key(v));
        }
        assert forall|v: SSAValue| #[trigger] nodes_0.contains_key(v) implies (nodes_0[v] as int) < n_0 && uses_below(v, n_0) by {
            assert(value_wf(v, ssa.num_ids(), c_s));
        }
        assert(links_kept(*ssa, c_s, *ssa, c_s));
        assert(exists|d: Dependents, rounds: Seq<Analyses>| #[trigger] outer_run(*ssa, cfg_view(cfg), d, rounds, st0.num_loop_visits@, analyses));
    }
    while i < max_outer_iters
        invariant
            ssa.wf(cfg_view(cfg)),
            uf_s == old(ssa).uf@,
            c_s == cfg_view(old(cfg)),
            cfg@.len() >= 1,
            analyses.shaped(cfg_view(cfg)),
            analyses.unreachable_blocks@[0] == Some(false),
            analyses.intervals@.len() <= ssa.num_ids(),
            coarsens(uf_s, ssa.uf@),
            nodes_0 == old(ssa).nodes(),
            n_0 == old(ssa).num_ids(),
            forall|v: SSAValue| #[trigger] nodes_0.contains_key(v) ==> (nodes_0[v] as int) < n_0 && uses_below(v, n_0),
            forall|v: SSAValue| #[trigger] nodes_0.contains_key(v) ==> represents(*ssa, v, nodes_0[v]),
            i == 0 ==> ssa.nodes() == nodes_0 && ssa.num_ids() == n_0,
            i > 0 && max_rewrite_iters > 0 ==> saturation_holds(nodes_0, n_0, ivs0, em0, nn0, *ssa) && holds_bounded(
                nodes_0,
                n_0,
                em0,
                nn0,
                ssa.uf@.len(),
            ),
            old(ssa).wf(c_s),
            links_kept(*old(ssa), c_s, *ssa, cfg_view(cfg)),
            exists|d: Dependents, rounds: Seq<Analyses>, st: Seq<usize>| #[trigger] outer_run(*ssa, cfg_view(cfg), d, rounds, st, analyses),
            cfg_view(cfg).len() == c_s.len(),
            forall|b: int| 0 <= b < c_s.len() ==> (#[trigger] cfg_view(cfg)[b]).len() == c_s[b].len(),
            forall|b: int, k: int| 0 <= b < c_s.len() && 0 <= k < c_s[b].len() ==>
                (#[trigger] cfg_view(cfg)[b][k]).0 == c_s[b][k].0 && cfg_view(cfg)[b][k].2 == c_s[b][k].2,
        decreases max_outer_iters - i,
    {
        let ghost uf0 = ssa.uf@;
        let ghost s_pre = *ssa;
        let ghost ivs_pre = analyses.intervals@;
        let ghost c_pre = cfg_view(cfg);
        let done = !saturate(ssa, cfg, &analyses, max_rewrite_iters);
        proof {
            lemma_links_trans(*old(ssa), c_s, s_pre, c_pre, *ssa, cfg_view(cfg));
            lemma_coarsens_trans(uf_s, uf0, ssa.uf@);
            assert(cfg@.len() == cfg_view(cfg).len());
            s_pre.uf.lemma_wf();
            assert(nodes_below(s_pre)) by {
                assert forall|w: SSAValue| #[trigger] s_pre.nodes().contains_key(w) implies (s_pre.nodes()[w] as int) < s_pre.uf@.len()
                    && uses_below(w, s_pre.uf@.len()) by {
                    assert(value_wf(w, s_pre.num_ids(), cfg_view(old(cfg))));
                }
            }
            assert forall|v: SSAValue| #[trigger] nodes_0.contains_key(v) implies represents(*ssa, v, nodes_0[v]) by {
                lemma_represents_trans(s_pre, *ssa, v, nodes_0[v]);
            }
            if max_rewrite_iters > 0 {
                if i == 0 {
                    let (em, nn) = choose|em: Seq<Seq<SSAValue>>, nn: Seq<(SSAValue, ClassId)>|
                        #[trigger] saturation_holds(s_pre.nodes(), s_pre.num_ids(), ivs_pre, em, nn, *ssa)
                            && holds_bounded(s_pre.nodes(), s_pre.num_ids(), em, nn, ssa.uf@.len());
                    ivs0 = ivs_pre;
                    em0 = em;
                    nn0 = nn;
                } else {
                    lemma_holds_rebuild(nodes_0, n_0, ivs0, em0, nn0, s_pre, *ssa);
                }
            }
        }
        if done {
            proof {
                let (d, rounds, st) = choose|d: Dependents, rounds: Seq<Analyses>, st: Seq<usize>|
                    #[trigger] outer_run(s_pre, c_pre, d, rounds, st, analyses);
                assert(outer_run(s_pre, c_pre, d, rounds, st, analyses) && links_kept(*old(ssa), c_s, s_pre, c_pre));
            }
            return analyses;
        }
        let (a1, st1) = outer_fixpoint(ssa, cfg);
        analyses = a1;
        proof {
            assert(exists|d: Dependents, rounds: Seq<Analyses>| #[trigger] outer_run(*ssa, cfg_view(cfg), d, rounds, st1.num_loop_visits@, analyses));
        }
        i = i + 1;
    }
    proof {
        let (d, rounds, st) = choose|d: Dependents, rounds: Seq<Analyses>, st: Seq<usize>|
            #[trigger] outer_run(*ssa, cfg_view(cfg), d, rounds, st, analyses);
        assert(outer_run(*ssa, cfg_view(cfg), d, rounds, st, analyses));
    }
    analyses
}

} // verus!
