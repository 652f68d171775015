//! General properties of resolution and evaluation, stated and proved once
//! and for all: distinctness of the table's assignment keys, involutivity of
//! NOT, agreement of short-circuited with full evaluation, and consistency of
//! a fanned-out signal's value within one assignment.

use vstd::prelude::*;

use crate::netlist::{find_inst, Instance, LogicOp};
use crate::resolve::{
    complete, lemma_path_ok_push, path_ok, resolve_inputs_spec, resolve_signal_spec, GNode,
};
use crate::table::{bits_of, lemma_bits_of_len, node_eval, pow2, resolution};

verus! {

/// Row indices below `2^k` carry their whole value in their low `k` bits.
proof fn lemma_bits_of_injective(i1: nat, i2: nat, k: nat)
    requires
        i1 < pow2(k),
        i2 < pow2(k),
        bits_of(i1, k) == bits_of(i2, k),
    ensures
        i1 == i2,
    decreases k,
{
    if k == 0 {
    } else {
        let s1 = bits_of(i1, k);
        let s2 = bits_of(i2, k);
        let t1 = bits_of(i1 / 2, (k - 1) as nat);
        let t2 = bits_of(i2 / 2, (k - 1) as nat);
        lemma_bits_of_len(i1, k);
        lemma_bits_of_len(i2, k);
        lemma_bits_of_len(i1 / 2, (k - 1) as nat);
        lemma_bits_of_len(i2 / 2, (k - 1) as nat);
        assert(s1[0] == (i1 % 2 == 1) && s2[0] == (i2 % 2 == 1));
        assert(i1 % 2 == i2 % 2);
        assert(t1 =~= s1.subrange(1, s1.len() as int));
        assert(t2 =~= s2.subrange(1, s2.len() as int));
        lemma_bits_of_injective(i1 / 2, i2 / 2, (k - 1) as nat);
        assert(i1 == 2 * (i1 / 2) + i1 % 2);
        assert(i2 == 2 * (i2 / 2) + i2 % 2);
    }
}

/// Every valid table has one row per distinct assignment: two different row
/// indices below `2^k` encode two different assignments of the `k` primary
/// inputs, so the `2^k` assignment keys of a computed table are pairwise
/// distinct.
pub proof fn lemma_assignment_keys_distinct(i1: nat, i2: nat, k: nat)
    requires
        i1 < pow2(k),
        i2 < pow2(k),
        i1 != i2,
    ensures
        bits_of(i1, k) != bits_of(i2, k),
{
    if bits_of(i1, k) == bits_of(i2, k) {
        lemma_bits_of_injective(i1, i2, k);
    }
}

/// NOT is involutive: a double negation of any dependency tree evaluates as
/// the tree itself, under every assignment, whatever signal names the two
/// NOT nodes carry.
pub proof fn lemma_not_involutive(
    inner: GNode,
    s1: Seq<char>,
    s2: Seq<char>,
    asg: Map<Seq<char>, bool>,
)
    ensures
        node_eval(
            GNode {
                signal: s1,
                op: LogicOp::Not,
                children: seq![GNode { signal: s2, op: LogicOp::Not, children: seq![inner] }],
            },
            asg,
        ) == node_eval(inner, asg),
{
    let mid = GNode { signal: s2, op: LogicOp::Not, children: seq![inner] };
    let outer = GNode { signal: s1, op: LogicOp::Not, children: seq![mid] };
    assert(outer.children[0] == mid);
    assert(mid.children[0] == inner);
    assert(node_eval(mid, asg) == !node_eval(inner, asg));
    assert(node_eval(outer, asg) == !node_eval(mid, asg));
}

/// Conjunction of the subtrees' values from position `k` on, stopping at the
/// first false operand.
pub open spec fn and_short_circuit(cs: Seq<GNode>, asg: Map<Seq<char>, bool>, k: int) -> bool
    decreases cs.len() - k,
{
    if k < 0 || k >= cs.len() {
        true
    } else if !node_eval(cs[k], asg) {
        false
    } else {
        and_short_circuit(cs, asg, k + 1)
    }
}

/// Disjunction of the subtrees' values from position `k` on, stopping at the
/// first true operand.
pub open spec fn or_short_circuit(cs: Seq<GNode>, asg: Map<Seq<char>, bool>, k: int) -> bool
    decreases cs.len() - k,
{
    if k < 0 || k >= cs.len() {
        false
    } else if node_eval(cs[k], asg) {
        true
    } else {
        or_short_circuit(cs, asg, k + 1)
    }
}

proof fn lemma_and_short_circuit_from(cs: Seq<GNode>, asg: Map<Seq<char>, bool>, k: int)
    requires
        0 <= k <= cs.len(),
    ensures
        and_short_circuit(cs, asg, k) == (forall|j: int|
            k <= j < cs.len() ==> node_eval(#[trigger] cs[j], asg)),
    decreases cs.len() - k,
{
    if k < cs.len() {
        lemma_and_short_circuit_from(cs, asg, k + 1);
    }
}

proof fn lemma_or_short_circuit_from(cs: Seq<GNode>, asg: Map<Seq<char>, bool>, k: int)
    requires
        0 <= k <= cs.len(),
    ensures
        or_short_circuit(cs, asg, k) == (exists|j: int|
            k <= j < cs.len() && node_eval(#[trigger] cs[j], asg)),
    decreases cs.len() - k,
{
    if k < cs.len() {
        lemma_or_short_circuit_from(cs, asg, k + 1);
        if node_eval(cs[k], asg) {
            assert(k <= k < cs.len() && node_eval(cs[k], asg));
        }
    }
}

/// Short-circuiting AND on the first false operand, or OR on the first true
/// one, never changes the result: on every AND or OR node, under every
/// assignment, the short-circuited evaluation of the operands agrees with the
/// full `node_eval` semantics.
pub proof fn lemma_short_circuit_agrees(g: GNode, asg: Map<Seq<char>, bool>)
    ensures
        g.op is And ==> node_eval(g, asg) == and_short_circuit(g.children, asg, 0),
        g.op is Or ==> node_eval(g, asg) == or_short_circuit(g.children, asg, 0),
{
    lemma_and_short_circuit_from(g.children, asg, 0);
    lemma_or_short_circuit_from(g.children, asg, 0);
}

/// Fan-out consistency: two dependency trees resolved for the same signal
/// against the same instance list evaluate to the same value under every
/// assignment. A signal consumed by several downstream gates, duplicated in
/// the tree once per reference, therefore contributes one and the same value
/// to each of its consumers within a single assignment.
pub proof fn lemma_fanout_consistent(
    insts: Seq<Instance>,
    g1: GNode,
    g2: GNode,
    asg: Map<Seq<char>, bool>,
)
    requires
        complete(g1, insts),
        complete(g2, insts),
        g1.signal == g2.signal,
    ensures
        node_eval(g1, asg) == node_eval(g2, asg),
    decreases g1,
{
    let inst = find_inst(insts, g1.signal)->Some_0;
    assert(g1.op == inst.op && g2.op == inst.op);
    assert(g1.children.len() == inst.inputs@.len() && g2.children.len() == inst.inputs@.len());
    assert forall|j: int| 0 <= j < g1.children.len() implies node_eval(
        #[trigger] g1.children[j],
        asg,
    ) == node_eval(g2.children[j], asg) by {
        assert(g1.children[j].signal == inst.inputs@[j]@ && g2.children[j].signal
            == inst.inputs@[j]@);
        assert(complete(g1.children[j], insts) && complete(g2.children[j], insts));
        lemma_fanout_consistent(insts, g1.children[j], g2.children[j], asg);
    }
    match g1.op {
        LogicOp::Driver => {
        },
        LogicOp::Not => {
            if g1.children.len() == 1 {
                assert(node_eval(g1.children[0], asg) == node_eval(g2.children[0], asg));
            }
        },
        LogicOp::And => {
            if node_eval(g1, asg) {
                assert forall|j: int| 0 <= j < g2.children.len() implies node_eval(
                    #[trigger] g2.children[j],
                    asg,
                ) by {
                    assert(node_eval(g1.children[j], asg));
                }
            }
            if node_eval(g2, asg) {
                assert forall|j: int| 0 <= j < g1.children.len() implies node_eval(
                    #[trigger] g1.children[j],
                    asg,
                ) by {
                    assert(node_eval(g2.children[j], asg));
                }
            }
        },
        LogicOp::Or => {
            if node_eval(g1, asg) {
                let j = choose|j: int|
                    0 <= j < g1.children.len() && node_eval(#[trigger] g1.children[j], asg);
                assert(node_eval(g2.children[j], asg));
            }
            if node_eval(g2, asg) {
                let j = choose|j: int|
                    0 <= j < g2.children.len() && node_eval(#[trigger] g2.children[j], asg);
                assert(node_eval(g1.children[j], asg));
            }
        },
    }
}

/// The driving instance of `a` reads signal `b` directly.
pub open spec fn depends_step(insts: Seq<Instance>, a: Seq<char>, b: Seq<char>) -> bool {
    match find_inst(insts, a) {
        Some(inst) => inst.inputs.deep_view().contains(b),
        None => false,
    }
}

/// Signal `a` reaches signal `b` through a dependency chain of exactly `n`
/// steps.
pub open spec fn reaches(insts: Seq<Instance>, a: Seq<char>, b: Seq<char>, n: nat) -> bool
    decreases n,
{
    if n == 0 {
        a == b
    } else {
        exists|m: Seq<char>|
            #[trigger] depends_step(insts, a, m) && reaches(insts, m, b, (n - 1) as nat)
    }
}

/// The height of a dependency tree: one more than its tallest subtree.
pub open spec fn height(g: GNode) -> nat
    decreases g, 0int, 0int,
{
    1 + tallest(g.children, 0)
}

/// The height of the tallest subtree from position `k` on.
pub open spec fn tallest(cs: Seq<GNode>, k: int) -> nat
    decreases cs, 1int, cs.len() - k,
{
    if k < 0 || k >= cs.len() {
        0
    } else {
        let a = height(cs[k]);
        let b = tallest(cs, k + 1);
        if a >= b {
            a
        } else {
            b
        }
    }
}

proof fn lemma_tallest_ge(cs: Seq<GNode>, k: int, j: int)
    requires
        0 <= k <= j < cs.len(),
    ensures
        tallest(cs, k) >= height(cs[j]),
    decreases j - k,
{
    if k < j {
        lemma_tallest_ge(cs, k + 1, j);
    }
}

/// A chain of `n` dependency steps out of a faithful tree's signal lands on
/// the signal of a faithful tree at least `n` shorter.
proof fn lemma_reach_height(insts: Seq<Instance>, g: GNode, t: Seq<char>, n: nat)
    requires
        complete(g, insts),
        reaches(insts, g.signal, t, n),
    ensures
        exists|h: GNode| #[trigger]
            complete(h, insts) && h.signal == t && height(h) + n <= height(g),
    decreases n,
{
    if n == 0 {
        assert(complete(g, insts) && g.signal == t && height(g) + n <= height(g));
    } else {
        let m = choose|m: Seq<char>|
            #[trigger] depends_step(insts, g.signal, m) && reaches(insts, m, t, (n - 1) as nat);
        let inst = find_inst(insts, g.signal)->Some_0;
        let w = choose|w: int|
            0 <= w < inst.inputs.deep_view().len() && inst.inputs.deep_view()[w] == m;
        let c = g.children[w];
        assert(c.signal == inst.inputs@[w]@ && complete(c, insts));
        assert(c.signal == m);
        lemma_tallest_ge(g.children, 0, w);
        assert(height(g) >= 1 + height(c));
        lemma_reach_height(insts, c, t, (n - 1) as nat);
        let h = choose|h: GNode| #[trigger]
            complete(h, insts) && h.signal == t && height(h) + (n - 1) <= height(c);
        assert(complete(h, insts) && h.signal == t && height(h) + n <= height(g));
    }
}

/// No signal with a faithful tree transitively depends on itself.
proof fn lemma_no_self_dependence(insts: Seq<Instance>, g: GNode, n: nat)
    requires
        complete(g, insts),
        n >= 1,
    ensures
        !reaches(insts, g.signal, g.signal, n),
    decreases height(g),
{
    if reaches(insts, g.signal, g.signal, n) {
        lemma_reach_height(insts, g, g.signal, n);
        let h = choose|h: GNode| #[trigger]
            complete(h, insts) && h.signal == g.signal && height(h) + n <= height(g);
        lemma_no_self_dependence(insts, h, n);
    }
}

/// Signal `s` appears somewhere in the tree.
pub open spec fn in_tree(g: GNode, s: Seq<char>) -> bool
    decreases g, 0int, 0int,
{
    g.signal == s || in_tree_list(g.children, s, 0)
}

/// Signal `s` appears in one of the subtrees from position `k` on.
pub open spec fn in_tree_list(cs: Seq<GNode>, s: Seq<char>, k: int) -> bool
    decreases cs, 1int, cs.len() - k,
{
    if k < 0 || k >= cs.len() {
        false
    } else {
        in_tree(cs[k], s) || in_tree_list(cs, s, k + 1)
    }
}

/// Every signal of a faithful tree has a faithful tree of its own.
proof fn lemma_in_tree_complete(insts: Seq<Instance>, g: GNode, s: Seq<char>)
    requires
        complete(g, insts),
        in_tree(g, s),
    ensures
        exists|h: GNode| #[trigger] complete(h, insts) && h.signal == s,
    decreases g, 0int, 0int,
{
    if g.signal == s {
        assert(complete(g, insts) && g.signal == s);
    } else {
        lemma_in_tree_list_complete(insts, g.children, s, 0);
    }
}

proof fn lemma_in_tree_list_complete(insts: Seq<Instance>, cs: Seq<GNode>, s: Seq<char>, k: int)
    requires
        forall|j: int| 0 <= j < cs.len() ==> complete(#[trigger] cs[j], insts),
        in_tree_list(cs, s, k),
        0 <= k,
    ensures
        exists|h: GNode| #[trigger] complete(h, insts) && h.signal == s,
    decreases cs, 1int, cs.len() - k,
{
    if in_tree(cs[k], s) {
        lemma_in_tree_complete(insts, cs[k], s);
    } else {
        lemma_in_tree_list_complete(insts, cs, s, k + 1);
    }
}

/// A tree that `resolve_signal_spec` returns is faithful to the instance
/// list and carries the requested signal.
proof fn lemma_resolve_spec_complete(insts: Seq<Instance>, signal: Seq<char>, path: Seq<Seq<char>>)
    requires
        path_ok(insts, path),
        resolve_signal_spec(insts, signal, path) is Ok,
    ensures
        complete(resolve_signal_spec(insts, signal, path)->Ok_0, insts),
        resolve_signal_spec(insts, signal, path)->Ok_0.signal == signal,
    decreases insts.len() - path.len(), 0int, 0int,
{
    let inst = find_inst(insts, signal)->Some_0;
    crate::netlist::lemma_find_inst(insts, signal);
    lemma_path_ok_push(insts, path, signal);
    lemma_resolve_inputs_complete(insts, inst.inputs.deep_view(), 0, path.push(signal));
}

proof fn lemma_resolve_inputs_complete(
    insts: Seq<Instance>,
    names: Seq<Seq<char>>,
    k: int,
    path: Seq<Seq<char>>,
)
    requires
        path_ok(insts, path),
        0 <= k <= names.len(),
        resolve_inputs_spec(insts, names, k, path) is Ok,
    ensures
        resolve_inputs_spec(insts, names, k, path)->Ok_0.len() == names.len() - k,
        forall|i: int|
            0 <= i < names.len() - k ==> complete(
                #[trigger] resolve_inputs_spec(insts, names, k, path)->Ok_0[i],
                insts,
            ) && resolve_inputs_spec(insts, names, k, path)->Ok_0[i].signal == names[k + i],
    decreases insts.len() - path.len(), 1int, names.len() - k,
{
    if k < names.len() {
        lemma_resolve_spec_complete(insts, names[k], path);
        lemma_resolve_inputs_complete(insts, names, k + 1, path);
        let g = resolve_signal_spec(insts, names[k], path)->Ok_0;
        let rest = resolve_inputs_spec(insts, names, k + 1, path)->Ok_0;
        let whole = resolve_inputs_spec(insts, names, k, path)->Ok_0;
        assert(whole == seq![g] + rest);
        assert forall|i: int| 0 <= i < names.len() - k implies complete(
            #[trigger] whole[i],
            insts,
        ) && whole[i].signal == names[k + i] by {
            if i == 0 {
                assert(whole[0] == g);
            } else {
                assert(whole[i] == rest[i - 1]);
            }
        }
    }
}

/// Cycle exclusion: when the target output resolves, no signal of the
/// resolved cone transitively depends on itself, at any chain length.
/// Contrapositively, a netlist in which a signal reachable from the target
/// is, directly or transitively, an input to its own driving instance never
/// yields a tree: resolution, which is total, reports a failure instead of
/// recursing forever.
pub proof fn lemma_resolution_excludes_self_dependence(
    insts: Seq<Instance>,
    out: Seq<char>,
    s: Seq<char>,
    n: nat,
)
    requires
        resolution(insts, out) is Ok,
        in_tree(resolution(insts, out)->Ok_0, s),
        n >= 1,
    ensures
        !reaches(insts, s, s, n),
{
    let g = resolution(insts, out)->Ok_0;
    lemma_resolve_spec_complete(insts, out, Seq::empty());
    lemma_in_tree_complete(insts, g, s);
    let h = choose|h: GNode| #[trigger] complete(h, insts) && h.signal == s;
    lemma_no_self_dependence(insts, h, n);
}

} // verus!
