//! The truth-table evaluator: enumerates every assignment of the primary
//! inputs and evaluates the resolved dependency tree under each.

use vstd::prelude::*;

use crate::catalog::Catalog;
use crate::netlist::{
    check_arities, contains_name, first_arity_violation, first_dup, min_arity, Instance, LogicOp,
    NetlistError,
};
use crate::resolve::{
    resolve, resolve_signal_spec, DependencyNode, GNode, node_wf, ResolveErr,
};

verus! {

/// One row of a truth table: the assignment, one boolean per declared
/// primary input in declaration order, and the output value under it.
#[derive(Debug, PartialEq, Eq, Clone)]
pub struct TableRow {
    pub inputs: Vec<bool>,
    pub output: bool,
}

/// The complete mapping from every assignment of the declared primary
/// inputs to the value of the target output.
pub type TruthTable = Vec<TableRow>;

/// Two to the power `k`.
pub open spec fn pow2(k: nat) -> nat
    decreases k,
{
    if k == 0 {
        1
    } else {
        2 * pow2((k - 1) as nat)
    }
}

/// `pow2` never decreases as the exponent grows.
pub proof fn lemma_pow2_le(a: nat, b: nat)
    requires
        a <= b,
    ensures
        pow2(a) <= pow2(b),
    decreases b,
{
    if a < b {
        lemma_pow2_le(a, (b - 1) as nat);
    }
}

/// The low `k` bits of `i`, least significant first: the assignment that row
/// index `i` encodes, bit `j` giving the value of the `j`-th primary input.
pub open spec fn bits_of(i: nat, k: nat) -> Seq<bool>
    decreases k,
{
    if k == 0 {
        Seq::empty()
    } else {
        seq![i % 2 == 1] + bits_of(i / 2, (k - 1) as nat)
    }
}

/// `bits_of(i, k)` has exactly `k` entries.
pub proof fn lemma_bits_of_len(i: nat, k: nat)
    ensures
        bits_of(i, k).len() == k,
    decreases k,
{
    if k > 0 {
        lemma_bits_of_len(i / 2, (k - 1) as nat);
    }
}

/// The assignment that binds each name of `inputs` to the bit at its first
/// position, and binds nothing else.
pub open spec fn asg_of(inputs: Seq<Seq<char>>, bits: Seq<bool>) -> Map<Seq<char>, bool> {
    Map::new(
        |s: Seq<char>| inputs.contains(s),
        |s: Seq<char>|
            match inputs.index_of_first(s) {
                Some(p) => bits[p],
                None => false,
            },
    )
}

/// The value of a dependency tree under an assignment: a driver takes its
/// assigned value, NOT negates its operand, AND holds exactly when every
/// operand holds, OR exactly when some operand holds.
pub open spec fn node_eval(g: GNode, asg: Map<Seq<char>, bool>) -> bool
    decreases g,
{
    match g.op {
        LogicOp::Driver => asg[g.signal],
        LogicOp::Not => if g.children.len() == 1 {
            !node_eval(g.children[0], asg)
        } else {
            false
        },
        LogicOp::And => forall|j: int|
            0 <= j < g.children.len() ==> node_eval(#[trigger] g.children[j], asg),
        LogicOp::Or => exists|j: int|
            0 <= j < g.children.len() && node_eval(#[trigger] g.children[j], asg),
    }
}

/// The first driver of the tree, in depth-first operand order, whose signal
/// is not among the declared primary inputs.
pub open spec fn first_undeclared(g: GNode, inputs: Seq<Seq<char>>) -> Option<Seq<char>>
    decreases g, 0int, 0int,
{
    match g.op {
        LogicOp::Driver => if inputs.contains(g.signal) {
            None
        } else {
            Some(g.signal)
        },
        _ => first_undeclared_list(g.children, inputs, 0),
    }
}

/// The first undeclared driver among the subtrees from position `k` on.
pub open spec fn first_undeclared_list(
    cs: Seq<GNode>,
    inputs: Seq<Seq<char>>,
    k: int,
) -> Option<Seq<char>>
    decreases cs, 1int, cs.len() - k,
{
    if k < 0 || k >= cs.len() {
        None
    } else {
        match first_undeclared(cs[k], inputs) {
            Some(n) => Some(n),
            None => first_undeclared_list(cs, inputs, k + 1),
        }
    }
}

/// When no subtree from position 0 on has an undeclared driver, none of the
/// subtrees has one.
pub proof fn lemma_undeclared_list_none(cs: Seq<GNode>, inputs: Seq<Seq<char>>, k: int)
    requires
        first_undeclared_list(cs, inputs, 0) is None,
        0 <= k < cs.len(),
    ensures
        first_undeclared(cs[k], inputs) is None,
{
    lemma_undeclared_step(cs, inputs, 0, k);
}

proof fn lemma_undeclared_step(cs: Seq<GNode>, inputs: Seq<Seq<char>>, j: int, k: int)
    requires
        first_undeclared_list(cs, inputs, j) is None,
        0 <= j <= k < cs.len(),
    ensures
        first_undeclared(cs[k], inputs) is None,
    decreases k - j,
{
    if j < k {
        lemma_undeclared_step(cs, inputs, j + 1, k);
    }
}

/// Scans the tree for a driver whose signal is not a declared primary input,
/// returning the first such signal in depth-first operand order.
fn find_undeclared(node: &DependencyNode, inputs: &Vec<String>) -> (r: Option<String>)
    ensures
        match r {
            Some(n) => first_undeclared(node.model(), inputs.deep_view()) == Some(n@),
            None => first_undeclared(node.model(), inputs.deep_view()) is None,
        },
    decreases *node,
{
    let ghost g = node.model();
    let ghost dv = inputs.deep_view();
    match node.op {
        LogicOp::Driver => {
            if contains_name(inputs, &node.signal) {
                None
            } else {
                Some(node.signal.clone())
            }
        },
        _ => {
            let mut k: usize = 0;
            while k < node.children.len()
                invariant
                    g == node.model(),
                    dv == inputs.deep_view(),
                    !(node.op is Driver),
                    k <= node.children@.len(),
                    g.children.len() == node.children@.len(),
                    first_undeclared_list(g.children, dv, 0) == first_undeclared_list(
                        g.children,
                        dv,
                        k as int,
                    ),
                decreases node.children@.len() - k,
            {
                proof {
                    assert(g.children[k as int] == node.children@[k as int].model());
                }
                match find_undeclared(&node.children[k], inputs) {
                    Some(n) => {
                        proof {
                            assert(first_undeclared_list(g.children, dv, k as int) == Some(n@));
                        }
                        return Some(n);
                    },
                    None => {
                    },
                }
                k = k + 1;
            }
            None
        },
    }
}

/// Evaluates the tree bottom-up under the assignment that `bits` gives the
/// declared primary inputs, short-circuiting AND on the first false operand
/// and OR on the first true one. Short-circuiting cannot change the result:
/// the value returned is exactly the full `node_eval` semantics.
fn eval_node(node: &DependencyNode, inputs: &Vec<String>, bits: &Vec<bool>) -> (v: bool)
    requires
        node_wf(node.model()),
        first_undeclared(node.model(), inputs.deep_view()) is None,
        bits@.len() == inputs@.len(),
    ensures
        v == node_eval(node.model(), asg_of(inputs.deep_view(), bits@)),
    decreases *node,
{
    let ghost g = node.model();
    let ghost dv = inputs.deep_view();
    let ghost asg = asg_of(dv, bits@);
    match node.op {
        LogicOp::Driver => {
            let mut i: usize = 0;
            while i < inputs.len()
                invariant
                    g == node.model(),
                    dv == inputs.deep_view(),
                    asg == asg_of(dv, bits@),
                    g.op is Driver,
                    g.signal == node.signal@,
                    bits@.len() == inputs@.len(),
                    first_undeclared(g, dv) is None,
                    i <= inputs.len(),
                    forall|m: int| 0 <= m < i ==> dv[m] != node.signal@,
                decreases inputs.len() - i,
            {
                if inputs[i] == node.signal {
                    proof {
                        assert(dv[i as int] == node.signal@);
                        dv.index_of_first_ensures(node.signal@);
                        let p = dv.index_of_first(node.signal@)->Some_0;
                        assert(!(p < i)) by {
                            if p < i {
                                assert(dv[p] != node.signal@);
                            }
                        }
                        assert(!(i < p));
                        assert(asg[node.signal@] == bits@[i as int]);
                    }
                    return bits[i];
                }
                i = i + 1;
            }
            proof {
                assert(!dv.contains(node.signal@));
                assert(first_undeclared(g, dv) == Some(node.signal@));
                assert(false);
            }
            false
        },
        LogicOp::Not => {
            proof {
                assert(g.children[0] == node.children@[0].model());
                assert(first_undeclared_list(g.children, dv, 0) is None);
                assert(first_undeclared(g.children[0], dv) is None);
            }
            let v = eval_node(&node.children[0], inputs, bits);
            !v
        },
        LogicOp::And => {
            let mut j: usize = 0;
            while j < node.children.len()
                invariant
                    g == node.model(),
                    dv == inputs.deep_view(),
                    asg == asg_of(dv, bits@),
                    g.op is And,
                    node_wf(g),
                    first_undeclared(g, dv) is None,
                    bits@.len() == inputs@.len(),
                    j <= node.children@.len(),
                    forall|m: int| 0 <= m < j ==> node_eval(#[trigger] g.children[m], asg),
                decreases node.children@.len() - j,
            {
                proof {
                    assert(g.children[j as int] == node.children@[j as int].model());
                    lemma_undeclared_list_none(g.children, dv, j as int);
                }
                if !eval_node(&node.children[j], inputs, bits) {
                    proof {
                        assert(!node_eval(g.children[j as int], asg));
                    }
                    return false;
                }
                j = j + 1;
            }
            true
        },
        LogicOp::Or => {
            let mut j: usize = 0;
            while j < node.children.len()
                invariant
                    g == node.model(),
                    dv == inputs.deep_view(),
                    asg == asg_of(dv, bits@),
                    g.op is Or,
                    node_wf(g),
                    first_undeclared(g, dv) is None,
                    bits@.len() == inputs@.len(),
                    j <= node.children@.len(),
                    forall|m: int| 0 <= m < j ==> !node_eval(#[trigger] g.children[m], asg),
                decreases node.children@.len() - j,
            {
                proof {
                    assert(g.children[j as int] == node.children@[j as int].model());
                    lemma_undeclared_list_none(g.children, dv, j as int);
                }
                if eval_node(&node.children[j], inputs, bits) {
                    proof {
                        assert(node_eval(g.children[j as int], asg));
                    }
                    return true;
                }
                j = j + 1;
            }
            false
        },
    }
}

/// Two to the power `k`, as a machine integer.
fn pow2_usize(k: usize) -> (r: usize)
    requires
        pow2(k as nat) <= usize::MAX,
    ensures
        r == pow2(k as nat),
{
    let mut r: usize = 1;
    let mut j: usize = 0;
    while j < k
        invariant
            j <= k,
            r == pow2(j as nat),
            pow2(k as nat) <= usize::MAX,
        decreases k - j,
    {
        proof {
            lemma_pow2_le((j + 1) as nat, k as nat);
        }
        r = r * 2;
        j = j + 1;
    }
    r
}

/// The low `k` bits of `idx`, least significant first.
fn index_bits(idx: usize, k: usize) -> (r: Vec<bool>)
    ensures
        r@ == bits_of(idx as nat, k as nat),
        r@.len() == k,
{
    let mut r: Vec<bool> = Vec::new();
    let mut rem: usize = idx;
    let mut j: usize = 0;
    while j < k
        invariant
            j <= k,
            r@.len() == j,
            r@ + bits_of(rem as nat, (k - j) as nat) == bits_of(idx as nat, k as nat),
        decreases k - j,
    {
        let ghost old_r = r@;
        let ghost old_rem = rem as nat;
        r.push(rem % 2 == 1);
        rem = rem / 2;
        proof {
            assert(bits_of(old_rem, (k - j) as nat) == seq![old_rem % 2 == 1] + bits_of(
                old_rem / 2,
                (k - j - 1) as nat,
            ));
            assert(r@ + bits_of(rem as nat, (k - j - 1) as nat) =~= old_r + bits_of(
                old_rem,
                (k - j) as nat,
            ));
        }
        j = j + 1;
    }
    proof {
        assert(r@ =~= r@ + bits_of(rem as nat, 0));
    }
    r
}

/// The resolution of `out` against the instance list, starting from an empty
/// expansion path.
pub open spec fn resolution(insts: Seq<Instance>, out: Seq<char>) -> Result<GNode, ResolveErr> {
    resolve_signal_spec(insts, out, Seq::empty())
}

/// Computes the truth table of `output` over the netlist `instances`: one
/// row per assignment of the declared primary inputs, row `i` carrying the
/// low `primary_inputs.len()` bits of `i` (least significant bit first, bit
/// `j` assigned to `primary_inputs[j]`) and the value of `output` under that
/// assignment.
///
/// The netlist is validated first — operand counts, duplicate outputs,
/// unknown signals, combinational cycles, undeclared drivers, in that order —
/// and the first violation is returned as the single terminal failure, with
/// no partial table. A well-formed netlist always yields a table of exactly
/// `2^k` rows, one per distinct assignment. The whole result, table or
/// error, is pinned to a mathematical function of the arguments, so two
/// computations over the same netlist, output and input list agree.
pub fn compute_truth_table(
    instances: Vec<Instance>,
    output: String,
    primary_inputs: Vec<String>,
) -> (r: Result<TruthTable, NetlistError>)
    requires
        pow2(primary_inputs@.len() as nat) <= usize::MAX,
    ensures
        match r {
            Ok(rows) => {
                let ins = primary_inputs.deep_view();
                let k = ins.len() as nat;
                &&& first_arity_violation(instances@) is None
                &&& first_dup(instances@) is None
                &&& resolution(instances@, output@) matches Ok(g)
                    && first_undeclared(g, ins) is None
                    && rows@.len() == pow2(k)
                    && (forall|i: int|
                        0 <= i < rows@.len() ==> (#[trigger] rows@[i]).inputs@ == bits_of(
                            i as nat,
                            k,
                        ))
                    && (forall|i: int|
                        0 <= i < rows@.len() ==> (#[trigger] rows@[i]).output == node_eval(
                            g,
                            asg_of(ins, bits_of(i as nat, k)),
                        ))
            },
            Err(NetlistError::ArityMismatch(n, expected, actual)) => {
                &&& first_arity_violation(instances@) matches Some(j)
                    && n@ == instances@[j].output@
                    && expected == min_arity(instances@[j].op)
                    && actual == instances@[j].inputs@.len()
            },
            Err(NetlistError::DuplicateOutput(n)) => {
                &&& first_arity_violation(instances@) is None
                &&& first_dup(instances@) == Some(n@)
            },
            Err(NetlistError::UnknownSignal(n)) => {
                &&& first_arity_violation(instances@) is None
                &&& first_dup(instances@) is None
                &&& resolution(instances@, output@) == Err::<GNode, ResolveErr>(
                    ResolveErr::Unknown(n@),
                )
            },
            Err(NetlistError::CombinationalCycle(n)) => {
                &&& first_arity_violation(instances@) is None
                &&& first_dup(instances@) is None
                &&& resolution(instances@, output@) == Err::<GNode, ResolveErr>(
                    ResolveErr::Cycle(n@),
                )
            },
            Err(NetlistError::UndeclaredDriver(n)) => {
                &&& first_arity_violation(instances@) is None
                &&& first_dup(instances@) is None
                &&& resolution(instances@, output@) matches Ok(g) && first_undeclared(
                    g,
                    primary_inputs.deep_view(),
                ) == Some(n@)
            },
        },
{
    let ghost insts = instances@;
    if let Err(e) = check_arities(&instances) {
        return Err(e);
    }
    let catalog = match Catalog::build(instances) {
        Err(e) => {
            return Err(e);
        },
        Ok(c) => c,
    };
    let node = match resolve(&catalog, &output) {
        Err(e) => {
            return Err(e);
        },
        Ok(node) => node,
    };
    evaluate(&node, &primary_inputs)
}

/// Enumerates the `2^k` assignments of the `k` declared primary inputs, in
/// the natural binary order of the row index, and evaluates the dependency
/// tree once per assignment. Fails with `UndeclaredDriver` when a driver of
/// the tree has no position in `primary_inputs`; every driver must take its
/// value from the assignment.
pub fn evaluate(node: &DependencyNode, primary_inputs: &Vec<String>) -> (r: Result<
    TruthTable,
    NetlistError,
>)
    requires
        node_wf(node.model()),
        pow2(primary_inputs@.len() as nat) <= usize::MAX,
    ensures
        match r {
            Ok(rows) => {
                let ins = primary_inputs.deep_view();
                let k = ins.len() as nat;
                &&& first_undeclared(node.model(), ins) is None
                &&& rows@.len() == pow2(k)
                &&& forall|i: int|
                    0 <= i < rows@.len() ==> (#[trigger] rows@[i]).inputs@ == bits_of(i as nat, k)
                &&& forall|i: int|
                    0 <= i < rows@.len() ==> (#[trigger] rows@[i]).output == node_eval(
                        node.model(),
                        asg_of(ins, bits_of(i as nat, k)),
                    )
            },
            Err(NetlistError::UndeclaredDriver(n)) => first_undeclared(
                node.model(),
                primary_inputs.deep_view(),
            ) == Some(n@),
            Err(_) => false,
        },
{
    let ghost ins = primary_inputs.deep_view();
    let ghost k = ins.len() as nat;
    let ghost g = node.model();
    if let Some(n) = find_undeclared(node, primary_inputs) {
        return Err(NetlistError::UndeclaredDriver(n));
    }
    let count = pow2_usize(primary_inputs.len());
    let mut rows: Vec<TableRow> = Vec::new();
    let mut idx: usize = 0;
    while idx < count
        invariant
            ins == primary_inputs.deep_view(),
            k == ins.len() as nat,
            ins.len() == primary_inputs@.len(),
            count == pow2(k),
            g == node.model(),
            node_wf(g),
            first_undeclared(g, ins) is None,
            idx <= count,
            rows@.len() == idx,
            forall|i: int|
                0 <= i < idx ==> (#[trigger] rows@[i]).inputs@ == bits_of(i as nat, k),
            forall|i: int|
                0 <= i < idx ==> (#[trigger] rows@[i]).output == node_eval(
                    g,
                    asg_of(ins, bits_of(i as nat, k)),
                ),
        decreases count - idx,
    {
        let bits = index_bits(idx, primary_inputs.len());
        let value = eval_node(node, primary_inputs, &bits);
        rows.push(TableRow { inputs: bits, output: value });
        idx = idx + 1;
    }
    Ok(rows)
}

} // verus!
