//! The dependency resolver: walks backward from a target signal through the
//! catalog and builds a dependency tree, rejecting unknown references and
//! combinational cycles.

use vstd::prelude::*;

use crate::catalog::Catalog;
use crate::netlist::{
    contains_name, find_inst, first_arity_violation, first_arity_violation_from, has_inst,
    lemma_find_inst, Instance, LogicOp, NetlistError,
};

verus! {

/// The mathematical shape of a resolved dependency tree: a signal, the
/// operation of its driving instance, and one subtree per operand, in
/// operand order. A signal consumed by several gates appears as several
/// independent subtrees.
#[verifier::ext_equal]
pub ghost struct GNode {
    pub signal: Seq<char>,
    pub op: LogicOp,
    pub children: Seq<GNode>,
}

/// Why resolution of a signal fails: the signal (or a transitive operand)
/// has no driving instance, or a signal reappears on the active expansion
/// path, i.e. transitively depends on itself.
pub ghost enum ResolveErr {
    Unknown(Seq<char>),
    Cycle(Seq<char>),
}

/// The names on the active expansion path are pairwise distinct and each has
/// a driving instance.
pub open spec fn path_ok(insts: Seq<Instance>, path: Seq<Seq<char>>) -> bool {
    &&& path.no_duplicates()
    &&& forall|i: int| 0 <= i < path.len() ==> has_inst(insts, #[trigger] path[i])
}

/// Pairwise-distinct names that all have driving instances are no more
/// numerous than the instances.
pub proof fn lemma_path_bound(insts: Seq<Instance>, path: Seq<Seq<char>>)
    requires
        path_ok(insts, path),
    ensures
        path.len() <= insts.len(),
    decreases path.len(),
{
    if path.len() > 0 {
        let last = path.last();
        assert(has_inst(insts, last));
        let j = choose|j: int| 0 <= j < insts.len() && insts[j].output@ == last;
        let rest_insts = insts.remove(j);
        let rest_path = path.drop_last();
        insts.remove_ensures(j);
        assert(rest_path.no_duplicates());
        assert forall|i: int| 0 <= i < rest_path.len() implies has_inst(
            rest_insts,
            #[trigger] rest_path[i],
        ) by {
            assert(rest_path[i] == path[i]);
            assert(path[i] != last);
            assert(has_inst(insts, path[i]));
            let w = choose|w: int| 0 <= w < insts.len() && insts[w].output@ == path[i];
            if w < j {
                assert(rest_insts[w] == insts[w]);
            } else {
                assert(w != j);
                assert(rest_insts[w - 1] == insts[w]);
            }
        }
        lemma_path_bound(rest_insts, rest_path);
    }
}

/// Pushing a fresh resolvable name keeps the path well formed and bounded.
pub proof fn lemma_path_ok_push(insts: Seq<Instance>, path: Seq<Seq<char>>, signal: Seq<char>)
    requires
        path_ok(insts, path),
        !path.contains(signal),
        has_inst(insts, signal),
    ensures
        path_ok(insts, path.push(signal)),
        path.push(signal).len() <= insts.len(),
{
    let p2 = path.push(signal);
    assert forall|i: int, j: int|
        (0 <= i < p2.len() && 0 <= j < p2.len() && i != j) implies p2[i] != p2[j] by {
        if i < path.len() && j < path.len() {
        } else if i < path.len() {
            assert(p2[j] == signal && p2[i] == path[i]);
        } else {
            assert(p2[i] == signal && p2[j] == path[j]);
        }
    }
    assert(forall|i: int| 0 <= i < p2.len() ==> has_inst(insts, #[trigger] p2[i]));
    lemma_path_bound(insts, p2);
}

/// Resolution of one signal against the instance list, with `path` holding
/// the signals currently being expanded, outermost first. This is the
/// defining recursion: a signal already on the path is a combinational
/// cycle; a signal without a driving instance is unknown; otherwise the
/// node's subtrees are the resolutions of the instance's operands, in order,
/// the first failure winning.
pub open spec fn resolve_signal_spec(
    insts: Seq<Instance>,
    signal: Seq<char>,
    path: Seq<Seq<char>>,
) -> Result<GNode, ResolveErr>
    decreases insts.len() - path.len(), 0int, 0int,
        when path_ok(insts, path)
{
    if path.contains(signal) {
        Err(ResolveErr::Cycle(signal))
    } else {
        match find_inst(insts, signal) {
            None => Err(ResolveErr::Unknown(signal)),
            Some(inst) => {
                proof {
                    lemma_find_inst(insts, signal);
                    lemma_path_ok_push(insts, path, signal);
                }
                match resolve_inputs_spec(insts, inst.inputs.deep_view(), 0, path.push(signal)) {
                    Ok(children) => Ok(GNode { signal, op: inst.op, children }),
                    Err(e) => Err(e),
                }
            },
        }
    }
}

/// Resolution of the operand names from position `k` on, against the path
/// extended with the instance being expanded. Returns the subtrees in operand
/// order, or the first failure.
pub open spec fn resolve_inputs_spec(
    insts: Seq<Instance>,
    names: Seq<Seq<char>>,
    k: int,
    path: Seq<Seq<char>>,
) -> Result<Seq<GNode>, ResolveErr>
    decreases insts.len() - path.len(), 1int, names.len() - k,
        when path_ok(insts, path) && 0 <= k
{
    if k >= names.len() {
        Ok(Seq::empty())
    } else {
        match resolve_signal_spec(insts, names[k], path) {
            Err(e) => Err(e),
            Ok(g) => match resolve_inputs_spec(insts, names, k + 1, path) {
                Err(e) => Err(e),
                Ok(rest) => Ok(seq![g] + rest),
            },
        }
    }
}

/// A resolved dependency tree. Built by `resolve`; a tree by construction,
/// so evaluation is plain structural recursion.
pub struct DependencyNode {
    pub signal: String,
    pub op: LogicOp,
    pub children: Vec<DependencyNode>,
}

impl DependencyNode {
    /// The mathematical tree this node represents.
    pub open spec fn model(self) -> GNode
        decreases self,
    {
        GNode {
            signal: self.signal@,
            op: self.op,
            children: Seq::new(
                self.children@.len(),
                |i: int|
                    if 0 <= i && i < self.children@.len() {
                        self.children@[i].model()
                    } else {
                        vstd::pervasive::arbitrary()
                    },
            ),
        }
    }
}

/// The models of a sequence of nodes, in order.
pub open spec fn models(s: Seq<DependencyNode>) -> Seq<GNode> {
    Seq::new(s.len(), |i: int| s[i].model())
}

/// The tree faithfully mirrors the instance list: each node's signal has a
/// driving instance whose operation the node carries, with one subtree per
/// operand name, in order, each subtree faithful in turn.
pub open spec fn complete(g: GNode, insts: Seq<Instance>) -> bool
    decreases g,
{
    match find_inst(insts, g.signal) {
        None => false,
        Some(inst) => {
            &&& g.op == inst.op
            &&& g.children.len() == inst.inputs@.len()
            &&& forall|j: int|
                0 <= j < g.children.len() ==> (#[trigger] g.children[j]).signal == inst.inputs@[j]@
            &&& forall|j: int| 0 <= j < g.children.len() ==> complete(#[trigger] g.children[j], insts)
        },
    }
}

/// Every node of the tree has an operand count that obeys its operation's
/// arity rule; in particular every leaf is a driver.
pub open spec fn node_wf(g: GNode) -> bool
    decreases g,
{
    &&& match g.op {
        LogicOp::And => g.children.len() >= 1,
        LogicOp::Or => g.children.len() >= 1,
        LogicOp::Not => g.children.len() == 1,
        LogicOp::Driver => g.children.len() == 0,
    }
    &&& forall|j: int| 0 <= j < g.children.len() ==> node_wf(#[trigger] g.children[j])
}

/// When no instance violates its arity rule, any instance the catalog finds
/// obeys its own.
pub proof fn lemma_arity_all(insts: Seq<Instance>, j: int)
    requires
        first_arity_violation(insts) is None,
        0 <= j < insts.len(),
    ensures
        insts[j].arity_ok(),
{
    lemma_arity_from(insts, 0, j);
}

proof fn lemma_arity_from(insts: Seq<Instance>, k: int, j: int)
    requires
        first_arity_violation_from(insts, k) is None,
        0 <= k <= j < insts.len(),
    ensures
        insts[j].arity_ok(),
    decreases j - k,
{
    if k < j {
        lemma_arity_from(insts, k + 1, j);
    }
}

/// A fresh vector with the same names.
fn clone_names(v: &Vec<String>) -> (r: Vec<String>)
    ensures
        r@.len() == v@.len(),
        r.deep_view() == v.deep_view(),
{
    let mut r: Vec<String> = Vec::new();
    let mut i: usize = 0;
    while i < v.len()
        invariant
            i <= v.len(),
            r@.len() == i,
            forall|m: int| 0 <= m < i ==> r@[m]@ == v@[m]@,
        decreases v.len() - i,
    {
        r.push(v[i].clone());
        i = i + 1;
    }
    proof {
        assert(r.deep_view() =~= v.deep_view());
    }
    r
}

/// Expands one signal. `path` holds the signals currently being expanded on
/// the active path; a repeat is a combinational cycle. The result is exactly
/// what `resolve_signal_spec` assigns to these arguments.
fn resolve_signal(cat: &Catalog, signal: &String, path: &Vec<String>) -> (r: Result<
    DependencyNode,
    NetlistError,
>)
    requires
        path_ok(cat@, path.deep_view()),
    ensures
        match r {
            Ok(node) => {
                &&& resolve_signal_spec(cat@, signal@, path.deep_view()) == Ok::<
                    GNode,
                    ResolveErr,
                >(node.model())
                &&& node.model().signal == signal@
                &&& complete(node.model(), cat@)
                &&& first_arity_violation(cat@) is None ==> node_wf(node.model())
            },
            Err(NetlistError::UnknownSignal(n)) => resolve_signal_spec(
                cat@,
                signal@,
                path.deep_view(),
            ) == Err::<GNode, ResolveErr>(ResolveErr::Unknown(n@)),
            Err(NetlistError::CombinationalCycle(n)) => resolve_signal_spec(
                cat@,
                signal@,
                path.deep_view(),
            ) == Err::<GNode, ResolveErr>(ResolveErr::Cycle(n@)),
            Err(_) => false,
        },
    decreases cat@.len() - path@.len(),
{
    let ghost pd = path.deep_view();
    if contains_name(path, signal) {
        return Err(NetlistError::CombinationalCycle(signal.clone()));
    }
    let inst = match cat.lookup(signal) {
        None => {
            return Err(NetlistError::UnknownSignal(signal.clone()));
        },
        Some(inst) => inst,
    };
    proof {
        lemma_find_inst(cat@, signal@);
        lemma_path_ok_push(cat@, pd, signal@);
    }
    let mut path2 = clone_names(path);
    path2.push(signal.clone());
    proof {
        assert(path2.deep_view() =~= pd.push(signal@));
    }
    let ghost p2 = path2.deep_view();
    let ghost names = inst.inputs.deep_view();
    let mut children: Vec<DependencyNode> = Vec::new();
    let mut k: usize = 0;
    while k < inst.inputs.len()
        invariant
            path_ok(cat@, p2),
            p2.len() <= cat@.len(),
            p2 == path2.deep_view(),
            p2 == pd.push(signal@),
            pd.len() + 1 == p2.len(),
            path2@.len() == p2.len(),
            path@.len() == pd.len(),
            pd == path.deep_view(),
            path_ok(cat@, pd),
            !pd.contains(signal@),
            find_inst(cat@, signal@) == Some(*inst),
            names == inst.inputs.deep_view(),
            k <= inst.inputs.len(),
            names.len() == inst.inputs@.len(),
            children@.len() == k,
            forall|j: int|
                0 <= j < k ==> (#[trigger] children@[j].model()).signal == names[j],
            forall|j: int| 0 <= j < k ==> complete(#[trigger] children@[j].model(), cat@),
            first_arity_violation(cat@) is None ==> forall|j: int|
                0 <= j < k ==> node_wf(#[trigger] children@[j].model()),
            match resolve_inputs_spec(cat@, names, k as int, p2) {
                Ok(rest) => resolve_inputs_spec(cat@, names, 0, p2) == Ok::<
                    Seq<GNode>,
                    ResolveErr,
                >(models(children@) + rest),
                Err(e) => resolve_inputs_spec(cat@, names, 0, p2) == Err::<
                    Seq<GNode>,
                    ResolveErr,
                >(e),
            },
        decreases inst.inputs.len() - k,
    {
        proof {
            assert(inst.inputs[k as int]@ == names[k as int]);
        }
        match resolve_signal(cat, &inst.inputs[k], &path2) {
            Ok(child) => {
                proof {
                    let prev = children@;
                    let rest = resolve_inputs_spec(cat@, names, k + 1int, p2);
                    assert(models(prev.push(child)) =~= models(prev) + seq![child.model()]);
                    if rest is Ok {
                        assert(models(prev) + (seq![child.model()] + rest->Ok_0) =~= (models(prev)
                            + seq![child.model()]) + rest->Ok_0);
                    }
                }
                children.push(child);
            },
            Err(e) => {
                proof {
                    let outer = resolve_signal_spec(cat@, signal@, pd);
                    match &e {
                        NetlistError::UnknownSignal(n) => {
                            assert(resolve_inputs_spec(cat@, names, k as int, p2) == Err::<
                                Seq<GNode>,
                                ResolveErr,
                            >(ResolveErr::Unknown(n@)));
                            assert(outer == Err::<GNode, ResolveErr>(ResolveErr::Unknown(n@)));
                        },
                        NetlistError::CombinationalCycle(n) => {
                            assert(resolve_inputs_spec(cat@, names, k as int, p2) == Err::<
                                Seq<GNode>,
                                ResolveErr,
                            >(ResolveErr::Cycle(n@)));
                            assert(outer == Err::<GNode, ResolveErr>(ResolveErr::Cycle(n@)));
                        },
                        _ => {
                            assert(false);
                        },
                    }
                }
                return Err(e);
            },
        }
        k = k + 1;
    }
    let node = DependencyNode { signal: signal.clone(), op: inst.op, children };
    proof {
        assert(models(node.children@) + Seq::<GNode>::empty() =~= models(node.children@));
        assert(node.model().children =~= models(node.children@));
        assert(node.model() =~= GNode { signal: signal@, op: inst.op, children: models(node.children@) });
        assert(resolve_signal_spec(cat@, signal@, pd) == Ok::<GNode, ResolveErr>(node.model()));
        assert(find_inst(cat@, node.model().signal) == Some(*inst));
        if first_arity_violation(cat@) is None {
            let w = choose|w: int|
                0 <= w < cat@.len() && cat@[w] == *inst && cat@[w].output@ == signal@;
            lemma_arity_all(cat@, w);
        }
    }
    Ok(node)
}

/// Resolves the target output signal into a dependency tree, failing with
/// `UnknownSignal` when the target or any transitively referenced signal has
/// no catalog entry, and with `CombinationalCycle` when a signal transitively
/// depends on itself. On success the tree is faithful to the catalog
/// (`complete`), and well formed when every instance's arity was checked.
pub fn resolve(catalog: &Catalog, output: &String) -> (r: Result<DependencyNode, NetlistError>)
    ensures
        match r {
            Ok(node) => {
                &&& resolve_signal_spec(catalog@, output@, Seq::empty()) == Ok::<
                    GNode,
                    ResolveErr,
                >(node.model())
                &&& node.model().signal == output@
                &&& complete(node.model(), catalog@)
                &&& first_arity_violation(catalog@) is None ==> node_wf(node.model())
            },
            Err(NetlistError::UnknownSignal(n)) => resolve_signal_spec(
                catalog@,
                output@,
                Seq::empty(),
            ) == Err::<GNode, ResolveErr>(ResolveErr::Unknown(n@)),
            Err(NetlistError::CombinationalCycle(n)) => resolve_signal_spec(
                catalog@,
                output@,
                Seq::empty(),
            ) == Err::<GNode, ResolveErr>(ResolveErr::Cycle(n@)),
            Err(_) => false,
        },
{
    let path: Vec<String> = Vec::new();
    proof {
        assert(path.deep_view() =~= Seq::<Seq<char>>::empty());
    }
    resolve_signal(catalog, output, &path)
}

} // verus!
