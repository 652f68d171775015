//! The netlist data model: gate kinds, instances, and the error taxonomy.

use vstd::prelude::*;

verus! {

/// The operation of one gate instance. `Driver` marks a primary input: a
/// signal whose value comes from the assignment under test, not from
/// computation.
#[derive(Debug, PartialEq, Eq, Structural, Hash, Clone, Copy)]
pub enum LogicOp {
    And,
    Or,
    Not,
    Driver,
}

/// One gate or driver declaration: it drives the signal named `output` from
/// the ordered operand signals `inputs`.
#[derive(Debug, PartialEq, Eq, Hash, Clone)]
pub struct Instance {
    pub op: LogicOp,
    pub output: String,
    pub inputs: Vec<String>,
}

/// Why a netlist was rejected. Every variant is an input-validation failure;
/// none is transient.
#[derive(Debug, PartialEq, Eq, Clone)]
pub enum NetlistError {
    /// Two instances claim the same driven signal.
    DuplicateOutput(String),
    /// A referenced input or output signal has no driving instance.
    UnknownSignal(String),
    /// A signal transitively depends on itself.
    CombinationalCycle(String),
    /// A reachable primary input has no entry in the caller-supplied list.
    UndeclaredDriver(String),
    /// A gate's operand count violates its kind's arity rule. The fields are
    /// the driven signal, the smallest operand count its kind allows, and the
    /// count found.
    ArityMismatch(String, usize, usize),
}

/// The smallest number of operands that a gate of kind `op` accepts.
/// AND and OR take any count of one or more; NOT exactly one; a driver none.
pub open spec fn min_arity(op: LogicOp) -> nat {
    match op {
        LogicOp::And => 1,
        LogicOp::Or => 1,
        LogicOp::Not => 1,
        LogicOp::Driver => 0,
    }
}

impl Instance {
    /// The operand count obeys the arity rule of the instance's kind:
    /// a driver has none, NOT exactly one, AND and OR at least one.
    pub open spec fn arity_ok(self) -> bool {
        match self.op {
            LogicOp::And => self.inputs@.len() >= 1,
            LogicOp::Or => self.inputs@.len() >= 1,
            LogicOp::Not => self.inputs@.len() == 1,
            LogicOp::Driver => self.inputs@.len() == 0,
        }
    }

    /// Builds an instance from borrowed names.
    pub fn new(op: LogicOp, output: &str, inputs: &[&str]) -> (r: Instance)
        ensures
            r.op == op,
            r.output@ == output@,
            r.inputs.deep_view() == inputs.deep_view(),
    {
        let mut owned: Vec<String> = Vec::new();
        let mut i: usize = 0;
        while i < inputs.len()
            invariant
                i <= inputs.len(),
                owned.len() == i,
                forall|j: int| 0 <= j < i ==> owned@[j]@ == inputs@[j]@,
            decreases inputs.len() - i,
        {
            owned.push(inputs[i].to_owned());
            i = i + 1;
        }
        let r = Instance { op, output: output.to_owned(), inputs: owned };
        proof {
            assert(r.inputs.deep_view() =~= inputs.deep_view());
        }
        r
    }
}

/// The instance, if any, that drives `name`: the first instance of `insts`
/// whose output is `name`.
pub open spec fn find_inst(insts: Seq<Instance>, name: Seq<char>) -> Option<Instance>
    decreases insts.len(),
{
    if insts.len() == 0 {
        None
    } else if insts[0].output@ == name {
        Some(insts[0])
    } else {
        find_inst(insts.drop_first(), name)
    }
}

/// Some instance of `insts` drives `name`.
pub open spec fn has_inst(insts: Seq<Instance>, name: Seq<char>) -> bool {
    exists|i: int| 0 <= i < insts.len() && insts[i].output@ == name
}

/// `find_inst` succeeds exactly on the names that some instance drives, and
/// returns the first such instance.
pub proof fn lemma_find_inst(insts: Seq<Instance>, name: Seq<char>)
    ensures
        match find_inst(insts, name) {
            Some(inst) => {
                &&& has_inst(insts, name)
                &&& inst.output@ == name
                &&& exists|i: int|
                    0 <= i < insts.len() && insts[i] == inst && insts[i].output@ == name
                    && (forall|m: int| 0 <= m < i ==> insts[m].output@ != name)
            },
            None => !has_inst(insts, name),
        },
    decreases insts.len(),
{
    if insts.len() == 0 {
    } else if insts[0].output@ == name {
        assert(insts[0] == insts[0] && insts[0].output@ == name
            && (forall|m: int| 0 <= m < 0 ==> insts[m].output@ != name));
    } else {
        let rest = insts.drop_first();
        lemma_find_inst(rest, name);
        match find_inst(insts, name) {
            Some(inst) => {
                let i = choose|i: int|
                    0 <= i < rest.len() && rest[i] == inst && rest[i].output@ == name
                        && (forall|m: int| 0 <= m < i ==> rest[m].output@ != name);
                assert(insts[i + 1] == inst && insts[i + 1].output@ == name);
                assert(forall|m: int| 0 <= m < i + 1 ==> insts[m].output@ != name) by {
                    assert(forall|m: int| 1 <= m < i + 1 ==> insts[m] == rest[m - 1]);
                }
            },
            None => {
                assert(!has_inst(insts, name)) by {
                    if has_inst(insts, name) {
                        let i = choose|i: int| 0 <= i < insts.len() && insts[i].output@ == name;
                        assert(i >= 1 && rest[i - 1] == insts[i]);
                    }
                }
            },
        }
    }
}

/// The output name of the first instance, scanning from position `j`, whose
/// output repeats an earlier instance's output; `None` when outputs from `j`
/// on are all new.
pub open spec fn first_dup_from(insts: Seq<Instance>, j: int) -> Option<Seq<char>>
    decreases insts.len() - j,
{
    if j < 0 || j >= insts.len() {
        None
    } else if exists|i: int| 0 <= i < j && insts[i].output@ == insts[j].output@ {
        Some(insts[j].output@)
    } else {
        first_dup_from(insts, j + 1)
    }
}

/// The first duplicated output name of the list, if any.
pub open spec fn first_dup(insts: Seq<Instance>) -> Option<Seq<char>> {
    first_dup_from(insts, 0)
}

/// The position, scanning from `j`, of the first instance whose operand
/// count violates its kind's arity rule.
pub open spec fn first_arity_violation_from(insts: Seq<Instance>, j: int) -> Option<int>
    decreases insts.len() - j,
{
    if j < 0 || j >= insts.len() {
        None
    } else if !insts[j].arity_ok() {
        Some(j)
    } else {
        first_arity_violation_from(insts, j + 1)
    }
}

/// The position of the first instance with a bad operand count, if any.
pub open spec fn first_arity_violation(insts: Seq<Instance>) -> Option<int> {
    first_arity_violation_from(insts, 0)
}

/// True when `v` holds a string whose characters are `s`'s.
pub(crate) fn contains_name(v: &Vec<String>, s: &String) -> (r: bool)
    ensures
        r == v.deep_view().contains(s@),
{
    let mut i: usize = 0;
    while i < v.len()
        invariant
            i <= v.len(),
            forall|m: int| 0 <= m < i ==> v.deep_view()[m] != s@,
        decreases v.len() - i,
    {
        if v[i] == *s {
            proof {
                assert(v.deep_view()[i as int] == s@);
            }
            return true;
        }
        i = i + 1;
    }
    false
}

/// Checks every instance's operand count against its kind's arity rule, in
/// list order, and reports the first violation as an `ArityMismatch` naming
/// the driven signal, the smallest count the kind allows, and the count
/// found.
pub fn check_arities(instances: &Vec<Instance>) -> (r: Result<(), NetlistError>)
    ensures
        match r {
            Ok(_) => first_arity_violation(instances@) is None,
            Err(NetlistError::ArityMismatch(n, expected, actual)) => {
                &&& first_arity_violation(instances@) matches Some(j)
                    && n@ == instances@[j].output@
                    && expected == min_arity(instances@[j].op)
                    && actual == instances@[j].inputs@.len()
            },
            Err(_) => false,
        },
{
    let mut j: usize = 0;
    while j < instances.len()
        invariant
            j <= instances.len(),
            first_arity_violation(instances@) == first_arity_violation_from(instances@, j as int),
        decreases instances.len() - j,
    {
        let inst = &instances[j];
        let ok: bool = match inst.op {
            LogicOp::And => inst.inputs.len() >= 1,
            LogicOp::Or => inst.inputs.len() >= 1,
            LogicOp::Not => inst.inputs.len() == 1,
            LogicOp::Driver => inst.inputs.len() == 0,
        };
        if !ok {
            let expected: usize = match inst.op {
                LogicOp::And => 1,
                LogicOp::Or => 1,
                LogicOp::Not => 1,
                LogicOp::Driver => 0,
            };
            return Err(NetlistError::ArityMismatch(
                inst.output.clone(),
                expected,
                inst.inputs.len(),
            ));
        }
        j = j + 1;
    }
    Ok(())
}

} // verus!
