//! The signal catalog: the instance list indexed by driven signal name.

use vstd::prelude::*;

use crate::netlist::{first_dup, first_dup_from, find_inst, has_inst, Instance, NetlistError};

verus! {

/// A lookup from each signal name to the instance that drives it, built once
/// from the instance list and read-only thereafter. Within a catalog no two
/// instances drive the same signal.
pub struct Catalog {
    instances: Vec<Instance>,
}

impl View for Catalog {
    type V = Seq<Instance>;

    closed spec fn view(&self) -> Seq<Instance> {
        self.instances@
    }
}

impl Catalog {
    /// No two instances of the catalog drive the same signal.
    pub open spec fn wf(self) -> bool {
        forall|i: int, j: int|
            0 <= i < j < self@.len() ==> self@[i].output@ != self@[j].output@
    }

    /// Indexes the instance list by driven signal. Rejects the list with
    /// `DuplicateOutput`, naming the first repeated output in list order,
    /// when two instances drive the same signal; otherwise the catalog holds
    /// exactly the given instances, in order.
    pub fn build(instances: Vec<Instance>) -> (r: Result<Catalog, NetlistError>)
        ensures
            match r {
                Ok(c) => c@ == instances@ && c.wf() && first_dup(instances@) is None,
                Err(NetlistError::DuplicateOutput(n)) => first_dup(instances@) == Some(n@),
                Err(_) => false,
            },
    {
        let ghost insts = instances@;
        let mut j: usize = 0;
        while j < instances.len()
            invariant
                insts == instances@,
                j <= instances.len(),
                first_dup(insts) == first_dup_from(insts, j as int),
                forall|a: int, b: int| 0 <= a < b < j ==> insts[a].output@ != insts[b].output@,
            decreases instances.len() - j,
        {
            let mut i: usize = 0;
            while i < j
                invariant
                    insts == instances@,
                    i <= j < instances.len(),
                    first_dup(insts) == first_dup_from(insts, j as int),
                    forall|m: int| 0 <= m < i ==> insts[m].output@ != insts[j as int].output@,
                decreases j - i,
            {
                if instances[i].output == instances[j].output {
                    proof {
                        assert(0 <= (i as int) && (i as int) < (j as int)
                            && insts[i as int].output@ == insts[j as int].output@);
                        assert(first_dup_from(insts, j as int) == Some(insts[j as int].output@));
                    }
                    let dup = instances[j].output.clone();
                    proof {
                        assert(dup@ == insts[j as int].output@);
                        assert(first_dup(insts) == Some(dup@));
                    }
                    return Err(NetlistError::DuplicateOutput(dup));
                }
                i = i + 1;
            }
            j = j + 1;
        }
        Ok(Catalog { instances })
    }

    /// The instance that drives `name`, or `None` when no instance does.
    /// A miss is not an error here: the resolver reports it with the context
    /// of the instance that referenced the name.
    pub fn lookup<'a>(&'a self, name: &String) -> (r: Option<&'a Instance>)
        ensures
            match r {
                Some(inst) => find_inst(self@, name@) == Some(*inst),
                None => find_inst(self@, name@) is None,
            },
    {
        let mut i: usize = 0;
        while i < self.instances.len()
            invariant
                i <= self@.len(),
                forall|m: int| 0 <= m < i ==> self@[m].output@ != name@,
            decreases self@.len() - i,
        {
            if self.instances[i].output == *name {
                proof {
                    lemma_find_inst_at(self@, name@, i as int);
                }
                return Some(&self.instances[i]);
            }
            i = i + 1;
        }
        proof {
            crate::netlist::lemma_find_inst(self@, name@);
        }
        None
    }
}

/// When position `j` holds the first instance driving `name`, `find_inst`
/// returns that instance.
pub proof fn lemma_find_inst_at(insts: Seq<Instance>, name: Seq<char>, j: int)
    requires
        0 <= j < insts.len(),
        insts[j].output@ == name,
        forall|m: int| 0 <= m < j ==> insts[m].output@ != name,
    ensures
        find_inst(insts, name) == Some(insts[j]),
    decreases j,
{
    if j == 0 {
    } else {
        let rest = insts.drop_first();
        assert(forall|m: int| 0 <= m < j - 1 ==> rest[m] == insts[m + 1]);
        lemma_find_inst_at(rest, name, j - 1);
    }
}

} // verus!
