//! Procedure records and modules: ordered, uniquely named procedures under a path.

use vstd::prelude::*;

use crate::digest::Digest;
use crate::forest::{Forest, NodeId};

verus! {

/// A procedure: its name, the root of its body in a forest, and that root's digest.
#[derive(Debug, Clone, PartialEq, Eq)]
pub struct ProcedureInfo {
    pub name: String,
    pub body_node_id: NodeId,
    pub digest: Digest,
}

impl ProcedureInfo {
    /// A copy of this record.
    pub fn copy(&self) -> (r: ProcedureInfo)
        ensures
            r == *self,
    {
        ProcedureInfo { name: self.name.clone(), body_node_id: self.body_node_id, digest: self.digest }
    }
}

/// Binds `name` to the body rooted at `root`, with the digest that the forest
/// holds for that root.
pub fn define(forest: &Forest, name: String, root: NodeId) -> (r: ProcedureInfo)
    requires
        forest.wf(),
        forest.valid_id(root),
    ensures
        r.name == name,
        r.body_node_id == root,
        r.digest == forest.digest_at(root),
{
    ProcedureInfo { name, body_node_id: root, digest: forest.digest_of(root) }
}

/// Why a procedure could not be added to a module.
#[derive(Debug, Clone, PartialEq, Eq)]
pub enum ModuleError {
    /// The module already has a procedure of this name.
    DuplicateProcedureName { name: String },
}

/// Position `i` holds the first procedure named `name`.
pub open spec fn is_first_named(procs: Seq<ProcedureInfo>, name: Seq<char>, i: int) -> bool {
    &&& 0 <= i < procs.len()
    &&& procs[i].name@ == name
    &&& forall|j: int| 0 <= j < i ==> procs[j].name@ != name
}

/// The first procedure named `name`, if any.
pub open spec fn first_named(procs: Seq<ProcedureInfo>, name: Seq<char>) -> Option<ProcedureInfo> {
    if exists|i: int| is_first_named(procs, name, i) {
        Some(procs[choose|i: int| is_first_named(procs, name, i)])
    } else {
        None
    }
}

/// The digests of a sequence of procedures, in order.
pub open spec fn digests_of(procs: Seq<ProcedureInfo>) -> Seq<Digest> {
    procs.map_values(|p: ProcedureInfo| p.digest)
}

/// A module: a path and the procedures defined under it, in insertion order.
#[derive(Debug, Clone, PartialEq, Eq)]
pub struct ModuleInfo {
    path: String,
    procedures: Vec<ProcedureInfo>,
}

impl ModuleInfo {
    /// The module's path.
    pub closed spec fn path_view(&self) -> Seq<char> {
        self.path@
    }

    /// The module's procedures, in insertion order.
    pub closed spec fn procs(&self) -> Seq<ProcedureInfo> {
        self.procedures@
    }

    /// No two procedures share a name.
    pub open spec fn wf(&self) -> bool {
        forall|i: int, j: int|
            0 <= i < j < self.procs().len() ==> self.procs()[i].name@ != self.procs()[j].name@
    }

    pub open spec fn has_name(&self, name: Seq<char>) -> bool {
        exists|i: int| 0 <= i < self.procs().len() && self.procs()[i].name@ == name
    }

    /// The procedure at position `i`, if there is one.
    pub open spec fn proc_at(&self, i: int) -> Option<ProcedureInfo> {
        if 0 <= i < self.procs().len() {
            Some(self.procs()[i])
        } else {
            None
        }
    }

    /// The procedure named `name`, if there is one.
    pub open spec fn named(&self, name: Seq<char>) -> Option<ProcedureInfo> {
        first_named(self.procs(), name)
    }

    /// The module's content: the digests of its procedures, in order.
    pub open spec fn content(&self) -> Seq<Digest> {
        digests_of(self.procs())
    }

    /// Every procedure's body is a node below position `n`.
    pub open spec fn bodies_within(&self, n: nat) -> bool {
        forall|i: int| 0 <= i < self.procs().len() ==> (#[trigger] self.procs()[i]).body_node_id.0 < n
    }

    /// Every procedure's digest is the digest that `f` holds for its body.
    pub open spec fn bound_in(&self, f: Forest) -> bool {
        forall|i: int|
            0 <= i < self.procs().len() ==> (#[trigger] self.procs()[i]).digest == f.digest_at(
                self.procs()[i].body_node_id,
            )
    }

    /// `self` is `m` with each body `b` moved to `map[b]`.
    pub open spec fn moved_from(&self, m: ModuleInfo, map: Seq<NodeId>) -> bool {
        &&& self.path_view() == m.path_view()
        &&& self.procs().len() == m.procs().len()
        &&& forall|i: int|
            0 <= i < self.procs().len() ==> {
                &&& (#[trigger] self.procs()[i]).name == m.procs()[i].name
                &&& self.procs()[i].digest == m.procs()[i].digest
                &&& self.procs()[i].body_node_id == map[m.procs()[i].body_node_id.0 as int]
            }
    }

    /// A module at `path` with no procedures.
    pub fn new(path: String) -> (r: ModuleInfo)
        ensures
            r.path_view() == path@,
            r.procs() == Seq::<ProcedureInfo>::empty(),
            r.wf(),
    {
        ModuleInfo { path, procedures: Vec::new() }
    }

    /// Appends a procedure; fails, leaving the module as it was, when the
    /// module already has a procedure of that name.
    pub fn add_procedure(&mut self, name: String, body_node_id: NodeId, digest: Digest) -> (r: Result<
        (),
        ModuleError,
    >)
        requires
            old(self).wf(),
        ensures
            final(self).wf(),
            final(self).path_view() == old(self).path_view(),
            old(self).has_name(name@) ==> r == Err::<(), ModuleError>(
                ModuleError::DuplicateProcedureName { name },
            ) && final(self).procs() == old(self).procs(),
            !old(self).has_name(name@) ==> r is Ok && final(self).procs() == old(self).procs().push(
                ProcedureInfo { name, body_node_id, digest },
            ),
    {
        if self.position_of(&name).is_some() {
            return Err(ModuleError::DuplicateProcedureName { name });
        }
        let ghost prev = self.procs();
        self.procedures.push(ProcedureInfo { name, body_node_id, digest });
        proof {
            assert forall|i: int, j: int| 0 <= i < j < self.procs().len() implies self.procs()[i].name@
                != self.procs()[j].name@ by {
                if j == prev.len() {
                    assert(prev[i].name@ != name@);
                }
            }
        }
        Ok(())
    }

    /// The module's path.
    pub fn path(&self) -> (r: &String)
        ensures
            r@ == self.path_view(),
    {
        &self.path
    }

    /// The number of procedures.
    pub fn num_procedures(&self) -> (r: usize)
        ensures
            r == self.procs().len(),
    {
        self.procedures.len()
    }

    /// Whether every procedure's body is a node below position `n`.
    pub fn bodies_below(&self, n: usize) -> (r: bool)
        ensures
            r == self.bodies_within(n as nat),
    {
        let mut i: usize = 0;
        while i < self.procedures.len()
            invariant
                0 <= i <= self.procs().len(),
                forall|k: int| 0 <= k < i ==> (#[trigger] self.procs()[k]).body_node_id.0 < n,
            decreases self.procs().len() - i,
        {
            if self.procedures[i].body_node_id.0 >= n {
                return false;
            }
            i = i + 1;
        }
        true
    }

    /// This module with each body `b` moved to `map[b]`.
    pub fn move_bodies(&self, map: &Vec<NodeId>) -> (r: ModuleInfo)
        requires
            self.bodies_within(map@.len()),
        ensures
            r.moved_from(*self, map@),
            self.wf() ==> r.wf(),
    {
        let mut procedures: Vec<ProcedureInfo> = Vec::new();
        let mut i: usize = 0;
        while i < self.procedures.len()
            invariant
                self.bodies_within(map@.len()),
                0 <= i <= self.procs().len(),
                procedures@.len() == i,
                forall|k: int|
                    0 <= k < i ==> {
                        &&& (#[trigger] procedures@[k]).name == self.procs()[k].name
                        &&& procedures@[k].digest == self.procs()[k].digest
                        &&& procedures@[k].body_node_id == map@[self.procs()[k].body_node_id.0 as int]
                    },
            decreases self.procs().len() - i,
        {
            let p = &self.procedures[i];
            assert(self.procs()[i as int].body_node_id.0 < map@.len());
            procedures.push(ProcedureInfo { name: p.name.clone(), body_node_id: map[p.body_node_id.0], digest: p.digest });
            i = i + 1;
        }
        let r = ModuleInfo { path: self.path.clone(), procedures };
        assert(r.procs() == procedures@);
        r
    }

    /// The position of the first procedure named `name`, if any.
    fn position_of(&self, name: &String) -> (r: Option<usize>)
        ensures
            r is None <==> !self.has_name(name@),
            r matches Some(i) ==> is_first_named(self.procs(), name@, i as int),
    {
        let mut i: usize = 0;
        while i < self.procedures.len()
            invariant
                0 <= i <= self.procs().len(),
                forall|j: int| 0 <= j < i ==> self.procs()[j].name@ != name@,
            decreases self.procs().len() - i,
        {
            if self.procedures[i].name == *name {
                return Some(i);
            }
            i = i + 1;
        }
        None
    }

    /// The procedure at position `index`, if there is one.
    pub fn get_procedure_by_index(&self, index: usize) -> (r: Option<&ProcedureInfo>)
        ensures
            r is Some <==> index < self.procs().len(),
            r matches Some(p) ==> self.proc_at(index as int) == Some(*p),
    {
        if index < self.procedures.len() {
            Some(&self.procedures[index])
        } else {
            None
        }
    }

    /// The procedure named `name`, if there is one.
    pub fn get_procedure_by_name(&self, name: &String) -> (r: Option<&ProcedureInfo>)
        ensures
            r is Some <==> self.named(name@) is Some,
            r matches Some(p) ==> self.named(name@) == Some(*p),
    {
        match self.position_of(name) {
            Some(i) => {
                proof {
                    lemma_first_named_at(self.procs(), name@, i as int);
                }
                Some(&self.procedures[i])
            },
            None => {
                assert(!exists|i: int| is_first_named(self.procs(), name@, i));
                None
            },
        }
    }

    /// The digest of the procedure named `name`, if there is one.
    pub fn get_procedure_digest_by_name(&self, name: &String) -> (r: Option<Digest>)
        ensures
            r is Some <==> self.named(name@) is Some,
            r matches Some(d) ==> self.named(name@)->Some_0.digest == d,
    {
        match self.get_procedure_by_name(name) {
            Some(p) => Some(p.digest),
            None => None,
        }
    }

    /// The root of the body of the procedure named `name`, if there is one.
    pub fn get_procedure_body_id_by_name(&self, name: &String) -> (r: Option<NodeId>)
        ensures
            r is Some <==> self.named(name@) is Some,
            r matches Some(id) ==> self.named(name@)->Some_0.body_node_id == id,
    {
        match self.get_procedure_by_name(name) {
            Some(p) => Some(p.body_node_id),
            None => None,
        }
    }

    /// Each procedure with its position, in insertion order.
    pub fn procedures(&self) -> (r: Vec<(usize, ProcedureInfo)>)
        ensures
            r@.len() == self.procs().len(),
            forall|i: int| 0 <= i < r@.len() ==> #[trigger] r@[i] == (i as usize, self.procs()[i]),
    {
        let mut r: Vec<(usize, ProcedureInfo)> = Vec::new();
        let mut i: usize = 0;
        while i < self.procedures.len()
            invariant
                0 <= i <= self.procs().len(),
                r@.len() == i,
                forall|k: int| 0 <= k < i ==> #[trigger] r@[k] == (k as usize, self.procs()[k]),
            decreases self.procs().len() - i,
        {
            r.push((i, self.procedures[i].copy()));
            i = i + 1;
        }
        r
    }

    /// The digests of the procedures, in insertion order.
    pub fn procedure_digests(&self) -> (r: Vec<Digest>)
        ensures
            r@ == self.content(),
    {
        let mut r: Vec<Digest> = Vec::new();
        let mut i: usize = 0;
        while i < self.procedures.len()
            invariant
                0 <= i <= self.procs().len(),
                r@ == digests_of(self.procs().subrange(0, i as int)),
            decreases self.procs().len() - i,
        {
            r.push(self.procedures[i].digest);
            proof {
                assert(digests_of(self.procs().subrange(0, i + 1)) =~= digests_of(
                    self.procs().subrange(0, i as int),
                ).push(self.procs()[i as int].digest));
            }
            i = i + 1;
        }
        assert(self.procs().subrange(0, i as int) =~= self.procs());
        r
    }
}

/// The first procedure named `name` is the one at any position that is first
/// with that name.
proof fn lemma_first_named_at(procs: Seq<ProcedureInfo>, name: Seq<char>, i: int)
    requires
        is_first_named(procs, name, i),
    ensures
        first_named(procs, name) == Some(procs[i]),
{
    let k = choose|k: int| is_first_named(procs, name, k);
    assert(is_first_named(procs, name, k));
    if k < i {
        assert(procs[k].name@ != name);
    } else if i < k {
        assert(procs[i].name@ != name);
    }
}

/// Every procedure is found both at its position and under its name.
pub proof fn lemma_lookup_consistent(m: ModuleInfo, i: int)
    requires
        m.wf(),
        0 <= i < m.procs().len(),
    ensures
        m.proc_at(i) == Some(m.procs()[i]),
        m.named(m.procs()[i].name@) == Some(m.procs()[i]),
{
    let name = m.procs()[i].name@;
    assert forall|j: int| 0 <= j < i implies m.procs()[j].name@ != name by {}
    lemma_first_named_at(m.procs(), name, i);
}

/// A procedure record keeps its binding while the forest grows: the digest
/// it was defined with is still the digest of its root in any extension.
pub proof fn lemma_binding_survives_growth(f0: Forest, f1: Forest, p: ProcedureInfo)
    requires
        f0.valid_id(p.body_node_id),
        p.digest == f0.digest_at(p.body_node_id),
        Forest::extends(f1, f0),
    ensures
        f1.valid_id(p.body_node_id),
        p.digest == f1.digest_at(p.body_node_id),
{
    let n = f0.len_spec() as int;
    assert(f1.digests_view()[p.body_node_id.0 as int] == f1.digests_view().subrange(0, n)[p.body_node_id.0 as int]);
}

} // verus!
