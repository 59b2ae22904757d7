//! Libraries: modules over one forest, with resolution, merging and an
//! integrity check of every stored digest.

use vstd::prelude::*;

use crate::digest::Digest;
use crate::forest::{lemma_sealed_node_sound, Forest};
use crate::module::{ModuleInfo, ProcedureInfo};

verus! {

/// Where a library stands in its life: modules are added while it is open;
/// once finalized it can be resolved against and verified.
#[derive(Debug, Clone, Copy, PartialEq, Eq, Structural)]
pub enum LibraryState {
    Open,
    Finalized,
    Verified,
}

/// Why a library operation failed.
#[derive(Debug, Clone, PartialEq, Eq)]
pub enum LinkError {
    /// No module has this path.
    ModuleNotFound { path: String },
    /// The module exists but has no procedure of this name.
    ProcedureNotFound { path: String, name: String },
    /// Two modules at this path have different contents.
    ModulePathCollision { path: String },
    /// The procedure's digest cannot be recomputed from its body.
    IntegrityViolation { path: String, name: String },
    /// The library no longer accepts modules.
    NotOpen,
    /// The library has not been finalized yet.
    NotFinalized,
}

/// Module paths in `mods` are pairwise distinct.
pub open spec fn paths_unique(mods: Seq<ModuleInfo>) -> bool {
    forall|i: int, j: int| 0 <= i < j < mods.len() ==> mods[i].path_view() != mods[j].path_view()
}

/// Some module of `mods` has path `path`.
pub open spec fn has_path(mods: Seq<ModuleInfo>, path: Seq<char>) -> bool {
    exists|i: int| 0 <= i < mods.len() && mods[i].path_view() == path
}

/// The module of `mods` at `path` (meaningful when there is one).
pub open spec fn module_at(mods: Seq<ModuleInfo>, path: Seq<char>) -> ModuleInfo {
    mods[choose|i: int| 0 <= i < mods.len() && mods[i].path_view() == path]
}

/// `m` claims a path that `mods` already holds with a different content.
pub open spec fn collides(mods: Seq<ModuleInfo>, m: ModuleInfo) -> bool {
    has_path(mods, m.path_view()) && module_at(mods, m.path_view()).content() != m.content()
}

/// Whether two digest sequences are equal.
fn same_digests(a: &Vec<Digest>, b: &Vec<Digest>) -> (r: bool)
    ensures
        r == (a@ == b@),
{
    if a.len() != b.len() {
        return false;
    }
    let mut i: usize = 0;
    while i < a.len()
        invariant
            a@.len() == b@.len(),
            0 <= i <= a@.len(),
            forall|k: int| 0 <= k < i ==> a@[k] == b@[k],
        decreases a@.len() - i,
    {
        if a[i] != b[i] {
            return false;
        }
        i = i + 1;
    }
    assert(a@ =~= b@);
    true
}

/// Some module of `other` collides with `mods`.
pub open spec fn any_collides(mods: Seq<ModuleInfo>, other: Seq<ModuleInfo>) -> bool {
    exists|j: int| 0 <= j < other.len() && #[trigger] collides(mods, other[j])
}

/// Two modules with the same path, and the same names and digests in order.
pub open spec fn same_surface(a: ModuleInfo, b: ModuleInfo) -> bool {
    &&& a.path_view() == b.path_view()
    &&& a.procs().len() == b.procs().len()
    &&& forall|k: int|
        0 <= k < a.procs().len() ==> (#[trigger] a.procs()[k]).name == b.procs()[k].name
            && a.procs()[k].digest == b.procs()[k].digest
}

/// A named set of modules over one forest.
pub struct Library {
    forest: Forest,
    modules: Vec<ModuleInfo>,
    state: LibraryState,
}

impl Library {
    pub closed spec fn forest_view(&self) -> Forest {
        self.forest
    }

    pub closed spec fn modules_view(&self) -> Seq<ModuleInfo> {
        self.modules@
    }

    pub closed spec fn state_view(&self) -> LibraryState {
        self.state
    }

    /// The forest is well formed, every module is, module paths are unique,
    /// every body is a node of the forest, and a verified library is sound.
    pub open spec fn wf(&self) -> bool {
        &&& self.forest_view().wf()
        &&& self.state_view() == LibraryState::Verified ==> self.all_sound()
        &&& paths_unique(self.modules_view())
        &&& forall|i: int|
            0 <= i < self.modules_view().len() ==> {
                &&& (#[trigger] self.modules_view()[i]).wf()
                &&& self.modules_view()[i].bodies_within(self.forest_view().len_spec())
            }
    }

    /// Every record's digest is the digest the forest holds for its body.
    pub open spec fn bound(&self) -> bool {
        forall|i: int|
            0 <= i < self.modules_view().len() ==> (#[trigger] self.modules_view()[i]).bound_in(
                self.forest_view(),
            )
    }

    /// Procedure `k` of module `i` has a sound body whose digest it records.
    pub open spec fn record_sound(&self, i: int, k: int) -> bool {
        let p = self.modules_view()[i].procs()[k];
        self.forest_view().node_sound(p.body_node_id.0 as int) && p.digest == self.forest_view().digest_at(
            p.body_node_id,
        )
    }

    /// Every record before procedure `k` of module `i`, in module order and
    /// then procedure order, is sound.
    pub open spec fn sound_before(&self, i: int, k: int) -> bool {
        &&& forall|a: int, b: int|
            0 <= a < i && 0 <= b < self.modules_view()[a].procs().len() ==> #[trigger] self.record_sound(a, b)
        &&& forall|b: int| 0 <= b < k ==> #[trigger] self.record_sound(i, b)
    }

    /// Every record of every module is sound.
    pub open spec fn all_sound(&self) -> bool {
        forall|i: int, k: int|
            0 <= i < self.modules_view().len() && 0 <= k < self.modules_view()[i].procs().len()
                ==> #[trigger] self.record_sound(i, k)
    }

    /// An open library with no modules over `forest`.
    pub fn new(forest: Forest) -> (r: Library)
        requires
            forest.wf(),
        ensures
            r.wf(),
            r.bound(),
            r.forest_view() == forest,
            r.modules_view() == Seq::<ModuleInfo>::empty(),
            r.state_view() == LibraryState::Open,
    {
        Library { forest, modules: Vec::new(), state: LibraryState::Open }
    }

    /// A finalized library from its stored form, if the modules have unique
    /// paths, unique procedure names and bodies in the forest. Nothing is
    /// trusted about the digests: [`Library::verify`] checks them.
    pub fn from_parts(forest: Forest, modules: Vec<ModuleInfo>) -> (r: Option<Library>)
        requires
            forest.wf(),
            forall|i: int| 0 <= i < modules@.len() ==> (#[trigger] modules@[i]).wf(),
        ensures
            r is Some <==> paths_unique(modules@) && forall|i: int|
                0 <= i < modules@.len() ==> (#[trigger] modules@[i]).bodies_within(forest.len_spec()),
            r matches Some(l) ==> l.wf() && l.forest_view() == forest && l.modules_view() == modules@
                && l.state_view() == LibraryState::Finalized,
    {
        let mut i: usize = 0;
        while i < modules.len()
            invariant
                forest.wf(),
                0 <= i <= modules@.len(),
                paths_unique(modules@.subrange(0, i as int)),
                forall|k: int| 0 <= k < i ==> (#[trigger] modules@[k]).bodies_within(forest.len_spec()),
            decreases modules@.len() - i,
        {
            if !modules[i].bodies_below(forest.len()) {
                return None;
            }
            let mut j: usize = 0;
            while j < i
                invariant
                    0 <= j <= i < modules@.len(),
                    forall|k: int| 0 <= k < j ==> modules@[k].path_view() != modules@[i as int].path_view(),
                decreases i - j,
            {
                if *modules[j].path() == *modules[i].path() {
                    assert(!paths_unique(modules@)) by {
                        assert(modules@[j as int].path_view() == modules@[i as int].path_view());
                    }
                    return None;
                }
                j = j + 1;
            }
            proof {
                let s = modules@.subrange(0, i + 1);
                assert forall|a: int, b: int| 0 <= a < b < s.len() implies s[a].path_view() != s[b].path_view() by {
                    if b < i {
                        assert(modules@.subrange(0, i as int)[a] == s[a]);
                        assert(modules@.subrange(0, i as int)[b] == s[b]);
                    }
                }
            }
            i = i + 1;
        }
        assert(modules@.subrange(0, i as int) =~= modules@);
        Some(Library { forest, modules, state: LibraryState::Finalized })
    }

    /// The forest.
    pub fn forest(&self) -> (r: &Forest)
        ensures
            *r == self.forest_view(),
    {
        &self.forest
    }

    /// The modules, in the order they were added.
    pub fn modules(&self) -> (r: &Vec<ModuleInfo>)
        ensures
            r@ == self.modules_view(),
    {
        &self.modules
    }

    /// The library's state.
    pub fn state(&self) -> (r: LibraryState)
        ensures
            r == self.state_view(),
    {
        self.state
    }

    /// Adds `module`. A module whose path is already here with the same
    /// content is a harmless duplicate and changes nothing; one with another
    /// content fails with `ModulePathCollision`.
    pub fn add_module(&mut self, module: ModuleInfo) -> (r: Result<(), LinkError>)
        requires
            old(self).wf(),
            module.wf(),
            module.bodies_within(old(self).forest_view().len_spec()),
        ensures
            final(self).wf(),
            final(self).forest_view() == old(self).forest_view(),
            final(self).state_view() == old(self).state_view(),
            old(self).state_view() != LibraryState::Open ==> r == Err::<(), LinkError>(LinkError::NotOpen)
                && final(self).modules_view() == old(self).modules_view(),
            old(self).state_view() == LibraryState::Open && collides(old(self).modules_view(), module)
                ==> (r matches Err(LinkError::ModulePathCollision { path }) && path@ == module.path_view())
                && final(self).modules_view() == old(self).modules_view(),
            old(self).state_view() == LibraryState::Open && !collides(old(self).modules_view(), module)
                && has_path(old(self).modules_view(), module.path_view()) ==> r is Ok
                && final(self).modules_view() == old(self).modules_view(),
            old(self).state_view() == LibraryState::Open && !has_path(old(self).modules_view(), module.path_view())
                ==> r is Ok && final(self).modules_view() == old(self).modules_view().push(module),
            old(self).bound() && module.bound_in(old(self).forest_view()) ==> final(self).bound(),
    {
        if self.state != LibraryState::Open {
            return Err(LinkError::NotOpen);
        }
        assert(self.modules_view().subrange(0, self.modules_view().len() as int) =~= self.modules_view());
        match self.find_module(module.path(), self.modules.len()) {
            Some(i) => {
                proof {
                    lemma_module_at(self.modules_view(), i as int);
                }
                let existing = self.modules[i].procedure_digests();
                let incoming = module.procedure_digests();
                if same_digests(&existing, &incoming) {
                    Ok(())
                } else {
                    Err(LinkError::ModulePathCollision { path: module.path().clone() })
                }
            },
            None => {
                let ghost prev = self.modules_view();
                self.modules.push(module);
                proof {
                    assert forall|a: int, b: int| 0 <= a < b < self.modules_view().len() implies
                        self.modules_view()[a].path_view() != self.modules_view()[b].path_view() by {
                        if b == prev.len() {
                            assert(prev[a].path_view() != module.path_view());
                        }
                    }
                }
                Ok(())
            },
        }
    }

    /// Closes the library to new modules.
    pub fn finalize(&mut self) -> (r: Result<(), LinkError>)
        ensures
            final(self).forest_view() == old(self).forest_view(),
            final(self).modules_view() == old(self).modules_view(),
            old(self).state_view() == LibraryState::Open ==> r is Ok && final(self).state_view()
                == LibraryState::Finalized,
            old(self).state_view() != LibraryState::Open ==> r == Err::<(), LinkError>(LinkError::NotOpen)
                && final(self).state_view() == old(self).state_view(),
    {
        if self.state != LibraryState::Open {
            return Err(LinkError::NotOpen);
        }
        self.state = LibraryState::Finalized;
        Ok(())
    }

    /// The record of procedure `name` in the module at `path`.
    pub fn resolve(&self, path: &String, name: &String) -> (r: Result<ProcedureInfo, LinkError>)
        requires
            self.wf(),
        ensures
            self.state_view() == LibraryState::Open ==> r == Err::<ProcedureInfo, LinkError>(LinkError::NotFinalized),
            self.state_view() != LibraryState::Open && !has_path(self.modules_view(), path@) ==> (r matches Err(
                LinkError::ModuleNotFound { path: p },
            ) && p@ == path@),
            self.state_view() != LibraryState::Open && has_path(self.modules_view(), path@)
                && module_at(self.modules_view(), path@).named(name@) is None ==> (r matches Err(
                LinkError::ProcedureNotFound { path: p, name: n },
            ) && p@ == path@ && n@ == name@),
            self.state_view() != LibraryState::Open && has_path(self.modules_view(), path@)
                && module_at(self.modules_view(), path@).named(name@) is Some ==> r == Ok::<ProcedureInfo, LinkError>(
                module_at(self.modules_view(), path@).named(name@)->Some_0,
            ),
    {
        if self.state == LibraryState::Open {
            return Err(LinkError::NotFinalized);
        }
        assert(self.modules_view().subrange(0, self.modules_view().len() as int) =~= self.modules_view());
        match self.find_module(path, self.modules.len()) {
            None => Err(LinkError::ModuleNotFound { path: path.clone() }),
            Some(i) => {
                proof {
                    lemma_module_at(self.modules_view(), i as int);
                }
                match self.modules[i].get_procedure_by_name(name) {
                    Some(p) => Ok(p.copy()),
                    None => Err(LinkError::ProcedureNotFound { path: path.clone(), name: name.clone() }),
                }
            },
        }
    }

    /// Recomputes the digest of every node below every procedure and compares
    /// each procedure's digest with its body's. On success the library is
    /// verified; otherwise the error names an offending procedure.
    pub fn verify(&mut self) -> (r: Result<(), LinkError>)
        requires
            old(self).wf(),
        ensures
            final(self).wf(),
            final(self).forest_view() == old(self).forest_view(),
            final(self).modules_view() == old(self).modules_view(),
            old(self).state_view() == LibraryState::Open ==> r == Err::<(), LinkError>(LinkError::NotFinalized)
                && final(self).state_view() == old(self).state_view(),
            old(self).state_view() != LibraryState::Open ==> (r is Ok <==> old(self).all_sound()),
            old(self).state_view() != LibraryState::Open && r is Ok ==> final(self).state_view()
                == LibraryState::Verified,
            r is Err ==> final(self).state_view() == old(self).state_view(),
            old(self).state_view() != LibraryState::Open && r is Err ==> (r matches Err(
                LinkError::IntegrityViolation { path, name },
            ) && exists|i: int, k: int|
                0 <= i < old(self).modules_view().len() && 0 <= k < old(self).modules_view()[i].procs().len()
                    && !old(self).record_sound(i, k) && old(self).modules_view()[i].path_view() == path@
                    && old(self).modules_view()[i].procs()[k].name@ == name@ && old(self).sound_before(i, k)),
    {
        if self.state == LibraryState::Open {
            return Err(LinkError::NotFinalized);
        }
        let sound = self.forest.sound_nodes();
        let mut i: usize = 0;
        while i < self.modules.len()
            invariant
                self.wf(),
                self.state_view() != LibraryState::Open,
                sound@.len() == self.forest_view().len_spec(),
                forall|n: int| 0 <= n < sound@.len() ==> sound@[n] == self.forest_view().node_sound(n),
                0 <= i <= self.modules_view().len(),
                forall|a: int, k: int|
                    0 <= a < i && 0 <= k < self.modules_view()[a].procs().len() ==> #[trigger] self.record_sound(a, k),
            decreases self.modules_view().len() - i,
        {
            let m = &self.modules[i];
            let procs = m.procedures();
            let mut k: usize = 0;
            while k < procs.len()
                invariant
                    self.wf(),
                    self.state_view() != LibraryState::Open,
                    *m == self.modules_view()[i as int],
                    0 <= i < self.modules_view().len(),
                    sound@.len() == self.forest_view().len_spec(),
                    forall|n: int| 0 <= n < sound@.len() ==> sound@[n] == self.forest_view().node_sound(n),
                    procs@.len() == m.procs().len(),
                    forall|j: int| 0 <= j < procs@.len() ==> #[trigger] procs@[j] == (j as usize, m.procs()[j]),
                    0 <= k <= procs@.len(),
                    forall|a: int, b: int|
                        0 <= a < i && 0 <= b < self.modules_view()[a].procs().len() ==> #[trigger] self.record_sound(a, b),
                    forall|j: int| 0 <= j < k ==> #[trigger] self.record_sound(i as int, j),
                decreases procs@.len() - k,
            {
                let p = &procs[k].1;
                assert(procs@[k as int] == (k as usize, m.procs()[k as int]));
                assert(m.bodies_within(self.forest_view().len_spec()));
                assert(m.procs()[k as int].body_node_id.0 < self.forest_view().len_spec());
                let root = p.body_node_id;
                if !sound[root.0] || p.digest != self.forest.digest_of(root) {
                    assert(!self.record_sound(i as int, k as int));
                    assert(self.sound_before(i as int, k as int));
                    return Err(LinkError::IntegrityViolation { path: m.path().clone(), name: p.name.clone() });
                }
                k = k + 1;
            }
            i = i + 1;
        }
        let ghost pre = *self;
        self.state = LibraryState::Verified;
        assert forall|a: int, k: int|
            0 <= a < self.modules_view().len() && 0 <= k < self.modules_view()[a].procs().len() implies #[trigger] self.record_sound(a, k) by {
            assert(pre.record_sound(a, k));
        }
        Ok(())
    }

    /// Brings the modules of `other` in, with their bodies copied into this
    /// library's forest. A module whose path is already here with the same
    /// content is a duplicate and stays one module; a path held by both with
    /// different contents fails with `ModulePathCollision` and changes nothing.
    #[verifier::rlimit(50)]
    pub fn merge(&mut self, other: &Library) -> (r: Result<(), LinkError>)
        requires
            old(self).wf(),
            other.wf(),
            old(self).forest_view().len_spec() + other.forest_view().len_spec() < usize::MAX,
        ensures
            final(self).wf(),
            final(self).state_view() == old(self).state_view(),
            r is Err ==> final(self).forest_view() == old(self).forest_view() && final(self).modules_view()
                == old(self).modules_view(),
            old(self).state_view() != LibraryState::Open ==> r == Err::<(), LinkError>(LinkError::NotOpen),
            old(self).state_view() == LibraryState::Open && any_collides(old(self).modules_view(), other.modules_view())
                ==> (r matches Err(LinkError::ModulePathCollision { path }) && exists|j: int|
                0 <= j < other.modules_view().len() && other.modules_view()[j].path_view() == path@
                    && #[trigger] collides(old(self).modules_view(), other.modules_view()[j])),
            old(self).state_view() == LibraryState::Open && !any_collides(old(self).modules_view(), other.modules_view())
                ==> r is Ok,
            r is Ok ==> Forest::extends(final(self).forest_view(), old(self).forest_view()),
            r is Ok ==> final(self).modules_view().subrange(0, old(self).modules_view().len() as int)
                == old(self).modules_view(),
            r is Ok ==> forall|j: int|
                0 <= j < other.modules_view().len() ==> has_path(
                    final(self).modules_view(),
                    (#[trigger] other.modules_view()[j]).path_view(),
                ) && module_at(final(self).modules_view(), other.modules_view()[j].path_view()).content()
                    == other.modules_view()[j].content(),
            r is Ok ==> forall|i: int|
                old(self).modules_view().len() <= i < final(self).modules_view().len() ==> !has_path(
                    old(self).modules_view(),
                    (#[trigger] final(self).modules_view()[i]).path_view(),
                ) && exists|j: int|
                    0 <= j < other.modules_view().len() && same_surface(
                        final(self).modules_view()[i],
                        #[trigger] other.modules_view()[j],
                    ),
            r is Ok && old(self).forest_view().sealed() ==> final(self).forest_view().sealed(),
            r is Ok && old(self).bound() && other.bound() && other.forest_view().sealed() ==> final(self).bound(),
    {
        if self.state != LibraryState::Open {
            return Err(LinkError::NotOpen);
        }
        let n = self.modules.len();
        assert(self.modules_view().subrange(0, n as int) =~= self.modules_view());
        let mut j: usize = 0;
        while j < other.modules.len()
            invariant
                self.wf(),
                other.wf(),
                self.state_view() == LibraryState::Open,
                n == self.modules_view().len(),
                self.modules_view().subrange(0, n as int) == self.modules_view(),
                0 <= j <= other.modules_view().len(),
                forall|k: int| 0 <= k < j ==> !#[trigger] collides(self.modules_view(), other.modules_view()[k]),
            decreases other.modules_view().len() - j,
        {
            let incoming = &other.modules[j];
            match self.find_module(incoming.path(), n) {
                Some(i) => {
                    proof {
                        lemma_module_at(self.modules_view(), i as int);
                    }
                    let existing = self.modules[i].procedure_digests();
                    let digests = incoming.procedure_digests();
                    if !same_digests(&existing, &digests) {
                        assert(collides(self.modules_view(), other.modules_view()[j as int]));
                        return Err(LinkError::ModulePathCollision { path: incoming.path().clone() });
                    }
                },
                None => {},
            }
            j = j + 1;
        }
        let ghost start = *self;
        let map = self.forest.import(&other.forest);
        proof {
            assert forall|i: int| 0 <= i < self.modules_view().len() implies {
                &&& (#[trigger] self.modules_view()[i]).bodies_within(self.forest_view().len_spec())
                &&& start.bound() ==> self.modules_view()[i].bound_in(self.forest_view())
            } by {
                lemma_bound_extends(self.modules_view()[i], start.forest_view(), self.forest_view());
            }
        }
        let mut j: usize = 0;
        while j < other.modules.len()
            invariant
                self.wf(),
                other.wf(),
                self.state_view() == start.state_view(),
                start.state_view() == LibraryState::Open,
                n == start.modules_view().len(),
                n <= self.modules_view().len(),
                self.modules_view().subrange(0, n as int) == start.modules_view(),
                Forest::extends(self.forest_view(), start.forest_view()),
                start.forest_view().sealed() ==> self.forest_view().sealed(),
                map@.len() == other.forest_view().len_spec(),
                forall|b: int| 0 <= b < map@.len() ==> #[trigger] self.forest_view().valid_id(map@[b]),
                other.forest_view().sealed() ==> forall|b: int|
                    0 <= b < map@.len() ==> #[trigger] self.forest_view().digest_at(map@[b])
                        == other.forest_view().digests_view()[b],
                forall|k: int| 0 <= k < other.modules_view().len() ==> !#[trigger] collides(start.modules_view(), other.modules_view()[k]),
                0 <= j <= other.modules_view().len(),
                start.bound() && other.bound() && other.forest_view().sealed() ==> self.bound(),
                forall|k: int|
                    0 <= k < j ==> exists|i: int|
                        0 <= i < self.modules_view().len() && self.modules_view()[i].path_view()
                            == (#[trigger] other.modules_view()[k]).path_view()
                            && self.modules_view()[i].content() == other.modules_view()[k].content(),
                forall|i: int|
                    n <= i < self.modules_view().len() ==> !has_path(
                        start.modules_view(),
                        (#[trigger] self.modules_view()[i]).path_view(),
                    ) && exists|k: int|
                        0 <= k < j && same_surface(self.modules_view()[i], #[trigger] other.modules_view()[k]),
            decreases other.modules_view().len() - j,
        {
            let incoming = &other.modules[j];
            assert(incoming.bodies_within(other.forest_view().len_spec()));
            match self.find_module(incoming.path(), n) {
                Some(i) => {
                    proof {
                        assert(self.modules_view()[i as int] == start.modules_view()[i as int]);
                        lemma_module_at(start.modules_view(), i as int);
                        assert(!collides(start.modules_view(), other.modules_view()[j as int]));
                        assert forall|k: int| 0 <= k < j + 1 implies exists|i: int|
                            0 <= i < self.modules_view().len() && self.modules_view()[i].path_view()
                                == (#[trigger] other.modules_view()[k]).path_view()
                                && self.modules_view()[i].content() == other.modules_view()[k].content() by {
                            if k == j {
                                assert(self.modules_view()[i as int].path_view() == other.modules_view()[k].path_view());
                            }
                        }
                    }
                },
                None => {
                    assert(self.modules_view().subrange(0, n as int) == start.modules_view());
                    let moved = incoming.move_bodies(&map);
                    let ghost prev = *self;
                    proof {
                        assert(moved.bodies_within(self.forest_view().len_spec())) by {
                            assert forall|a: int| 0 <= a < moved.procs().len() implies (#[trigger] moved.procs()[a]).body_node_id.0
                                < self.forest_view().len_spec() by {
                                assert(incoming.procs()[a].body_node_id.0 < map@.len());
                                assert(self.forest_view().valid_id(map@[incoming.procs()[a].body_node_id.0 as int]));
                            }
                        }
                        if other.bound() && other.forest_view().sealed() {
                            assert forall|a: int| 0 <= a < moved.procs().len() implies (#[trigger] moved.procs()[a]).digest
                                == self.forest_view().digest_at(moved.procs()[a].body_node_id) by {
                                let b = incoming.procs()[a].body_node_id.0 as int;
                                assert(incoming.bound_in(other.forest_view()));
                                assert(incoming.procs()[a].digest == other.forest_view().digest_at(incoming.procs()[a].body_node_id));
                                assert(self.forest_view().digest_at(map@[b]) == other.forest_view().digests_view()[b]);
                            }
                        }
                        assert(moved.content() =~= incoming.content());
                        assert(same_surface(moved, other.modules_view()[j as int]));
                    }
                    self.modules.push(moved);
                    proof {
                        assert(self.modules_view().subrange(0, n as int) =~= prev.modules_view().subrange(0, n as int));
                        assert forall|a: int, b: int| 0 <= a < b < self.modules_view().len() implies
                            self.modules_view()[a].path_view() != self.modules_view()[b].path_view() by {
                            if b == prev.modules_view().len() {
                                if a < n {
                                    assert(prev.modules_view()[a] == start.modules_view()[a]);
                                    assert(!has_path(start.modules_view(), moved.path_view()));
                                } else {
                                    let k = choose|k: int| 0 <= k < j && same_surface(prev.modules_view()[a], #[trigger] other.modules_view()[k]);
                                    assert(other.modules_view()[k].path_view() != other.modules_view()[j as int].path_view());
                                }
                            }
                        }
                        assert(!has_path(start.modules_view(), moved.path_view())) by {
                            if has_path(start.modules_view(), moved.path_view()) {
                                let w = choose|w: int| 0 <= w < start.modules_view().len() && start.modules_view()[w].path_view() == moved.path_view();
                                assert(start.modules_view().subrange(0, n as int)[w] == start.modules_view()[w]);
                            }
                        }
                        assert forall|k: int| 0 <= k < j + 1 implies exists|i: int|
                            0 <= i < self.modules_view().len() && self.modules_view()[i].path_view()
                                == (#[trigger] other.modules_view()[k]).path_view()
                                && self.modules_view()[i].content() == other.modules_view()[k].content() by {
                            if k == j {
                                assert(self.modules_view()[prev.modules_view().len() as int] == moved);
                            } else {
                                let i = choose|i: int| 0 <= i < prev.modules_view().len() && prev.modules_view()[i].path_view()
                                    == other.modules_view()[k].path_view()
                                    && prev.modules_view()[i].content() == other.modules_view()[k].content();
                                assert(self.modules_view()[i] == prev.modules_view()[i]);
                            }
                        }
                        assert forall|i: int| n <= i < self.modules_view().len() implies !has_path(
                            start.modules_view(),
                            (#[trigger] self.modules_view()[i]).path_view(),
                        ) && exists|k: int| 0 <= k < j + 1 && same_surface(self.modules_view()[i], #[trigger] other.modules_view()[k]) by {
                            if i == prev.modules_view().len() {
                                assert(same_surface(self.modules_view()[i], other.modules_view()[j as int]));
                            } else {
                                assert(self.modules_view()[i] == prev.modules_view()[i]);
                                let k = choose|k: int| 0 <= k < j && same_surface(prev.modules_view()[i], #[trigger] other.modules_view()[k]);
                                assert(same_surface(self.modules_view()[i], other.modules_view()[k]));
                            }
                        }
                    }
                },
            }
            j = j + 1;
        }
        proof {
            assert forall|k: int| 0 <= k < other.modules_view().len() implies has_path(
                self.modules_view(),
                (#[trigger] other.modules_view()[k]).path_view(),
            ) && module_at(self.modules_view(), other.modules_view()[k].path_view()).content()
                == other.modules_view()[k].content() by {
                let i = choose|i: int| 0 <= i < self.modules_view().len() && self.modules_view()[i].path_view()
                    == other.modules_view()[k].path_view()
                    && self.modules_view()[i].content() == other.modules_view()[k].content();
                lemma_module_at(self.modules_view(), i);
            }
        }
        Ok(())
    }

    /// The position of the module at `path` among the first `n`, if any.
    fn find_module(&self, path: &String, n: usize) -> (r: Option<usize>)
        requires
            n <= self.modules_view().len(),
        ensures
            r is None <==> !has_path(self.modules_view().subrange(0, n as int), path@),
            r matches Some(i) ==> i < n && self.modules_view()[i as int].path_view() == path@,
    {
        let mut i: usize = 0;
        while i < n
            invariant
                n <= self.modules_view().len(),
                0 <= i <= n,
                forall|k: int| 0 <= k < i ==> self.modules_view()[k].path_view() != path@,
            decreases n - i,
        {
            if *self.modules[i].path() == *path {
                assert(self.modules_view().subrange(0, n as int)[i as int] == self.modules_view()[i as int]);
                return Some(i);
            }
            i = i + 1;
        }
        assert forall|k: int| 0 <= k < n implies self.modules_view().subrange(0, n as int)[k].path_view() != path@ by {
            assert(self.modules_view().subrange(0, n as int)[k] == self.modules_view()[k]);
        }
        None
    }
}

/// A library whose forest is sealed and whose records are bound passes the
/// integrity check: every record is sound.
pub proof fn lemma_sealed_library_sound(l: Library)
    requires
        l.wf(),
        l.forest_view().sealed(),
        l.bound(),
    ensures
        l.all_sound(),
{
    assert forall|i: int, k: int|
        0 <= i < l.modules_view().len() && 0 <= k < l.modules_view()[i].procs().len() implies #[trigger] l.record_sound(i, k) by {
        let m = l.modules_view()[i];
        assert(m.bodies_within(l.forest_view().len_spec()));
        assert(m.bound_in(l.forest_view()));
        assert(m.procs()[k].body_node_id.0 < l.forest_view().len_spec());
        lemma_sealed_node_sound(l.forest_view(), m.procs()[k].body_node_id.0 as int);
    }
}

/// A library holds at most one module at any path: after a merge, a path
/// that both sides declared with the same content is one module.
pub proof fn lemma_one_module_per_path(l: Library, i: int, j: int)
    requires
        l.wf(),
        0 <= i < l.modules_view().len(),
        0 <= j < l.modules_view().len(),
        l.modules_view()[i].path_view() == l.modules_view()[j].path_view(),
    ensures
        i == j,
{
    if i < j {
        assert(l.modules_view()[i].path_view() != l.modules_view()[j].path_view());
    } else if j < i {
        assert(l.modules_view()[j].path_view() != l.modules_view()[i].path_view());
    }
}

/// The stored form of a verified library passes the integrity check again
/// once reloaded: any library with the same forest and modules is sound.
pub proof fn lemma_verified_reload_sound(l: Library, loaded: Library)
    requires
        l.wf(),
        l.state_view() == LibraryState::Verified,
        loaded.forest_view() == l.forest_view(),
        loaded.modules_view() == l.modules_view(),
    ensures
        loaded.all_sound(),
{
    assert forall|i: int, k: int|
        0 <= i < loaded.modules_view().len() && 0 <= k < loaded.modules_view()[i].procs().len() implies #[trigger] loaded.record_sound(i, k) by {
        assert(l.record_sound(i, k));
    }
}

/// A module's bodies stay in range and its records stay bound as the forest grows.
proof fn lemma_bound_extends(m: ModuleInfo, f0: Forest, f1: Forest)
    requires
        f0.wf(),
        f1.wf(),
        Forest::extends(f1, f0),
        m.bodies_within(f0.len_spec()),
    ensures
        m.bodies_within(f1.len_spec()),
        m.bound_in(f0) ==> m.bound_in(f1),
{
    let n = f0.len_spec() as int;
    assert forall|i: int| 0 <= i < m.procs().len() implies f1.digest_at((#[trigger] m.procs()[i]).body_node_id)
        == f0.digest_at(m.procs()[i].body_node_id) by {
        let b = m.procs()[i].body_node_id.0 as int;
        assert(f1.digests_view().subrange(0, n)[b] == f1.digests_view()[b]);
    }
}

/// With unique paths, the module at a path is the one found there.
pub proof fn lemma_module_at(mods: Seq<ModuleInfo>, i: int)
    requires
        paths_unique(mods),
        0 <= i < mods.len(),
    ensures
        has_path(mods, mods[i].path_view()),
        module_at(mods, mods[i].path_view()) == mods[i],
{
    let p = mods[i].path_view();
    assert(0 <= i < mods.len() && mods[i].path_view() == p);
    let k = choose|k: int| 0 <= k < mods.len() && mods[k].path_view() == p;
    if k != i {
        if k < i {
            assert(mods[k].path_view() != mods[i].path_view());
        } else {
            assert(mods[i].path_view() != mods[k].path_view());
        }
    }
}

} // verus!
