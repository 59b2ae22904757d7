use miden_mast::forest::{Forest, NodeContent, NodeId};
use miden_mast::library::{Library, LibraryState, LinkError};
use miden_mast::module::{define, ModuleInfo};

fn s(x: &str) -> String {
    x.to_string()
}

fn module_of(f: &Forest, path: &str, procs: &[(&str, NodeId)]) -> ModuleInfo {
    let mut m = ModuleInfo::new(s(path));
    for (name, id) in procs {
        let p = define(f, s(name), *id);
        m.add_procedure(p.name, p.body_node_id, p.digest).unwrap();
    }
    m
}

fn sample() -> Library {
    let mut f = Forest::new();
    let a = f.intern(NodeContent::Block { ops: vec![1] });
    let b = f.intern(NodeContent::Block { ops: vec![2] });
    let j = f.intern(NodeContent::Join { first: a, second: b });
    let m1 = module_of(&f, "std::a", &[("one", a), ("seq", j)]);
    let m2 = module_of(&f, "std::b", &[("two", b)]);
    let mut lib = Library::new(f);
    lib.add_module(m1).unwrap();
    lib.add_module(m2).unwrap();
    lib
}

#[test]
fn resolve_needs_finalize() {
    let mut lib = sample();
    assert_eq!(lib.resolve(&s("std::a"), &s("one")), Err(LinkError::NotFinalized));
    assert_eq!(lib.finalize(), Ok(()));
    assert_eq!(lib.state(), LibraryState::Finalized);
    assert_eq!(lib.finalize(), Err(LinkError::NotOpen));
    let p = lib.resolve(&s("std::a"), &s("seq")).unwrap();
    assert_eq!(p.body_node_id, NodeId(2));
    assert_eq!(p.digest, lib.forest().digest_of(NodeId(2)));
    assert_eq!(
        lib.resolve(&s("std::c"), &s("one")),
        Err(LinkError::ModuleNotFound { path: s("std::c") })
    );
    assert_eq!(
        lib.resolve(&s("std::b"), &s("one")),
        Err(LinkError::ProcedureNotFound { path: s("std::b"), name: s("one") })
    );
}

#[test]
fn add_module_collision_and_duplicate() {
    let mut lib = sample();
    let f = lib.forest();
    let same = module_of(f, "std::b", &[("two", NodeId(1))]);
    let different = module_of(f, "std::b", &[("two", NodeId(0))]);
    assert_eq!(lib.add_module(same), Ok(()));
    assert_eq!(lib.modules().len(), 2);
    assert_eq!(
        lib.add_module(different),
        Err(LinkError::ModulePathCollision { path: s("std::b") })
    );
    assert_eq!(lib.modules().len(), 2);
    lib.finalize().unwrap();
    let late = module_of(lib.forest(), "std::z", &[]);
    assert_eq!(lib.add_module(late), Err(LinkError::NotOpen));
}

#[test]
fn merge_detects_collision() {
    let mut lib = sample();
    let mut g = Forest::new();
    let x = g.intern(NodeContent::Block { ops: vec![7] });
    let m = module_of(&g, "std::b", &[("two", x)]);
    let mut other = Library::new(g);
    other.add_module(m).unwrap();
    assert_eq!(lib.merge(&other), Err(LinkError::ModulePathCollision { path: s("std::b") }));
    assert_eq!(lib.modules().len(), 2);
    assert_eq!(lib.forest().len(), 3);
}

#[test]
fn merge_identical_module_yields_one() {
    let mut lib = sample();
    let mut g = Forest::new();
    let b = g.intern(NodeContent::Block { ops: vec![2] });
    let c = g.intern(NodeContent::Block { ops: vec![3] });
    let dup = module_of(&g, "std::b", &[("two", b)]);
    let fresh = module_of(&g, "std::c", &[("three", c)]);
    let mut other = Library::new(g);
    other.add_module(dup).unwrap();
    other.add_module(fresh).unwrap();
    assert_eq!(lib.merge(&other), Ok(()));
    assert_eq!(lib.modules().len(), 3);
    assert_eq!(lib.forest().len(), 4);
    lib.finalize().unwrap();
    let p = lib.resolve(&s("std::c"), &s("three")).unwrap();
    assert_eq!(p.body_node_id, NodeId(3));
    assert_eq!(lib.forest().get(p.body_node_id), &NodeContent::Block { ops: vec![3] });
    assert_eq!(lib.verify(), Ok(()));
}

#[test]
fn merge_into_closed_library_fails() {
    let mut lib = sample();
    lib.finalize().unwrap();
    let other = Library::new(Forest::new());
    assert_eq!(lib.merge(&other), Err(LinkError::NotOpen));
}

#[test]
fn verify_round_trip_and_tamper() {
    let mut lib = sample();
    assert_eq!(lib.verify(), Err(LinkError::NotFinalized));
    lib.finalize().unwrap();
    assert_eq!(lib.verify(), Ok(()));
    assert_eq!(lib.state(), LibraryState::Verified);

    let nodes = lib.forest().nodes().clone();
    let digests = lib.forest().digests().clone();
    let modules = lib.modules().clone();
    let forest = Forest::from_parts(nodes.clone(), digests.clone()).unwrap();
    let mut loaded = Library::from_parts(forest, modules.clone()).unwrap();
    assert_eq!(loaded.state(), LibraryState::Finalized);
    assert_eq!(loaded.verify(), Ok(()));

    let mut corrupt = nodes.clone();
    corrupt[1] = NodeContent::Block { ops: vec![3] };
    let forest = Forest::from_parts(corrupt, digests.clone()).unwrap();
    let mut tampered = Library::from_parts(forest, modules.clone()).unwrap();
    assert_eq!(
        tampered.verify(),
        Err(LinkError::IntegrityViolation { path: s("std::a"), name: s("seq") })
    );
    assert_eq!(tampered.state(), LibraryState::Finalized);
}

#[test]
fn from_parts_rejects_bad_modules() {
    let lib = sample();
    let f = lib.forest();
    let twice = vec![module_of(f, "p", &[]), module_of(f, "p", &[])];
    let copy = Forest::from_parts(f.nodes().clone(), f.digests().clone()).unwrap();
    assert!(Library::from_parts(copy, twice).is_none());
    let outside = vec![module_of(f, "q", &[]), {
        let mut m = ModuleInfo::new(s("r"));
        m.add_procedure(s("far"), NodeId(9), f.digest_of(NodeId(0))).unwrap();
        m
    }];
    let copy = Forest::from_parts(f.nodes().clone(), f.digests().clone()).unwrap();
    assert!(Library::from_parts(copy, outside).is_none());
}
