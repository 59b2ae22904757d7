use miden_mast::digest::Digest;
use miden_mast::forest::{Forest, NodeContent, NodeId};
use miden_mast::module::{define, ModuleError, ModuleInfo};

fn forest_with_two() -> (Forest, NodeId, NodeId) {
    let mut f = Forest::new();
    let a = f.intern(NodeContent::Block { ops: vec![1, 2] });
    let b = f.intern(NodeContent::Block { ops: vec![3] });
    (f, a, b)
}

#[test]
fn define_binds_digest() {
    let (mut f, a, _) = forest_with_two();
    let p = define(&f, "foo".to_string(), a);
    assert_eq!(p.name, "foo");
    assert_eq!(p.body_node_id, a);
    assert_eq!(p.digest, f.digest_of(a));
    f.intern(NodeContent::Loop { body: a });
    assert_eq!(p.digest, f.digest_of(a));
}

#[test]
fn duplicate_name_is_rejected() {
    let (f, a, b) = forest_with_two();
    let mut m = ModuleInfo::new("std::math".to_string());
    assert_eq!(m.add_procedure("foo".to_string(), a, f.digest_of(a)), Ok(()));
    assert_eq!(m.num_procedures(), 1);
    let r = m.add_procedure("foo".to_string(), b, f.digest_of(b));
    assert_eq!(r, Err(ModuleError::DuplicateProcedureName { name: "foo".to_string() }));
    assert_eq!(m.num_procedures(), 1);
    assert_eq!(m.get_procedure_body_id_by_name(&"foo".to_string()), Some(a));
}

#[test]
fn lookups_agree() {
    let (f, a, b) = forest_with_two();
    let mut m = ModuleInfo::new("std::math".to_string());
    m.add_procedure("foo".to_string(), a, f.digest_of(a)).unwrap();
    m.add_procedure("bar".to_string(), b, f.digest_of(b)).unwrap();
    m.add_procedure("baz".to_string(), a, f.digest_of(a)).unwrap();
    assert_eq!(m.path(), "std::math");
    let procs = m.procedures();
    assert_eq!(procs.len(), 3);
    for (i, p) in &procs {
        assert_eq!(m.get_procedure_by_index(*i), Some(p));
        assert_eq!(m.get_procedure_by_name(&p.name), Some(p));
        assert_eq!(m.get_procedure_digest_by_name(&p.name), Some(p.digest));
        assert_eq!(m.get_procedure_body_id_by_name(&p.name), Some(p.body_node_id));
    }
    assert_eq!(procs[1].0, 1);
    assert_eq!(procs[1].1.name, "bar");
    assert!(m.get_procedure_by_index(3).is_none());
    assert!(m.get_procedure_by_name(&"qux".to_string()).is_none());
    assert!(m.get_procedure_digest_by_name(&"qux".to_string()).is_none());
    assert!(m.get_procedure_body_id_by_name(&"qux".to_string()).is_none());
    let digests: Vec<Digest> = m.procedure_digests();
    assert_eq!(digests, vec![f.digest_of(a), f.digest_of(b), f.digest_of(a)]);
}

#[test]
fn moved_bodies_keep_names_and_digests() {
    let (f, a, b) = forest_with_two();
    let mut m = ModuleInfo::new("m".to_string());
    m.add_procedure("x".to_string(), a, f.digest_of(a)).unwrap();
    m.add_procedure("y".to_string(), b, f.digest_of(b)).unwrap();
    assert!(m.bodies_below(2));
    assert!(!m.bodies_below(1));
    let moved = m.move_bodies(&vec![NodeId(5), NodeId(7)]);
    assert_eq!(moved.path(), "m");
    assert_eq!(moved.get_procedure_body_id_by_name(&"x".to_string()), Some(NodeId(5)));
    assert_eq!(moved.get_procedure_body_id_by_name(&"y".to_string()), Some(NodeId(7)));
    assert_eq!(moved.procedure_digests(), m.procedure_digests());
}
