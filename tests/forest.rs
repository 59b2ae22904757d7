use miden_core::crypto::hash::{Rpo256, RpoDigest};
use miden_core::mast::MastForest;
use miden_core::Felt;
use miden_mast::digest::Digest;
use miden_mast::forest::{children_are_below, Forest, NodeContent, NodeId};

fn from_rpo(d: RpoDigest) -> Digest {
    let w: [u64; 4] = d.into();
    Digest { e0: w[0], e1: w[1], e2: w[2], e3: w[3] }
}

fn to_rpo(d: Digest) -> RpoDigest {
    RpoDigest::new([Felt::new(d.e0), Felt::new(d.e1), Felt::new(d.e2), Felt::new(d.e3)])
}

fn block(ops: &[u8]) -> NodeContent {
    NodeContent::Block { ops: ops.to_vec() }
}

fn external(seed: u64) -> Digest {
    Digest { e0: seed, e1: seed + 1, e2: seed + 2, e3: seed + 3 }
}

#[test]
fn digest_is_deterministic() {
    let mut f1 = Forest::new();
    let mut f2 = Forest::new();
    let c = block(&[1, 2, 3]);
    assert_eq!(f1.digest(&c), f1.digest(&c));
    assert_eq!(f1.digest(&c), f2.digest(&c));
    let a1 = f1.intern(block(&[1]));
    let b1 = f1.intern(block(&[2]));
    f2.intern(block(&[9]));
    let a2 = f2.intern(block(&[1]));
    let b2 = f2.intern(block(&[2]));
    let j1 = f1.intern(NodeContent::Join { first: a1, second: b1 });
    let j2 = f2.intern(NodeContent::Join { first: a2, second: b2 });
    assert_ne!(j1, j2);
    assert_eq!(f1.digest_of(j1), f2.digest_of(j2));
}

#[test]
fn block_digest_is_rpo_hash_of_ops() {
    let f = Forest::new();
    let expected = Rpo256::hash_elements(&[Felt::from(7u8), Felt::from(200u8)]);
    assert_eq!(f.digest(&block(&[7, 200])), from_rpo(expected));
    let empty: [Felt; 0] = [];
    assert_eq!(f.digest(&block(&[])), from_rpo(Rpo256::hash_elements(&empty)));
    assert_ne!(f.digest(&block(&[0])), Digest { e0: 0, e1: 0, e2: 0, e3: 0 });
    assert_ne!(f.digest(&block(&[0])), f.digest(&block(&[0, 0])));
}

#[test]
fn combinator_digests_match_vm_nodes() {
    let (da, db) = (external(10), external(20));
    let mut ours = Forest::new();
    let a = ours.intern(NodeContent::External { digest: da });
    let b = ours.intern(NodeContent::External { digest: db });
    assert_eq!(ours.digest_of(a), da);
    let join = ours.intern(NodeContent::Join { first: a, second: b });
    let split = ours.intern(NodeContent::Split { on_true: a, on_false: b });
    let lp = ours.intern(NodeContent::Loop { body: a });
    let call = ours.intern(NodeContent::Call { callee: b });

    let mut vm = MastForest::new();
    let va = vm.add_external(to_rpo(da)).unwrap();
    let vb = vm.add_external(to_rpo(db)).unwrap();
    let vjoin = vm.add_join(va, vb).unwrap();
    let vsplit = vm.add_split(va, vb).unwrap();
    let vloop = vm.add_loop(va).unwrap();
    let vcall = vm.add_call(vb).unwrap();

    assert_eq!(ours.digest_of(join), from_rpo(vm[vjoin].digest()));
    assert_eq!(ours.digest_of(split), from_rpo(vm[vsplit].digest()));
    assert_eq!(ours.digest_of(lp), from_rpo(vm[vloop].digest()));
    assert_eq!(ours.digest_of(call), from_rpo(vm[vcall].digest()));
}

#[test]
fn intern_twice_returns_same_id() {
    let mut f = Forest::new();
    let a = f.intern(block(&[1, 2]));
    assert_eq!(f.len(), 1);
    let again = f.intern(block(&[1, 2]));
    assert_eq!(a, again);
    assert_eq!(f.len(), 1);
    let b = f.intern(block(&[3]));
    assert_eq!(b, NodeId(1));
    let s1 = f.intern(NodeContent::Join { first: a, second: b });
    let s2 = f.intern(NodeContent::Join { first: a, second: b });
    assert_eq!(s1, s2);
    assert_eq!(f.len(), 3);
    assert_eq!(f.get(s1), &NodeContent::Join { first: a, second: b });
}

#[test]
fn distinct_contents_have_distinct_digests() {
    let mut f = Forest::new();
    let a = f.intern(block(&[1]));
    let b = f.intern(block(&[2]));
    let contents = vec![
        block(&[]),
        block(&[1, 2]),
        block(&[2, 1]),
        NodeContent::Join { first: a, second: b },
        NodeContent::Join { first: b, second: a },
        NodeContent::Split { on_true: a, on_false: b },
        NodeContent::Split { on_true: b, on_false: a },
        NodeContent::Loop { body: a },
        NodeContent::Call { callee: a },
        NodeContent::External { digest: external(1) },
    ];
    let digests: Vec<Digest> = contents.iter().map(|c| f.digest(c)).collect();
    for i in 0..digests.len() {
        for j in (i + 1)..digests.len() {
            assert_ne!(digests[i], digests[j], "contents {} and {}", i, j);
        }
    }
    assert_ne!(f.digest_of(a), f.digest_of(b));
}

#[test]
fn equal_digest_external_dedups_with_its_target() {
    let mut f = Forest::new();
    let a = f.intern(block(&[4, 5]));
    let d = f.digest_of(a);
    let e = f.intern(NodeContent::External { digest: d });
    assert_eq!(e, a);
    assert_eq!(f.len(), 1);
}

#[test]
fn end_to_end_shared_sequence() {
    let mut f = Forest::new();
    let mut ids = Vec::new();
    for _module in 0..2 {
        let op_a = f.intern(block(&[1]));
        let op_b = f.intern(block(&[2]));
        ids.push(f.intern(NodeContent::Join { first: op_a, second: op_b }));
    }
    assert_eq!(ids[0], ids[1]);
    assert_eq!(f.len(), 3);
}

#[test]
fn from_parts_checks_structure() {
    let mut f = Forest::new();
    let a = f.intern(block(&[1]));
    let b = f.intern(block(&[2]));
    f.intern(NodeContent::Join { first: a, second: b });
    let copy = Forest::from_parts(f.nodes().clone(), f.digests().clone()).unwrap();
    assert_eq!(copy.len(), 3);
    assert_eq!(copy.sound_nodes(), vec![true, true, true]);

    let mut short = f.digests().clone();
    short.pop();
    assert!(Forest::from_parts(f.nodes().clone(), short).is_none());

    let forward = vec![NodeContent::Loop { body: NodeId(0) }];
    assert!(Forest::from_parts(forward, vec![external(1)]).is_none());

    let mut dup = f.digests().clone();
    dup[1] = dup[0];
    assert!(Forest::from_parts(f.nodes().clone(), dup).is_none());
}

#[test]
fn sound_nodes_flags_a_corrupt_node_and_its_parents() {
    let mut f = Forest::new();
    let a = f.intern(block(&[1]));
    let b = f.intern(block(&[2]));
    f.intern(NodeContent::Join { first: a, second: b });
    let c = f.intern(block(&[3]));
    let mut nodes = f.nodes().clone();
    nodes[0] = block(&[9]);
    let bad = Forest::from_parts(nodes, f.digests().clone()).unwrap();
    assert_eq!(bad.sound_nodes(), vec![false, true, false, true]);
    assert!(bad.contains(c));
    assert!(!bad.contains(NodeId(4)));
}

#[test]
fn import_keeps_digests_and_dedups() {
    let mut f = Forest::new();
    let a = f.intern(block(&[1]));
    let mut g = Forest::new();
    let gb = g.intern(block(&[2]));
    let ga = g.intern(block(&[1]));
    let gj = g.intern(NodeContent::Join { first: ga, second: gb });
    let map = f.import(&g);
    assert_eq!(map.len(), 3);
    assert_eq!(map[1], a);
    assert_eq!(f.len(), 3);
    for (i, id) in map.iter().enumerate() {
        assert_eq!(f.digest_of(*id), g.digest_of(NodeId(i)));
    }
    assert_eq!(f.get(map[2]), &NodeContent::Join { first: a, second: map[0] });
    assert_eq!(f.digest_of(map[2]), g.digest_of(gj));
}

#[test]
fn children_check() {
    assert!(children_are_below(&NodeContent::Join { first: NodeId(0), second: NodeId(1) }, 2));
    assert!(!children_are_below(&NodeContent::Join { first: NodeId(0), second: NodeId(2) }, 2));
    assert!(children_are_below(&block(&[1]), 0));
}
