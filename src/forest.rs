//! The node forest: an append-only store of program nodes, deduplicated by digest.

use vstd::prelude::*;

use crate::digest::{
    hash_ops, merge_in_domain, rpo_hash_ops, rpo_merge_in_domain, zero_digest, Digest,
    CALL_DOMAIN, JOIN_DOMAIN, LOOP_DOMAIN, SPLIT_DOMAIN,
};

verus! {

/// The identifier of a node: its position in the forest that holds it.
#[derive(Debug, Clone, Copy, PartialEq, Eq, Structural)]
pub struct NodeId(pub usize);

/// The content of one node: a batch of operations, or a combinator over
/// earlier nodes, or a reference to a procedure known only by its digest.
#[derive(Debug, Clone, PartialEq, Eq)]
pub enum NodeContent {
    Block { ops: Vec<u8> },
    Join { first: NodeId, second: NodeId },
    Split { on_true: NodeId, on_false: NodeId },
    Loop { body: NodeId },
    Call { callee: NodeId },
    External { digest: Digest },
}

/// Every child of `c` is a node below position `n`.
pub open spec fn children_below(c: NodeContent, n: int) -> bool {
    match c {
        NodeContent::Block { .. } => true,
        NodeContent::Join { first, second } => first.0 < n && second.0 < n,
        NodeContent::Split { on_true, on_false } => on_true.0 < n && on_false.0 < n,
        NodeContent::Loop { body } => body.0 < n,
        NodeContent::Call { callee } => callee.0 < n,
        NodeContent::External { .. } => true,
    }
}

/// The digest of `c`, given the digests of the nodes that its children name:
/// a leaf hashes its operations, a combinator hashes its children's digests in
/// its own domain, and an external reference is the digest it refers to.
pub open spec fn content_digest(digests: Seq<Digest>, c: NodeContent) -> Digest {
    match c {
        NodeContent::Block { ops } => hash_ops(ops@),
        NodeContent::Join { first, second } => merge_in_domain(
            digests[first.0 as int],
            digests[second.0 as int],
            JOIN_DOMAIN,
        ),
        NodeContent::Split { on_true, on_false } => merge_in_domain(
            digests[on_true.0 as int],
            digests[on_false.0 as int],
            SPLIT_DOMAIN,
        ),
        NodeContent::Loop { body } => merge_in_domain(
            digests[body.0 as int],
            zero_digest(),
            LOOP_DOMAIN,
        ),
        NodeContent::Call { callee } => merge_in_domain(
            digests[callee.0 as int],
            zero_digest(),
            CALL_DOMAIN,
        ),
        NodeContent::External { digest } => digest,
    }
}

/// Nodes and digests that can make a forest: one digest per node, every child
/// names an earlier node (so the graph is acyclic), and no two nodes share a digest.
pub open spec fn parts_wf(nodes: Seq<NodeContent>, digests: Seq<Digest>) -> bool {
    &&& nodes.len() == digests.len()
    &&& forall|i: int| 0 <= i < nodes.len() ==> #[trigger] children_below(nodes[i], i)
    &&& forall|i: int, j: int| 0 <= i < j < digests.len() ==> digests[i] != digests[j]
}

/// Node `k` is a child of `c`.
pub open spec fn is_child(c: NodeContent, k: int) -> bool {
    match c {
        NodeContent::Join { first, second } => k == first.0 || k == second.0,
        NodeContent::Split { on_true, on_false } => k == on_true.0 || k == on_false.0,
        NodeContent::Loop { body } => k == body.0,
        NodeContent::Call { callee } => k == callee.0,
        _ => false,
    }
}

/// Whether every child of `c` is below position `n`.
pub fn children_are_below(c: &NodeContent, n: usize) -> (r: bool)
    ensures
        r == children_below(*c, n as int),
{
    match c {
        NodeContent::Block { .. } => true,
        NodeContent::Join { first, second } => first.0 < n && second.0 < n,
        NodeContent::Split { on_true, on_false } => on_true.0 < n && on_false.0 < n,
        NodeContent::Loop { body } => body.0 < n,
        NodeContent::Call { callee } => callee.0 < n,
        NodeContent::External { .. } => true,
    }
}

/// `r` is `c` with each child `k` replaced by `map[k]`.
pub open spec fn remapped(c: NodeContent, r: NodeContent, map: Seq<NodeId>) -> bool {
    match c {
        NodeContent::Block { ops } => r matches NodeContent::Block { ops: rops } && rops@ == ops@,
        NodeContent::Join { first, second } => r == NodeContent::Join {
            first: map[first.0 as int],
            second: map[second.0 as int],
        },
        NodeContent::Split { on_true, on_false } => r == NodeContent::Split {
            on_true: map[on_true.0 as int],
            on_false: map[on_false.0 as int],
        },
        NodeContent::Loop { body } => r == NodeContent::Loop { body: map[body.0 as int] },
        NodeContent::Call { callee } => r == NodeContent::Call { callee: map[callee.0 as int] },
        NodeContent::External { digest } => r == c,
    }
}

/// `c` with each child `k` replaced by `map[k]`.
fn remap(c: &NodeContent, map: &Vec<NodeId>) -> (r: NodeContent)
    requires
        children_below(*c, map@.len() as int),
    ensures
        remapped(*c, r, map@),
{
    match c {
        NodeContent::Block { ops } => {
            let mut copied: Vec<u8> = Vec::new();
            let mut i: usize = 0;
            while i < ops.len()
                invariant
                    0 <= i <= ops@.len(),
                    copied@ == ops@.subrange(0, i as int),
                decreases ops@.len() - i,
            {
                copied.push(ops[i]);
                i = i + 1;
            }
            assert(ops@.subrange(0, i as int) =~= ops@);
            NodeContent::Block { ops: copied }
        },
        NodeContent::Join { first, second } => NodeContent::Join {
            first: map[first.0],
            second: map[second.0],
        },
        NodeContent::Split { on_true, on_false } => NodeContent::Split {
            on_true: map[on_true.0],
            on_false: map[on_false.0],
        },
        NodeContent::Loop { body } => NodeContent::Loop { body: map[body.0] },
        NodeContent::Call { callee } => NodeContent::Call { callee: map[callee.0] },
        NodeContent::External { digest } => NodeContent::External { digest: *digest },
    }
}

/// Remapping children to nodes with the same digests keeps the digest.
proof fn lemma_remapped_digest(
    from: Seq<Digest>,
    to: Seq<Digest>,
    c: NodeContent,
    r: NodeContent,
    map: Seq<NodeId>,
)
    requires
        remapped(c, r, map),
        children_below(c, map.len() as int),
        forall|k: int|
            #![trigger map[k]]
            0 <= k < map.len() && is_child(c, k) ==> to[map[k].0 as int] == from[k],
    ensures
        content_digest(to, r) == content_digest(from, c),
{
    match c {
        NodeContent::Join { first, second } => {
            assert(is_child(c, first.0 as int) && is_child(c, second.0 as int));
            assert(to[map[first.0 as int].0 as int] == from[first.0 as int]);
            assert(to[map[second.0 as int].0 as int] == from[second.0 as int]);
        },
        NodeContent::Split { on_true, on_false } => {
            assert(is_child(c, on_true.0 as int) && is_child(c, on_false.0 as int));
            assert(to[map[on_true.0 as int].0 as int] == from[on_true.0 as int]);
            assert(to[map[on_false.0 as int].0 as int] == from[on_false.0 as int]);
        },
        NodeContent::Loop { body } => {
            assert(is_child(c, body.0 as int));
            assert(to[map[body.0 as int].0 as int] == from[body.0 as int]);
        },
        NodeContent::Call { callee } => {
            assert(is_child(c, callee.0 as int));
            assert(to[map[callee.0 as int].0 as int] == from[callee.0 as int]);
        },
        _ => {},
    }
}

/// A store of nodes with the digest of each, where position is identity.
pub struct Forest {
    nodes: Vec<NodeContent>,
    digests: Vec<Digest>,
}

impl Forest {
    /// The nodes, in the order in which they were added.
    pub closed spec fn nodes_view(&self) -> Seq<NodeContent> {
        self.nodes@
    }

    /// The stored digest of each node.
    pub closed spec fn digests_view(&self) -> Seq<Digest> {
        self.digests@
    }

    pub open spec fn len_spec(&self) -> nat {
        self.digests_view().len()
    }

    pub open spec fn valid_id(&self, id: NodeId) -> bool {
        id.0 < self.len_spec()
    }

    pub open spec fn digest_at(&self, id: NodeId) -> Digest {
        self.digests_view()[id.0 as int]
    }

    /// Structural well-formedness: see [`parts_wf`].
    pub open spec fn wf(&self) -> bool {
        parts_wf(self.nodes_view(), self.digests_view())
    }

    /// Every stored digest is the digest of its node's content.
    pub open spec fn sealed(&self) -> bool {
        forall|i: int|
            0 <= i < self.len_spec() ==> #[trigger] self.digests_view()[i] == content_digest(
                self.digests_view(),
                self.nodes_view()[i],
            )
    }

    /// Some node of the forest has digest `d`.
    pub open spec fn has_digest(&self, d: Digest) -> bool {
        exists|i: int| 0 <= i < self.len_spec() && self.digests_view()[i] == d
    }

    /// `next` is `prev` with zero or more nodes appended.
    pub open spec fn extends(next: Forest, prev: Forest) -> bool {
        &&& prev.len_spec() <= next.len_spec()
        &&& next.nodes_view().subrange(0, prev.len_spec() as int) == prev.nodes_view()
        &&& next.digests_view().subrange(0, prev.len_spec() as int) == prev.digests_view()
    }

    /// The outcome of interning `c` into `prev`: the node with that digest if
    /// there is one, with the forest unchanged, else a new node at the end.
    pub open spec fn interned(prev: Forest, next: Forest, c: NodeContent, r: NodeId) -> bool {
        let d = content_digest(prev.digests_view(), c);
        if prev.has_digest(d) {
            &&& next.nodes_view() == prev.nodes_view()
            &&& next.digests_view() == prev.digests_view()
            &&& r.0 < prev.len_spec()
            &&& prev.digests_view()[r.0 as int] == d
        } else {
            &&& next.nodes_view() == prev.nodes_view().push(c)
            &&& next.digests_view() == prev.digests_view().push(d)
            &&& r.0 == prev.len_spec()
        }
    }

    /// Node `i` and every node below it hold the digests of their contents.
    pub open spec fn node_sound(&self, i: int) -> bool
        decreases i,
    {
        if 0 <= i < self.len_spec() {
            &&& self.digests_view()[i] == content_digest(self.digests_view(), self.nodes_view()[i])
            &&& match self.nodes_view()[i] {
                NodeContent::Join { first, second } => first.0 < i && second.0 < i
                    && self.node_sound(first.0 as int) && self.node_sound(second.0 as int),
                NodeContent::Split { on_true, on_false } => on_true.0 < i && on_false.0 < i
                    && self.node_sound(on_true.0 as int) && self.node_sound(on_false.0 as int),
                NodeContent::Loop { body } => body.0 < i && self.node_sound(body.0 as int),
                NodeContent::Call { callee } => callee.0 < i && self.node_sound(callee.0 as int),
                _ => true,
            }
        } else {
            false
        }
    }

    /// An empty forest.
    pub fn new() -> (r: Forest)
        ensures
            r.wf(),
            r.sealed(),
            r.len_spec() == 0,
    {
        Forest { nodes: Vec::new(), digests: Vec::new() }
    }

    /// The number of nodes.
    pub fn len(&self) -> (r: usize)
        requires
            self.wf(),
        ensures
            r == self.len_spec(),
    {
        self.digests.len()
    }

    /// Whether `id` names a node of this forest.
    pub fn contains(&self, id: NodeId) -> (r: bool)
        requires
            self.wf(),
        ensures
            r == self.valid_id(id),
    {
        id.0 < self.digests.len()
    }

    /// The content of node `id`.
    pub fn get(&self, id: NodeId) -> (r: &NodeContent)
        requires
            self.wf(),
            self.valid_id(id),
        ensures
            *r == self.nodes_view()[id.0 as int],
    {
        &self.nodes[id.0]
    }

    /// The digest of node `id`, as recorded when it was interned.
    pub fn digest_of(&self, id: NodeId) -> (r: Digest)
        requires
            self.wf(),
            self.valid_id(id),
        ensures
            r == self.digest_at(id),
    {
        self.digests[id.0]
    }

    /// The nodes, in order; with `digests` this is the forest's stored form.
    pub fn nodes(&self) -> (r: &Vec<NodeContent>)
        ensures
            r@ == self.nodes_view(),
    {
        &self.nodes
    }

    /// The stored digests, one per node.
    pub fn digests(&self) -> (r: &Vec<Digest>)
        ensures
            r@ == self.digests_view(),
    {
        &self.digests
    }

    /// The digest of `content`, whose children must be nodes of this forest.
    pub fn digest(&self, content: &NodeContent) -> (r: Digest)
        requires
            self.wf(),
            children_below(*content, self.len_spec() as int),
        ensures
            r == content_digest(self.digests_view(), *content),
    {
        match content {
            NodeContent::Block { ops } => rpo_hash_ops(ops),
            NodeContent::Join { first, second } => rpo_merge_in_domain(
                self.digests[first.0],
                self.digests[second.0],
                JOIN_DOMAIN,
            ),
            NodeContent::Split { on_true, on_false } => rpo_merge_in_domain(
                self.digests[on_true.0],
                self.digests[on_false.0],
                SPLIT_DOMAIN,
            ),
            NodeContent::Loop { body } => rpo_merge_in_domain(
                self.digests[body.0],
                Digest::zero(),
                LOOP_DOMAIN,
            ),
            NodeContent::Call { callee } => rpo_merge_in_domain(
                self.digests[callee.0],
                Digest::zero(),
                CALL_DOMAIN,
            ),
            NodeContent::External { digest } => *digest,
        }
    }

    /// The position of the node with digest `d`, if there is one.
    pub fn find_digest(&self, d: Digest) -> (r: Option<NodeId>)
        requires
            self.wf(),
        ensures
            r is None <==> !self.has_digest(d),
            r matches Some(id) ==> self.valid_id(id) && self.digest_at(id) == d,
    {
        let mut i: usize = 0;
        while i < self.digests.len()
            invariant
                self.wf(),
                0 <= i <= self.len_spec(),
                forall|k: int| 0 <= k < i ==> self.digests_view()[k] != d,
            decreases self.len_spec() - i,
        {
            if self.digests[i] == d {
                return Some(NodeId(i));
            }
            i = i + 1;
        }
        None
    }

    /// A forest from its stored form, if that form is well formed (see
    /// [`parts_wf`]). The digests are kept as given: [`Forest::sound_nodes`] checks them.
    pub fn from_parts(nodes: Vec<NodeContent>, digests: Vec<Digest>) -> (r: Option<Forest>)
        ensures
            r is Some <==> parts_wf(nodes@, digests@),
            r matches Some(f) ==> f.nodes_view() == nodes@ && f.digests_view() == digests@,
    {
        if nodes.len() != digests.len() {
            return None;
        }
        let mut i: usize = 0;
        while i < nodes.len()
            invariant
                0 <= i <= nodes@.len(),
                forall|k: int| 0 <= k < i ==> #[trigger] children_below(nodes@[k], k),
            decreases nodes@.len() - i,
        {
            if !children_are_below(&nodes[i], i) {
                return None;
            }
            i = i + 1;
        }
        let mut j: usize = 0;
        while j < digests.len()
            invariant
                0 <= j <= digests@.len(),
                forall|a: int, b: int| 0 <= a < b < j ==> digests@[a] != digests@[b],
            decreases digests@.len() - j,
        {
            let mut a: usize = 0;
            while a < j
                invariant
                    0 <= a <= j < digests@.len(),
                    forall|k: int| 0 <= k < a ==> digests@[k] != digests@[j as int],
                decreases j - a,
            {
                if digests[a] == digests[j] {
                    return None;
                }
                a = a + 1;
            }
            j = j + 1;
        }
        Some(Forest { nodes, digests })
    }

    /// For each node, whether it and every node below it hold the digests of
    /// their contents, recomputed here.
    pub fn sound_nodes(&self) -> (r: Vec<bool>)
        requires
            self.wf(),
        ensures
            r@.len() == self.len_spec(),
            forall|i: int| 0 <= i < self.len_spec() ==> r@[i] == self.node_sound(i),
    {
        let mut r: Vec<bool> = Vec::new();
        let mut i: usize = 0;
        while i < self.nodes.len()
            invariant
                self.wf(),
                0 <= i <= self.len_spec(),
                r@.len() == i,
                forall|k: int| 0 <= k < i ==> r@[k] == self.node_sound(k),
            decreases self.len_spec() - i,
        {
            let c = &self.nodes[i];
            assert(children_below(self.nodes_view()[i as int], i as int));
            let d = self.digest(c);
            let below = match c {
                NodeContent::Join { first, second } => r[first.0] && r[second.0],
                NodeContent::Split { on_true, on_false } => r[on_true.0] && r[on_false.0],
                NodeContent::Loop { body } => r[body.0],
                NodeContent::Call { callee } => r[callee.0],
                _ => true,
            };
            let ok = d == self.digests[i] && below;
            proof {
                let ii = i as int;
                assert(*c == self.nodes_view()[ii]);
                match self.nodes_view()[ii] {
                    NodeContent::Join { first, second } => {
                        assert(r@[first.0 as int] == self.node_sound(first.0 as int));
                        assert(r@[second.0 as int] == self.node_sound(second.0 as int));
                    },
                    NodeContent::Split { on_true, on_false } => {
                        assert(r@[on_true.0 as int] == self.node_sound(on_true.0 as int));
                        assert(r@[on_false.0 as int] == self.node_sound(on_false.0 as int));
                    },
                    NodeContent::Loop { body } => {
                        assert(r@[body.0 as int] == self.node_sound(body.0 as int));
                    },
                    NodeContent::Call { callee } => {
                        assert(r@[callee.0 as int] == self.node_sound(callee.0 as int));
                    },
                    _ => {},
                }
                assert(ok == self.node_sound(ii));
            }
            r.push(ok);
            i = i + 1;
        }
        r
    }

    /// Adds `content` unless a node with its digest is already here, and returns
    /// the id of the node with that digest.
    pub fn intern(&mut self, content: NodeContent) -> (r: NodeId)
        requires
            old(self).wf(),
            children_below(content, old(self).len_spec() as int),
            old(self).len_spec() < usize::MAX,
        ensures
            final(self).wf(),
            Forest::interned(*old(self), *final(self), content, r),
            final(self).digest_at(r) == content_digest(old(self).digests_view(), content),
            Forest::extends(*final(self), *old(self)),
            old(self).sealed() ==> final(self).sealed(),
            final(self).valid_id(r),
    {
        let d = self.digest(&content);
        match self.find_digest(d) {
            Some(id) => {
                assert(self.nodes_view().subrange(0, self.len_spec() as int) =~= self.nodes_view());
                assert(self.digests_view().subrange(0, self.len_spec() as int)
                    =~= self.digests_view());
                id
            },
            None => {
                let ghost prev = *self;
                let id = NodeId(self.digests.len());
                self.nodes.push(content);
                self.digests.push(d);
                proof {
                    assert(self.nodes_view().subrange(0, prev.len_spec() as int)
                        =~= prev.nodes_view());
                    assert(self.digests_view().subrange(0, prev.len_spec() as int)
                        =~= prev.digests_view());
                    assert forall|i: int| 0 <= i < self.len_spec() implies #[trigger] children_below(
                        self.nodes_view()[i],
                        i,
                    ) by {
                        if i < prev.len_spec() {
                            assert(children_below(prev.nodes_view()[i], i));
                        }
                    }
                    lemma_digest_of_prefix(prev.digests_view(), self.digests_view(), content);
                    if prev.sealed() {
                        assert forall|i: int| 0 <= i < self.len_spec() implies #[trigger] self.digests_view()[i]
                            == content_digest(self.digests_view(), self.nodes_view()[i]) by {
                            if i < prev.len_spec() {
                                assert(prev.digests_view()[i] == content_digest(
                                    prev.digests_view(),
                                    prev.nodes_view()[i],
                                ));
                                assert(children_below(prev.nodes_view()[i], i));
                                lemma_digest_of_prefix(
                                    prev.digests_view(),
                                    self.digests_view(),
                                    prev.nodes_view()[i],
                                );
                            }
                        }
                    }
                }
                id
            },
        }
    }
}

impl Forest {
    /// Interns every node of `other`, in order, and returns where each landed.
    pub fn import(&mut self, other: &Forest) -> (map: Vec<NodeId>)
        requires
            old(self).wf(),
            other.wf(),
            old(self).len_spec() + other.len_spec() < usize::MAX,
        ensures
            final(self).wf(),
            Forest::extends(*final(self), *old(self)),
            final(self).len_spec() <= old(self).len_spec() + other.len_spec(),
            old(self).sealed() ==> final(self).sealed(),
            map@.len() == other.len_spec(),
            forall|i: int| 0 <= i < map@.len() ==> #[trigger] final(self).valid_id(map@[i]),
            other.sealed() ==> forall|i: int|
                0 <= i < map@.len() ==> #[trigger] final(self).digest_at(map@[i])
                    == other.digests_view()[i],
    {
        let ghost start = *self;
        let mut map: Vec<NodeId> = Vec::new();
        let mut i: usize = 0;
        assert(self.nodes_view().subrange(0, self.len_spec() as int) =~= self.nodes_view());
        assert(self.digests_view().subrange(0, self.len_spec() as int) =~= self.digests_view());
        while i < other.nodes.len()
            invariant
                self.wf(),
                other.wf(),
                0 <= i <= other.len_spec(),
                map@.len() == i,
                start.len_spec() + other.len_spec() < usize::MAX,
                self.len_spec() <= start.len_spec() + i,
                Forest::extends(*self, start),
                start.sealed() ==> self.sealed(),
                forall|k: int| 0 <= k < i ==> #[trigger] self.valid_id(map@[k]),
                other.sealed() ==> forall|k: int|
                    0 <= k < i ==> #[trigger] self.digest_at(map@[k]) == other.digests_view()[k],
            decreases other.len_spec() - i,
        {
            assert(children_below(other.nodes_view()[i as int], i as int));
            let c = remap(&other.nodes[i], &map);
            assert(children_below(c, self.len_spec() as int)) by {
                match other.nodes_view()[i as int] {
                    NodeContent::Join { first, second } => {
                        assert(self.valid_id(map@[first.0 as int]));
                        assert(self.valid_id(map@[second.0 as int]));
                    },
                    NodeContent::Split { on_true, on_false } => {
                        assert(self.valid_id(map@[on_true.0 as int]));
                        assert(self.valid_id(map@[on_false.0 as int]));
                    },
                    NodeContent::Loop { body } => {
                        assert(self.valid_id(map@[body.0 as int]));
                    },
                    NodeContent::Call { callee } => {
                        assert(self.valid_id(map@[callee.0 as int]));
                    },
                    _ => {},
                }
            }
            let ghost before = *self;
            let id = self.intern(c);
            proof {
                if before.has_digest(content_digest(before.digests_view(), c)) {
                    assert(self.digest_at(id) == content_digest(before.digests_view(), c));
                } else {
                    assert(self.digests_view()[id.0 as int] == content_digest(before.digests_view(), c));
                }
                if other.sealed() {
                    let c0 = other.nodes_view()[i as int];
                    assert forall|k: int|
                        #![trigger map@[k]]
                        0 <= k < map@.len() && is_child(c0, k) implies before.digests_view()[map@[k].0 as int]
                        == other.digests_view()[k] by {
                        assert(before.digest_at(map@[k]) == other.digests_view()[k]);
                    }
                    lemma_remapped_digest(
                        other.digests_view(),
                        before.digests_view(),
                        other.nodes_view()[i as int],
                        c,
                        map@,
                    );
                    assert(other.digests_view()[i as int] == content_digest(
                        other.digests_view(),
                        other.nodes_view()[i as int],
                    ));
                }
                assert forall|k: int| 0 <= k < i implies #[trigger] self.valid_id(map@[k])
                    && (other.sealed() ==> self.digest_at(map@[k]) == other.digests_view()[k]) by {
                    assert(before.valid_id(map@[k]));
                    if other.sealed() {
                        assert(before.digest_at(map@[k]) == other.digests_view()[k]);
                    }
                    let n = before.len_spec() as int;
                    assert(self.digests_view()[map@[k].0 as int] == self.digests_view().subrange(0, n)[map@[k].0 as int]);
                }
                lemma_extends_trans(start, before, *self);
            }
            map.push(id);
            proof {
                assert forall|k: int| 0 <= k < i + 1 implies #[trigger] self.valid_id(map@[k])
                    && (other.sealed() ==> self.digest_at(map@[k]) == other.digests_view()[k]) by {
                    if k < i {
                        assert(map@[k] == map@.subrange(0, i as int)[k]);
                    } else {
                        assert(map@[k] == id);
                    }
                }
            }
            i = i + 1;
        }
        map
    }
}

proof fn lemma_extends_trans(a: Forest, b: Forest, c: Forest)
    requires
        a.wf(),
        b.wf(),
        c.wf(),
        Forest::extends(b, a),
        Forest::extends(c, b),
    ensures
        Forest::extends(c, a),
{
    let n = a.len_spec() as int;
    let m = b.len_spec() as int;
    assert(c.nodes_view().subrange(0, n) =~= c.nodes_view().subrange(0, m).subrange(0, n));
    assert(c.digests_view().subrange(0, n) =~= c.digests_view().subrange(0, m).subrange(0, n));
}

/// In a sealed forest every node is sound: each stored digest can be
/// recomputed from the nodes below it.
pub proof fn lemma_sealed_node_sound(f: Forest, i: int)
    requires
        f.wf(),
        f.sealed(),
        0 <= i < f.len_spec(),
    ensures
        f.node_sound(i),
    decreases i,
{
    assert(children_below(f.nodes_view()[i], i));
    assert(f.digests_view()[i] == content_digest(f.digests_view(), f.nodes_view()[i]));
    match f.nodes_view()[i] {
        NodeContent::Join { first, second } => {
            lemma_sealed_node_sound(f, first.0 as int);
            lemma_sealed_node_sound(f, second.0 as int);
        },
        NodeContent::Split { on_true, on_false } => {
            lemma_sealed_node_sound(f, on_true.0 as int);
            lemma_sealed_node_sound(f, on_false.0 as int);
        },
        NodeContent::Loop { body } => {
            lemma_sealed_node_sound(f, body.0 as int);
        },
        NodeContent::Call { callee } => {
            lemma_sealed_node_sound(f, callee.0 as int);
        },
        _ => {},
    }
}

/// The digest of a content is fixed by the content itself and the digests of
/// its children: two digest tables that agree on those give the same digest.
pub proof fn lemma_digest_deterministic(a: Seq<Digest>, b: Seq<Digest>, c: NodeContent)
    requires
        children_below(c, a.len() as int),
        children_below(c, b.len() as int),
        forall|k: int| #[trigger] is_child(c, k) ==> a[k] == b[k],
    ensures
        content_digest(a, c) == content_digest(b, c),
{
    match c {
        NodeContent::Join { first, second } => {
            assert(is_child(c, first.0 as int));
            assert(is_child(c, second.0 as int));
        },
        NodeContent::Split { on_true, on_false } => {
            assert(is_child(c, on_true.0 as int));
            assert(is_child(c, on_false.0 as int));
        },
        NodeContent::Loop { body } => {
            assert(is_child(c, body.0 as int));
        },
        NodeContent::Call { callee } => {
            assert(is_child(c, callee.0 as int));
        },
        _ => {},
    }
}

/// Interning the same content twice returns the same id, and the second call
/// leaves the forest as the first one left it.
pub proof fn lemma_intern_idempotent(
    f0: Forest,
    f1: Forest,
    f2: Forest,
    c: NodeContent,
    r1: NodeId,
    r2: NodeId,
)
    requires
        f0.wf(),
        f1.wf(),
        children_below(c, f0.len_spec() as int),
        Forest::interned(f0, f1, c, r1),
        Forest::interned(f1, f2, c, r2),
    ensures
        r1 == r2,
        f2.nodes_view() == f1.nodes_view(),
        f2.digests_view() == f1.digests_view(),
{
    let d = content_digest(f0.digests_view(), c);
    if !f0.has_digest(d) {
        assert(f1.digests_view().subrange(0, f0.len_spec() as int) =~= f0.digests_view());
    } else {
        assert(f1.digests_view().subrange(0, f0.len_spec() as int) =~= f0.digests_view());
    }
    lemma_digest_of_prefix(f0.digests_view(), f1.digests_view(), c);
    assert(f1.digests_view()[r1.0 as int] == d);
    assert(f1.has_digest(d));
}

/// A content's digest reads only the digests of its children, so a longer
/// table that agrees on the shorter one's positions gives the same digest.
proof fn lemma_digest_of_prefix(short: Seq<Digest>, long: Seq<Digest>, c: NodeContent)
    requires
        short.len() <= long.len(),
        long.subrange(0, short.len() as int) == short,
        children_below(c, short.len() as int),
    ensures
        content_digest(long, c) == content_digest(short, c),
{
    match c {
        NodeContent::Join { first, second } => {
            assert(long[first.0 as int] == long.subrange(0, short.len() as int)[first.0 as int]);
            assert(long[second.0 as int] == long.subrange(0, short.len() as int)[second.0 as int]);
        },
        NodeContent::Split { on_true, on_false } => {
            assert(long[on_true.0 as int] == long.subrange(0, short.len() as int)[on_true.0 as int]);
            assert(long[on_false.0 as int] == long.subrange(0, short.len() as int)[on_false.0 as int]);
        },
        NodeContent::Loop { body } => {
            assert(long[body.0 as int] == long.subrange(0, short.len() as int)[body.0 as int]);
        },
        NodeContent::Call { callee } => {
            assert(long[callee.0 as int] == long.subrange(0, short.len() as int)[callee.0 as int]);
        },
        _ => {},
    }
}

} // verus!
