//! The blocklist tree: patterns stored label by label, top-level label first.

use crate::filter::hasher::{BuildMurmur3Hasher, Murmur3Hasher};
use crate::text::{bytes_eq, copy_bytes, label_views};
use core::hash::{BuildHasher, Hasher};
use vstd::prelude::*;
use vstd::std_specs::cmp::PartialEqSpecImpl;

verus! {

/// The byte that stands for a wildcard label in a pattern.
pub const STAR: u8 = 42;

/// One position of a pattern: a label, or a wildcard. `blocking` says that a
/// name which ends at this label is blocked.
#[derive(Clone, Debug)]
pub enum Node {
    Domain { name: Vec<u8>, blocking: bool },
    Wildcard,
}

/// A node as a mathematical value.
pub enum NodeView {
    Domain { name: Seq<u8>, blocking: bool },
    Wildcard,
}

impl View for Node {
    type V = NodeView;

    open spec fn view(&self) -> NodeView {
        match self {
            Node::Domain { name, blocking } => NodeView::Domain {
                name: name@,
                blocking: *blocking,
            },
            Node::Wildcard => NodeView::Wildcard,
        }
    }
}

/// Two nodes stand for the same position: both wildcards, or labels of the
/// same name. Whether they block plays no part.
pub open spec fn same_key(a: NodeView, b: NodeView) -> bool {
    match (a, b) {
        (NodeView::Domain { name: x, .. }, NodeView::Domain { name: y, .. }) => x == y,
        (NodeView::Wildcard, NodeView::Wildcard) => true,
        _ => false,
    }
}

/// Whether a name that ends at this node is blocked: a wildcard always
/// blocks.
pub open spec fn node_blocking(n: NodeView) -> bool {
    match n {
        NodeView::Domain { blocking, .. } => blocking,
        NodeView::Wildcard => true,
    }
}

/// The label node that a query looks for.
pub open spec fn label_key(name: Seq<u8>) -> NodeView {
    NodeView::Domain { name, blocking: false }
}

/// Whether the pattern `path`, given top-level position first, blocks the
/// name whose labels are `labels`, top-level label first. A wildcard blocks
/// whatever reaches it, with at least one label left. A label must be met
/// by the same label of the name; where the name ends there, the label's
/// `blocking` decides.
pub open spec fn pattern_blocks(path: Seq<NodeView>, labels: Seq<Seq<u8>>) -> bool
    decreases labels.len(),
{
    if path.len() == 0 || labels.len() == 0 {
        false
    } else {
        match path[0] {
            NodeView::Wildcard => true,
            NodeView::Domain { name, blocking } => name == labels[0] && if labels.len() == 1 {
                blocking
            } else {
                pattern_blocks(path.drop_first(), labels.drop_first())
            },
        }
    }
}

/// The nodes as mathematical values, in the same order.
pub open spec fn node_views(nodes: Seq<Node>) -> Seq<NodeView> {
    Seq::new(nodes.len(), |i: int| nodes[i]@)
}

impl Node {
    pub fn is_blocking(&self) -> (r: bool)
        ensures
            r == node_blocking(self@),
    {
        match self {
            Node::Domain { name: _, blocking } => *blocking,
            Node::Wildcard => true,
        }
    }

    /// Whether both nodes stand for the same position.
    pub fn same_as(&self, other: &Node) -> (r: bool)
        ensures
            r == same_key(self@, other@),
    {
        match (self, other) {
            (Node::Domain { name: x, .. }, Node::Domain { name: y, .. }) => bytes_eq(
                x.as_slice(),
                y.as_slice(),
            ),
            (Node::Wildcard, Node::Wildcard) => true,
            _ => false,
        }
    }

    /// Feeds what identifies the node to the hasher: the name of a label, a
    /// star for a wildcard. What the hasher holds afterwards is left open,
    /// as the hash is.
    pub fn hash(&self, state: &mut Murmur3Hasher) {
        let identity = self.identity_bytes();
        state.write(identity.as_slice())
    }

    /// The tag under which the tree files the node: the hash of what
    /// identifies it. Which value that is is left open; the tree finds a
    /// node whatever the tags are.
    pub fn tag(&self) -> u64 {
        let mut state = BuildMurmur3Hasher.build_hasher();
        self.hash(&mut state);
        state.finish()
    }

    /// The position that the node stands for.
    pub open spec fn key(self) -> NodeView {
        match self {
            Node::Domain { name, .. } => label_key(name@),
            Node::Wildcard => NodeView::Wildcard,
        }
    }

    /// The bytes that identify the node to a hasher: the name of a label, a
    /// star for a wildcard. Whether the node blocks plays no part.
    pub open spec fn identity(self) -> Seq<u8> {
        match self {
            Node::Domain { name, .. } => name@,
            Node::Wildcard => seq![STAR],
        }
    }

    /// The bytes that identify the node to a hasher.
    pub fn identity_bytes(&self) -> (r: Vec<u8>)
        ensures
            r@ == self.identity(),
    {
        match self {
            Node::Domain { name, blocking: _ } => copy_bytes(name.as_slice()),
            Node::Wildcard => {
                let mut star: Vec<u8> = Vec::new();
                star.push(STAR);
                assert(star@ =~= seq![STAR]);
                star
            },
        }
    }
}

/// The tag of the label `name`, as `Node::tag` gives it.
fn label_tag(name: &[u8]) -> u64 {
    let mut state = BuildMurmur3Hasher.build_hasher();
    state.write(name);
    state.finish()
}

/// Nodes are equal where they stand for the same position.
impl PartialEq for Node {
    fn eq(&self, other: &Node) -> (r: bool) {
        self.same_as(other)
    }
}

impl PartialEqSpecImpl for Node {
    open spec fn obeys_eq_spec() -> bool {
        true
    }

    open spec fn eq_spec(&self, other: &Node) -> bool {
        same_key(self@, other@)
    }
}

/// A label that does not block by itself.
impl From<Vec<u8>> for Node {
    fn from(value: Vec<u8>) -> (r: Node) {
        Node::Domain { name: value, blocking: false }
    }
}

impl vstd::std_specs::convert::FromSpecImpl<Vec<u8>> for Node {
    open spec fn obeys_from_spec() -> bool {
        true
    }

    open spec fn from_spec(value: Vec<u8>) -> Node {
        Node::Domain { name: value, blocking: false }
    }
}

/// One child of a tree: a node, the tag it is filed under, and what lies
/// below it.
#[derive(Debug)]
pub struct Branch {
    tag: u64,
    node: Node,
    subtree: NodeTree,
}

/// A tree of patterns. No two children of a tree stand for the same
/// position.
#[derive(Debug)]
pub struct NodeTree {
    branches: Vec<Branch>,
}

/// No two of the branches stand for the same position.
pub closed spec fn keys_distinct(branches: Seq<Branch>) -> bool {
    forall|i: int, j: int|
        0 <= i < branches.len() && 0 <= j < branches.len() && i != j ==> !same_key(
            (#[trigger] branches[i]).node@,
            (#[trigger] branches[j]).node@,
        )
}

/// Where among the branches the position `key` stands.
pub closed spec fn key_index(branches: Seq<Branch>, key: NodeView) -> Option<int> {
    if exists|i: int| 0 <= i < branches.len() && same_key((#[trigger] branches[i]).node@, key) {
        Some(choose|i: int| 0 <= i < branches.len() && same_key((#[trigger] branches[i]).node@, key))
    } else {
        None
    }
}

/// The position that a search is for.
pub open spec fn wanted(wildcard: bool, name: Seq<u8>) -> NodeView {
    if wildcard {
        NodeView::Wildcard
    } else {
        label_key(name)
    }
}

/// Whether the node stands for the position that a search is for.
fn is_wanted(node: &Node, wildcard: bool, name: &[u8]) -> (r: bool)
    ensures
        r == same_key(node@, wanted(wildcard, name@)),
{
    match node {
        Node::Domain { name: own, .. } => !wildcard && bytes_eq(own.as_slice(), name),
        Node::Wildcard => wildcard,
    }
}

/// Keys that stand for the same position are found at the same place.
proof fn lemma_same_key_index(branches: Seq<Branch>, a: NodeView, b: NodeView)
    requires
        keys_distinct(branches),
        same_key(a, b),
    ensures
        key_index(branches, a) == key_index(branches, b),
{
    match key_index(branches, a) {
        Some(j) => {
            assert(same_key(branches[j].node@, a));
            lemma_key_index_found(branches, b, j);
        },
        None => {
            assert forall|j: int| 0 <= j < branches.len() implies !same_key(
                (#[trigger] branches[j]).node@,
                b,
            ) by {
                assert(!same_key(branches[j].node@, a));
            }
        },
    }
}

/// With distinct keys a position stands where it is found.
proof fn lemma_key_index_found(branches: Seq<Branch>, key: NodeView, i: int)
    requires
        keys_distinct(branches),
        0 <= i < branches.len(),
        same_key(branches[i].node@, key),
    ensures
        key_index(branches, key) == Some(i),
{
    let j = key_index(branches, key).unwrap();
    if j != i {
        assert(same_key(branches[j].node@, key));
        assert(same_key(branches[i].node@, branches[j].node@));
    }
}

impl NodeTree {
    #[verifier::type_invariant]
    spec fn distinct(&self) -> bool {
        keys_distinct(self.branches@)
    }

    /// Whether the tree blocks the name whose labels are `labels`, top-level
    /// label first. At each label a wildcard child blocks; else the child of
    /// that label is entered, and where the name ends there, that child says
    /// whether it blocks. A tree without the child blocks nothing.
    pub closed spec fn blocks(&self, labels: Seq<Seq<u8>>) -> bool
        decreases labels.len(),
    {
        if labels.len() == 0 {
            false
        } else if key_index(self.branches@, NodeView::Wildcard) is Some {
            true
        } else {
            match key_index(self.branches@, label_key(labels[0])) {
                Some(i) => if labels.len() == 1 {
                    node_blocking(self.branches@[i].node@)
                } else {
                    self.branches@[i].subtree.blocks(labels.drop_first())
                },
                None => false,
            }
        }
    }

    /// A tree that blocks nothing.
    pub fn new() -> (r: Self)
        ensures
            forall|labels: Seq<Seq<u8>>| !#[trigger] r.blocks(labels),
    {
        let r = NodeTree { branches: Vec::new() };
        assert forall|labels: Seq<Seq<u8>>| !#[trigger] r.blocks(labels) by {
            assert(key_index(r.branches@, NodeView::Wildcard) is None);
            if labels.len() > 0 {
                assert(key_index(r.branches@, label_key(labels[0])) is None);
            }
        }
        r
    }

    /// Where among the children a position stands: the wildcard, or the
    /// label `name`. The children filed under `tag` are tried first, then
    /// the others, so that the answer does not depend on the tags.
    fn find(&self, wildcard: bool, name: &[u8], tag: u64) -> (r: Option<usize>)
        ensures
            match r {
                Some(i) => i < self.branches@.len() && key_index(
                    self.branches@,
                    wanted(wildcard, name@),
                ) == Some(i as int),
                None => key_index(self.branches@, wanted(wildcard, name@)) is None,
            },
    {
        proof {
            use_type_invariant(self);
        }
        let ghost key = wanted(wildcard, name@);
        let n: usize = self.branches.len();
        let mut i: usize = 0;
        while i < n
            invariant
                i <= n,
                n == self.branches@.len(),
                key == wanted(wildcard, name@),
                keys_distinct(self.branches@),
                forall|j: int|
                    0 <= j < i && (#[trigger] self.branches@[j]).tag == tag ==> !same_key(
                        self.branches@[j].node@,
                        key,
                    ),
            decreases n - i,
        {
            if self.branches[i].tag == tag && is_wanted(&self.branches[i].node, wildcard, name) {
                proof {
                    lemma_key_index_found(self.branches@, key, i as int);
                }
                return Some(i);
            }
            i += 1;
        }
        let mut k: usize = 0;
        while k < n
            invariant
                k <= n,
                n == self.branches@.len(),
                key == wanted(wildcard, name@),
                keys_distinct(self.branches@),
                forall|j: int|
                    0 <= j < n && (#[trigger] self.branches@[j]).tag == tag ==> !same_key(
                        self.branches@[j].node@,
                        key,
                    ),
                forall|j: int| 0 <= j < k ==> !same_key((#[trigger] self.branches@[j]).node@, key),
            decreases n - k,
        {
            if self.branches[k].tag != tag && is_wanted(&self.branches[k].node, wildcard, name) {
                proof {
                    lemma_key_index_found(self.branches@, key, k as int);
                }
                return Some(k);
            }
            k += 1;
        }
        None
    }

    /// Whether the tree blocks the name whose labels are `nodes`, given as
    /// the name is written, top-level label last.
    pub fn is_branch_blocking(&self, nodes: Vec<Vec<u8>>) -> (r: bool)
        ensures
            r == self.blocks(label_views(nodes@).reverse()),
    {
        let n: usize = nodes.len();
        let ghost all = label_views(nodes@).reverse();
        let star: [u8; 1] = [STAR];
        let star_tag: u64 = label_tag(star.as_slice());
        let mut cur: &NodeTree = self;
        let mut k: usize = n;
        assert(all.subrange(0, n as int) =~= all);
        while k > 0
            invariant
                k <= n,
                n == nodes@.len(),
                all == label_views(nodes@).reverse(),
                self.blocks(all) == cur.blocks(all.subrange(n - k, n as int)),
            decreases k,
        {
            let ghost rem = all.subrange(n - k, n as int);
            proof {
                use_type_invariant(cur);
                assert(rem[0] == nodes@[k - 1]@);
                assert(rem.drop_first() =~= all.subrange(n - k + 1, n as int));
            }
            if cur.find(true, star.as_slice(), star_tag).is_some() {
                return true;
            }
            let label = nodes[k - 1].as_slice();
            match cur.find(false, label, label_tag(label)) {
                None => {
                    return false;
                },
                Some(i) => {
                    if k == 1 {
                        return cur.branches[i].node.is_blocking();
                    }
                    cur = &cur.branches[i].subtree;
                },
            }
            k -= 1;
        }
        false
    }

    /// Adds the pattern `nodes` to the tree. The pattern is given as it is
    /// written, top-level position last. Where a label is in the tree
    /// already, it blocks afterwards if it did before or does in the
    /// pattern.
    pub fn branch(self, nodes: Vec<Node>) -> (r: Self)
        ensures
            forall|labels: Seq<Seq<u8>>|
                #[trigger] r.blocks(labels) == (self.blocks(labels) || pattern_blocks(
                    node_views(nodes@).reverse(),
                    labels,
                )),
        decreases nodes@.len(),
    {
        let mut nodes = nodes;
        let ghost path = node_views(nodes@).reverse();
        proof {
            use_type_invariant(&self);
        }
        let node = match nodes.pop() {
            Some(node) => node,
            None => {
                return self;
            },
        };
        let ghost rest = node_views(nodes@).reverse();
        proof {
            assert(path.len() > 0);
            assert(path[0] == node@);
            assert(path.drop_first() =~= rest);
        }
        let tag: u64 = node.tag();
        let found = match &node {
            Node::Domain { name, .. } => self.find(false, name.as_slice(), tag),
            Node::Wildcard => {
                let star: [u8; 1] = [STAR];
                self.find(true, star.as_slice(), tag)
            },
        };
        proof {
            assert forall|other: NodeView| same_key(node@, other) == same_key(
                node.key(),
                other,
            ) by {}
            lemma_same_key_index(self.branches@, node@, node.key());
        }
        let ghost before = self.branches@;
        let mut branches = self.branches;
        match found {
            Some(i) => {
                let old_branch = branches.remove(i);
                let Branch { tag: old_tag, node: old_node, subtree: old_subtree } = old_branch;
                let (kept_tag, kept) = if !old_node.is_blocking() && node.is_blocking() {
                    (tag, node)
                } else {
                    (old_tag, old_node)
                };
                let subtree = old_subtree.branch(nodes);
                let grown = Branch { tag: kept_tag, node: kept, subtree };
                branches.insert(i, grown);
                proof {
                    assert(branches@ =~= before.update(i as int, grown));
                    assert forall|a: int, b: int|
                        0 <= a < branches@.len() && 0 <= b < branches@.len() && a != b implies !same_key(
                        (#[trigger] branches@[a]).node@,
                        (#[trigger] branches@[b]).node@,
                    ) by {
                        assert(same_key(before[a].node@, branches@[a].node@) || a != i);
                        assert(!same_key(before[a].node@, before[b].node@));
                    }
                }
                let r = NodeTree { branches };
                proof {
                    lemma_key_index_is(before, node@, i as int);
                    assert forall|labels: Seq<Seq<u8>>|
                        #[trigger] r.blocks(labels) == (self.blocks(labels) || pattern_blocks(
                            path,
                            labels,
                        )) by {
                        lemma_branch_merged(self, r, i as int, node@, path, labels);
                    }
                }
                r
            },
            None => {
                let subtree = NodeTree::new().branch(nodes);
                let grown = Branch { tag, node, subtree };
                branches.push(grown);
                proof {
                    assert forall|a: int, b: int|
                        0 <= a < branches@.len() && 0 <= b < branches@.len() && a != b implies !same_key(
                        (#[trigger] branches@[a]).node@,
                        (#[trigger] branches@[b]).node@,
                    ) by {
                        if a < before.len() && b < before.len() {
                            assert(!same_key(before[a].node@, before[b].node@));
                        } else if a < before.len() {
                            assert(!same_key(before[a].node@, grown.node@));
                        } else {
                            assert(!same_key(before[b].node@, grown.node@));
                        }
                    }
                }
                let r = NodeTree { branches };
                proof {
                    assert forall|labels: Seq<Seq<u8>>|
                        #[trigger] r.blocks(labels) == (self.blocks(labels) || pattern_blocks(
                            path,
                            labels,
                        )) by {
                        lemma_branch_added(self, r, node@, path, labels);
                    }
                }
                r
            },
        }
    }
}

/// What `key_index` finds stands for the key it was asked for.
proof fn lemma_key_index_is(branches: Seq<Branch>, key: NodeView, i: int)
    requires
        key_index(branches, key) == Some(i),
    ensures
        0 <= i < branches.len(),
        same_key(branches[i].node@, key),
{
}

/// Two lists of branches whose nodes stand for the same positions, place by
/// place, find every key at the same place.
proof fn lemma_key_index_same(before: Seq<Branch>, after: Seq<Branch>, key: NodeView)
    requires
        before.len() == after.len(),
        keys_distinct(before),
        keys_distinct(after),
        forall|j: int|
            0 <= j < before.len() ==> same_key((#[trigger] before[j]).node@, key) == same_key(
                after[j].node@,
                key,
            ),
    ensures
        key_index(before, key) == key_index(after, key),
{
    match key_index(before, key) {
        Some(j) => {
            assert(same_key(before[j].node@, key));
            lemma_key_index_found(after, key, j);
        },
        None => {
            assert forall|j: int| 0 <= j < after.len() implies !same_key(
                (#[trigger] after[j]).node@,
                key,
            ) by {
                assert(!same_key(before[j].node@, key));
            }
        },
    }
}

/// What a tree blocks once the branch at `i` has taken in a pattern that
/// starts with its own position.
proof fn lemma_branch_merged(
    t0: NodeTree,
    t1: NodeTree,
    i: int,
    node: NodeView,
    path: Seq<NodeView>,
    labels: Seq<Seq<u8>>,
)
    requires
        keys_distinct(t0.branches@),
        keys_distinct(t1.branches@),
        0 <= i < t0.branches@.len(),
        t1.branches@.len() == t0.branches@.len(),
        forall|j: int|
            0 <= j < t0.branches@.len() && j != i ==> #[trigger] t1.branches@[j]
                == t0.branches@[j],
        same_key(t0.branches@[i].node@, node),
        same_key(t1.branches@[i].node@, node),
        node_blocking(t1.branches@[i].node@) == (node_blocking(t0.branches@[i].node@)
            || node_blocking(node)),
        forall|l: Seq<Seq<u8>>| #[trigger]
            t1.branches@[i].subtree.blocks(l) == (t0.branches@[i].subtree.blocks(l)
                || pattern_blocks(path.drop_first(), l)),
        path.len() > 0,
        path[0] == node,
    ensures
        t1.blocks(labels) == (t0.blocks(labels) || pattern_blocks(path, labels)),
{
    let b0 = t0.branches@;
    let b1 = t1.branches@;
    if labels.len() > 0 {
        assert forall|key: NodeView| key_index(b0, key) == key_index(b1, key) by {
            assert forall|j: int| 0 <= j < b0.len() implies same_key(
                (#[trigger] b0[j]).node@,
                key,
            ) == same_key(b1[j].node@, key) by {
                if j != i {
                    assert(b1[j] == b0[j]);
                }
            }
            lemma_key_index_same(b0, b1, key);
        }
        let key = label_key(labels[0]);
        let rest = labels.drop_first();
        assert(key_index(b0, NodeView::Wildcard) == key_index(b1, NodeView::Wildcard));
        assert(key_index(b0, key) == key_index(b1, key));
        match node {
            NodeView::Wildcard => {
                lemma_key_index_found(b0, NodeView::Wildcard, i);
                assert(t0.blocks(labels));
                assert(t1.blocks(labels));
            },
            NodeView::Domain { name, blocking } => {
                if key_index(b0, NodeView::Wildcard) is None {
                    if name == labels[0] {
                        lemma_key_index_found(b0, key, i);
                        assert(key_index(b1, key) == Some(i));
                        assert(t1.blocks(labels) == if labels.len() == 1 {
                            node_blocking(b1[i].node@)
                        } else {
                            b1[i].subtree.blocks(rest)
                        });
                        assert(t0.blocks(labels) == if labels.len() == 1 {
                            node_blocking(b0[i].node@)
                        } else {
                            b0[i].subtree.blocks(rest)
                        });
                        assert(pattern_blocks(path, labels) == if labels.len() == 1 {
                            blocking
                        } else {
                            pattern_blocks(path.drop_first(), rest)
                        });
                    } else {
                        assert(!pattern_blocks(path, labels));
                        match key_index(b0, key) {
                            Some(j) => {
                                lemma_key_index_is(b0, key, j);
                                assert(j != i);
                                assert(b1[j] == b0[j]);
                            },
                            None => {},
                        }
                    }
                } else {
                    assert(t0.blocks(labels));
                    assert(t1.blocks(labels));
                }
            },
        }
    } else {
        assert(!t0.blocks(labels));
        assert(!t1.blocks(labels));
        assert(!pattern_blocks(path, labels));
    }
}

/// What a tree blocks once a pattern has been added under a new branch.
proof fn lemma_branch_added(
    t0: NodeTree,
    t1: NodeTree,
    node: NodeView,
    path: Seq<NodeView>,
    labels: Seq<Seq<u8>>,
)
    requires
        keys_distinct(t0.branches@),
        keys_distinct(t1.branches@),
        t1.branches@.len() == t0.branches@.len() + 1,
        forall|j: int| 0 <= j < t0.branches@.len() ==> #[trigger] t1.branches@[j]
            == t0.branches@[j],
        key_index(t0.branches@, node) is None,
        t1.branches@.last().node@ == node,
        forall|l: Seq<Seq<u8>>| #[trigger]
            t1.branches@.last().subtree.blocks(l) == pattern_blocks(path.drop_first(), l),
        path.len() > 0,
        path[0] == node,
    ensures
        t1.blocks(labels) == (t0.blocks(labels) || pattern_blocks(path, labels)),
{
    let b0 = t0.branches@;
    let b1 = t1.branches@;
    let n = b0.len() as int;
    if labels.len() > 0 {
        assert forall|j: int| 0 <= j < n implies !same_key((#[trigger] b0[j]).node@, node) by {
            if same_key(b0[j].node@, node) {
                lemma_key_index_found(b0, node, j);
            }
        }
        assert forall|key: NodeView| !same_key(node, key) implies key_index(b0, key)
            == key_index(b1, key) by {
            match key_index(b0, key) {
                Some(j) => {
                    lemma_key_index_is(b0, key, j);
                    assert(b1[j] == b0[j]);
                    lemma_key_index_found(b1, key, j);
                },
                None => {
                    assert forall|j: int| 0 <= j < b1.len() implies !same_key(
                        (#[trigger] b1[j]).node@,
                        key,
                    ) by {
                        if j < n {
                            assert(b1[j] == b0[j]);
                            if same_key(b0[j].node@, key) {
                                lemma_key_index_found(b0, key, j);
                            }
                        }
                    }
                },
            }
        }
        assert forall|key: NodeView| same_key(node, key) implies key_index(b0, key) is None
            && key_index(b1, key) == Some(n) by {
            assert forall|j: int| 0 <= j < n implies !same_key((#[trigger] b0[j]).node@, key) by {
                assert(!same_key(b0[j].node@, node));
            }
            lemma_key_index_found(b1, key, n);
        }
        let key = label_key(labels[0]);
        let rest = labels.drop_first();
        match node {
            NodeView::Wildcard => {
                assert(same_key(node, NodeView::Wildcard));
                assert(key_index(b1, NodeView::Wildcard) == Some(n));
                assert(t1.blocks(labels));
                assert(pattern_blocks(path, labels));
            },
            NodeView::Domain { name, blocking } => {
                assert(!same_key(node, NodeView::Wildcard));
                assert(key_index(b0, NodeView::Wildcard) == key_index(b1, NodeView::Wildcard));
                if key_index(b0, NodeView::Wildcard) is None {
                    if name == labels[0] {
                        assert(same_key(node, key));
                        assert(key_index(b1, key) == Some(n));
                        assert(key_index(b0, key) is None);
                        assert(b1[n] == b1.last());
                        assert(!t0.blocks(labels));
                        assert(t1.blocks(labels) == if labels.len() == 1 {
                            node_blocking(b1[n].node@)
                        } else {
                            b1[n].subtree.blocks(rest)
                        });
                        assert(pattern_blocks(path, labels) == if labels.len() == 1 {
                            blocking
                        } else {
                            pattern_blocks(path.drop_first(), rest)
                        });
                    } else {
                        assert(!same_key(node, key));
                        assert(key_index(b0, key) == key_index(b1, key));
                        assert(!pattern_blocks(path, labels));
                        match key_index(b0, key) {
                            Some(j) => {
                                lemma_key_index_is(b0, key, j);
                                assert(b1[j] == b0[j]);
                            },
                            None => {},
                        }
                    }
                } else {
                    assert(t0.blocks(labels));
                    assert(t1.blocks(labels));
                }
            },
        }
    } else {
        assert(!t0.blocks(labels));
        assert(!t1.blocks(labels));
        assert(!pattern_blocks(path, labels));
    }
}
} // verus!
