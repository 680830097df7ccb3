//! The build-time trie and its flat, pointer-free representation.
//!
//! `PointerByteNode` is a temporary 256-ary tree built from the closed token
//! dictionary.  `finalize` flattens it into a `ByteTree`: three parallel
//! arrays (value, child bitmap, child-block start) in which the children of
//! each node occupy one contiguous block.  `ByteTreeWalker` steps through the
//! flat form one byte at a time.

use crate::bitset::{BitSet, ByteSet};
use vstd::prelude::*;

verus! {

/// One node of the build-time trie: a token value and up to 256 owned
/// children indexed by byte value.
#[derive(Debug, PartialEq, Eq)]
pub struct PointerByteNode {
    value: u64,
    children: Vec<Option<PointerByteNode>>,
}

/// `p` is a (not necessarily strict) prefix of `k`.
pub open spec fn is_prefix_of(p: Seq<u8>, k: Seq<u8>) -> bool {
    p.len() <= k.len() && k.take(p.len() as int) == p
}

/// What inserting the path `rem` with value `id` does to a trie node: the
/// reachable paths gain exactly the prefixes of `rem`, the node at `rem`
/// holds `id`, every other surviving node keeps its value, and every other
/// created node holds the sentinel.
pub open spec fn insert_effect(pre: PointerByteNode, post: PointerByteNode, rem: Seq<u8>, id: u64) -> bool {
    &&& forall|q: Seq<u8>| #![trigger post.subnode_at(q)]
        post.subnode_at(q) is Some <==> (pre.subnode_at(q) is Some || is_prefix_of(q, rem))
    &&& post.subnode_at(rem) is Some
    &&& post.subnode_at(rem)->Some_0.spec_value() == id
    &&& forall|q: Seq<u8>| #![trigger post.subnode_at(q)]
        q != rem && pre.subnode_at(q) is Some ==> post.subnode_at(q)->Some_0.spec_value()
            == pre.subnode_at(q)->Some_0.spec_value()
    &&& forall|q: Seq<u8>| #![trigger post.subnode_at(q)]
        q != rem && post.subnode_at(q) is Some && !(pre.subnode_at(q) is Some)
            ==> post.subnode_at(q)->Some_0.spec_value() == u64::MAX
}

impl PointerByteNode {
    #[verifier::type_invariant]
    spec fn type_inv(&self) -> bool {
        self.children@.len() == 256
    }

    /// The token value stored at this node.
    pub closed spec fn spec_value(&self) -> u64 {
        self.value
    }

    /// True when a child exists for byte value `b`.
    pub closed spec fn has_child(&self, b: int) -> bool {
        0 <= b < self.children@.len() && self.children@[b] is Some
    }

    /// The child for byte value `b`.
    pub closed spec fn child(&self, b: int) -> PointerByteNode {
        self.children@[b]->Some_0
    }

    /// The number of children with byte value strictly below `b`.
    pub open spec fn count_children_below(&self, b: int) -> int
        decreases b,
    {
        if b <= 0 {
            0
        } else {
            self.count_children_below(b - 1) + if self.has_child(b - 1) {
                1int
            } else {
                0int
            }
        }
    }

    /// The number of nodes in the subtrees of the children with byte value
    /// strictly below `b`.
    pub open spec fn size_below(&self, b: int) -> int
        decreases self, b,
    {
        if b <= 0 {
            0
        } else {
            self.size_below(b - 1) + if self.has_child(b - 1) {
                self.child(b - 1).spec_tree_size()
            } else {
                0int
            }
        }
    }

    /// The number of nodes in this subtree, this node included.
    pub open spec fn spec_tree_size(&self) -> int
        decreases self, 257int,
    {
        1 + self.size_below(256)
    }

    /// The node reached from this one by following `path` byte by byte.
    pub open spec fn subnode_at(&self, path: Seq<u8>) -> Option<PointerByteNode>
        decreases path.len(),
    {
        if path.len() == 0 {
            Some(*self)
        } else if self.has_child(path[0] as int) {
            self.child(path[0] as int).subnode_at(path.skip(1))
        } else {
            None
        }
    }

    /// A fresh node with the given value and no children.
    pub fn new(value: u64) -> (r: PointerByteNode)
        ensures
            r.spec_value() == value,
            forall|b: int| !r.has_child(b),
            r.spec_tree_size() == 1,
    {
        let mut children: Vec<Option<PointerByteNode>> = Vec::new();
        let mut k: usize = 0;
        while k < 256
            invariant
                k <= 256,
                children@.len() == k,
                forall|j: int| 0 <= j < k ==> children@[j] is None,
            decreases 256 - k,
        {
            children.push(None);
            k = k + 1;
        }
        let r = PointerByteNode { value, children };
        proof {
            lemma_size_below_empty(&r, 256);
        }
        r
    }

    /// The token value stored at this node.
    pub fn value(&self) -> (r: u64)
        ensures
            r == self.spec_value(),
    {
        self.value
    }

    /// The bitmap of the byte values for which this node has a child.
    pub fn to_byteset(&self) -> (r: ByteSet)
        ensures
            forall|b: int| r.spec_includes(b) <==> self.has_child(b),
            forall|b: int| r.rank_below(b) == self.count_children_below(b),
    {
        proof {
            use_type_invariant(self);
        }
        let mut set = ByteSet::new();
        let mut i: usize = 0;
        while i < 256
            invariant
                i <= 256,
                self.children@.len() == 256,
                forall|b: int| set.spec_includes(b) <==> (b < i && self.has_child(b)),
            decreases 256 - i,
        {
            if self.children[i].is_some() {
                set.insert(i);
            }
            i = i + 1;
        }
        proof {
            assert forall|b: int| set.rank_below(b) == self.count_children_below(b) by {
                lemma_rank_is_count(&set, self, b);
            }
        }
        set
    }

    /// Attaches a fresh leaf child for byte `id`; no child may exist there
    /// yet.
    pub fn insert(&mut self, id: usize, value: u64)
        requires
            id < 256,
            !old(self).has_child(id as int),
        ensures
            final(self).spec_value() == old(self).spec_value(),
            final(self).has_child(id as int),
            final(self).child(id as int).spec_value() == value,
            final(self).child(id as int).spec_tree_size() == 1,
            forall|b: int| !final(self).child(id as int).has_child(b),
            forall|j: int| j != id ==> final(self).has_child(j) == old(self).has_child(j),
            forall|j: int|
                j != id && old(self).has_child(j) ==> final(self).child(j) == old(self).child(
                    j,
                ),
            final(self).spec_tree_size() == old(self).spec_tree_size() + 1,
    {
        let node = PointerByteNode::new(value);
        self.insert_child(id, node);
        proof {
            lemma_tree_size_at_least_one(&self.child(id as int));
        }
    }

    /// Attaches `value` as the child for byte `id`.  Registering the same
    /// child byte twice on one node is a build-time invariant violation, so
    /// the slot must be empty; unique dictionary keys make that structurally
    /// unreachable.
    pub fn insert_child(&mut self, id: usize, value: PointerByteNode)
        requires
            id < 256,
            !old(self).has_child(id as int),
        ensures
            final(self).spec_value() == old(self).spec_value(),
            final(self).has_child(id as int),
            final(self).child(id as int) == value,
            forall|j: int| j != id ==> final(self).has_child(j) == old(self).has_child(j),
            forall|j: int|
                j != id && old(self).has_child(j) ==> final(self).child(j) == old(self).child(
                    j,
                ),
            final(self).spec_tree_size() == old(self).spec_tree_size() + value.spec_tree_size(),
    {
        proof {
            use_type_invariant(&*self);
        }
        let slot = vstd::std_specs::vec::vec_index_mut(&mut self.children, id);
        *slot = Some(value);
        proof {
            lemma_size_change_at(&*old(self), &*self, id as int, 256);
        }
    }

    /// A borrow of the child for byte `id`, which must exist.
    pub fn child_unwrap(&self, id: usize) -> (r: &PointerByteNode)
        requires
            id < 256,
            self.has_child(id as int),
        ensures
            *r == self.child(id as int),
    {
        proof {
            use_type_invariant(self);
        }
        match &self.children[id] {
            Some(c) => c,
            None => vstd::pervasive::unreached(),
        }
    }

    /// A mutable borrow of the child for byte `id`, which must exist.
    pub fn child_unwrap_mut(&mut self, id: usize) -> (r: &mut PointerByteNode)
        requires
            id < 256,
            old(self).has_child(id as int),
        ensures
            *r == old(self).child(id as int),
            final(self).spec_value() == old(self).spec_value(),
            final(self).has_child(id as int),
            final(self).child(id as int) == *final(r),
            forall|j: int| j != id ==> final(self).has_child(j) == old(self).has_child(j),
            forall|j: int|
                j != id && old(self).has_child(j) ==> final(self).child(j) == old(self).child(
                    j,
                ),
    {
        proof {
            use_type_invariant(&*self);
        }
        let slot = vstd::std_specs::vec::vec_index_mut(&mut self.children, id);
        match slot {
            Some(c) => c,
            None => vstd::pervasive::unreached(),
        }
    }

    /// The number of immediate children of this node.
    pub fn num_children(&self) -> (r: usize)
        ensures
            r == self.count_children_below(256),
    {
        proof {
            use_type_invariant(self);
        }
        let mut count: usize = 0;
        let mut i: usize = 0;
        while i < 256
            invariant
                i <= 256,
                self.children@.len() == 256,
                count == self.count_children_below(i as int),
                count <= i,
            decreases 256 - i,
        {
            proof {
                lemma_counts_bounds(self, i as int);
            }
            if self.children[i].is_some() {
                count = count + 1;
            }
            i = i + 1;
        }
        count
    }

    /// Inserts the suffix of `key` that starts at `depth` below this node and
    /// stores `id` at the end of the path.  Nodes created on the way carry
    /// the sentinel value until an insertion of their own path names them.
    /// Returns how many nodes were created.
    pub fn insert_path(&mut self, key: &Vec<u8>, depth: usize, id: u64) -> (created: usize)
        requires
            depth <= key@.len(),
        ensures
            created <= key@.len() - depth,
            final(self).spec_tree_size() == old(self).spec_tree_size() + created,
            old(self).subnode_at(key@.skip(depth as int)) is Some ==> created == 0,
            depth < key@.len() && old(self).subnode_at(
                key@.skip(depth as int).take(key@.len() - depth as int - 1),
            ) is Some ==> created <= 1,
            insert_effect(*old(self), *final(self), key@.skip(depth as int), id),
        decreases key@.len() - depth,
    {
        proof {
            use_type_invariant(&*self);
        }
        let ghost rem = key@.skip(depth as int);
        if depth == key.len() {
            let ghost before = *self;
            self.value = id;
            proof {
                assert(rem =~= Seq::<u8>::empty());
                lemma_size_same_children(&before, &*self, 256);
                assert(self.subnode_at(rem) == Some(*self));
                assert forall|q: Seq<u8>| #![trigger self.subnode_at(q)]
                    self.subnode_at(q) is Some <==> (before.subnode_at(q) is Some
                    || is_prefix_of(q, rem)) by {
                    if q.len() == 0 {
                        assert(rem.take(0) =~= q);
                        assert(is_prefix_of(q, rem));
                    } else {
                        lemma_subnode_same_children(&before, &*self, q);
                        if is_prefix_of(q, rem) {
                            assert(q.len() == 0);
                        }
                    }
                }
                assert forall|q: Seq<u8>|
                    q != rem && before.subnode_at(q) is Some implies #[trigger] self.subnode_at(
                    q,
                )->Some_0.spec_value() == before.subnode_at(q)->Some_0.spec_value() by {
                    if q.len() == 0 {
                        assert(q =~= rem);
                    } else {
                        lemma_subnode_same_children(&before, &*self, q);
                    }
                }
                assert forall|q: Seq<u8>|
                    q != rem && #[trigger] self.subnode_at(q) is Some && !(before.subnode_at(
                    q,
                ) is Some) implies self.subnode_at(q)->Some_0.spec_value() == u64::MAX by {
                    if q.len() == 0 {
                        assert(before.subnode_at(q) == Some(before));
                    } else {
                        lemma_subnode_same_children(&before, &*self, q);
                    }
                }
                assert(insert_effect(before, *self, rem, id));
            }
            0
        } else {
            let b = key[depth] as usize;
            let ghost old_self = *old(self);
            let ghost rem2 = key@.skip(depth as int + 1);
            proof {
                assert(rem.len() == key@.len() - depth);
                assert(rem[0] == key@[depth as int]);
                assert(rem.skip(1) =~= rem2);
            }
            let mut created: usize = 0;
            if self.children[b].is_none() {
                let leaf = PointerByteNode::new(u64::MAX);
                self.insert_child(b, leaf);
                created = 1;
            }
            let ghost mid = *self;
            let child = self.child_unwrap_mut(b);
            let sub = child.insert_path(key, depth + 1, id);
            proof {
                let fin = *self;
                let mid_c = mid.child(b as int);
                let fin_c = fin.child(b as int);
                assert(insert_effect(mid_c, fin_c, rem2, id));
                lemma_size_change_at(&mid, &fin, b as int, 256);
                assert(fin.spec_tree_size() == mid.spec_tree_size() + sub);
                lemma_insert_path_glue(&old_self, &mid, &fin, b as int, rem, rem2, id);
                if old_self.subnode_at(rem) is Some {
                    assert(old_self.has_child(b as int));
                    assert(created == 0);
                    assert(mid == old_self);
                    assert(mid_c.subnode_at(rem2) is Some);
                    assert(sub == 0);
                }
                let pre = rem.take(rem.len() - 1);
                if old_self.subnode_at(pre) is Some {
                    if depth + 1 == key@.len() {
                        assert(rem2 =~= Seq::<u8>::empty());
                        assert(mid_c.subnode_at(rem2) is Some);
                        assert(sub == 0);
                    } else {
                        assert(pre.len() >= 1);
                        assert(pre[0] == rem[0]);
                        assert(old_self.has_child(b as int));
                        assert(created == 0);
                        assert(mid == old_self);
                        assert(old_self.child(b as int).subnode_at(pre.skip(1)) is Some);
                        assert forall|i: int|
                            0 <= i < pre.len() - 1 implies pre.skip(1)[i] == rem2.take(
                            rem2.len() - 1,
                        )[i] by {
                            assert(pre.skip(1)[i] == rem[i + 1]);
                            assert(rem2.take(rem2.len() - 1)[i] == rem.skip(1)[i]);
                        }
                        assert(pre.skip(1) =~= rem2.take(rem2.len() - 1));
                        assert(sub <= 1);
                    }
                }
            }
            created + sub
        }
    }

    /// The number of nodes in this subtree, this node included.
    pub fn tree_size(&self) -> (r: usize)
        requires
            self.spec_tree_size() <= usize::MAX,
        ensures
            r == self.spec_tree_size(),
        decreases *self,
    {
        proof {
            use_type_invariant(self);
        }
        let mut total: usize = 1;
        let mut i: usize = 0;
        while i < 256
            invariant
                i <= 256,
                self.children@.len() == 256,
                self.spec_tree_size() <= usize::MAX,
                total == 1 + self.size_below(i as int),
            decreases 256 - i,
        {
            proof {
                lemma_counts_mono(self, i as int + 1, 256);
                lemma_counts_bounds(self, i as int + 1);
            }
            match &self.children[i] {
                Some(c) => {
                    total = total + c.tree_size();
                },
                None => {},
            }
            i = i + 1;
        }
        total
    }
}

/// A set built from a node's children has the node's child count as its rank.
proof fn lemma_rank_is_count(set: &BitSet, n: &PointerByteNode, b: int)
    requires
        forall|j: int| set.spec_includes(j) <==> n.has_child(j),
    ensures
        set.rank_below(b) == n.count_children_below(b),
    decreases b,
{
    if b > 0 {
        lemma_rank_is_count(set, n, b - 1);
    }
}

/// How the subtree counts change when exactly one child slot differs between
/// two nodes.
proof fn lemma_size_change_at(n1: &PointerByteNode, n2: &PointerByteNode, b: int, bound: int)
    requires
        0 <= b < 256,
        forall|j: int| j != b ==> n1.has_child(j) == n2.has_child(j),
        forall|j: int|
            j != b && n1.has_child(j) ==> n1.child(j) == n2.child(j),
    ensures
        bound <= b ==> n1.size_below(bound) == n2.size_below(bound),
        bound <= b ==> n1.count_children_below(bound) == n2.count_children_below(bound),
        bound > b ==> n2.size_below(bound) - n1.size_below(bound) == (if n2.has_child(b) {
            n2.child(b).spec_tree_size()
        } else {
            0int
        }) - (if n1.has_child(b) {
            n1.child(b).spec_tree_size()
        } else {
            0int
        }),
        bound > b ==> n2.count_children_below(bound) - n1.count_children_below(bound) == (
        if n2.has_child(b) {
            1int
        } else {
            0int
        }) - (if n1.has_child(b) {
            1int
        } else {
            0int
        }),
    decreases bound,
{
    if bound > 0 {
        lemma_size_change_at(n1, n2, b, bound - 1);
    }
}

/// One step of the prefix relation: a non-empty prefix starts with the same
/// byte and continues as a prefix of the rest.
pub proof fn lemma_prefix_step(q: Seq<u8>, k: Seq<u8>)
    requires
        q.len() > 0,
        k.len() > 0,
    ensures
        is_prefix_of(q, k) <==> (q[0] == k[0] && is_prefix_of(q.skip(1), k.skip(1))),
{
    if is_prefix_of(q, k) {
        assert(k.take(q.len() as int)[0] == k[0]);
        assert(q.skip(1) =~= k.skip(1).take(q.len() - 1));
    }
    if q[0] == k[0] && is_prefix_of(q.skip(1), k.skip(1)) {
        assert forall|i: int| 0 <= i < q.len() implies k.take(q.len() as int)[i] == q[i] by {
            if i > 0 {
                assert(q.skip(1)[i - 1] == k.skip(1).take(q.len() - 1)[i - 1]);
            }
        }
        assert(k.take(q.len() as int) =~= q);
    }
}

/// Two nodes with identical children reach identical subnodes over every
/// non-empty path.
proof fn lemma_subnode_same_children(n1: &PointerByteNode, n2: &PointerByteNode, q: Seq<u8>)
    requires
        q.len() > 0,
        forall|j: int| n1.has_child(j) == n2.has_child(j),
        forall|j: int| n1.has_child(j) ==> n1.child(j) == n2.child(j),
    ensures
        n1.subnode_at(q) == n2.subnode_at(q),
{
    if n1.has_child(q[0] as int) {
        assert(n1.child(q[0] as int) == n2.child(q[0] as int));
    }
}

/// Lifts the effect of an insertion below one child to the whole node: when
/// only the child for `rem`'s first byte changed, and changed as an
/// insertion of the rest of the path describes, the node as a whole shows an
/// insertion of the full path.
proof fn lemma_insert_path_glue(
    old_self: &PointerByteNode,
    mid: &PointerByteNode,
    fin: &PointerByteNode,
    b: int,
    rem: Seq<u8>,
    rem2: Seq<u8>,
    id: u64,
)
    requires
        rem.len() >= 1,
        rem[0] == b,
        rem.skip(1) == rem2,
        mid.spec_value() == old_self.spec_value(),
        mid.has_child(b),
        forall|j: int| j != b ==> mid.has_child(j) == old_self.has_child(j),
        forall|j: int| j != b && old_self.has_child(j) ==> mid.child(j) == old_self.child(j),
        old_self.has_child(b) ==> mid.child(b) == old_self.child(b),
        !old_self.has_child(b) ==> mid.child(b).spec_value() == u64::MAX,
        !old_self.has_child(b) ==> forall|c: int| !mid.child(b).has_child(c),
        fin.spec_value() == mid.spec_value(),
        fin.has_child(b),
        forall|j: int| j != b ==> fin.has_child(j) == mid.has_child(j),
        forall|j: int| j != b && mid.has_child(j) ==> fin.child(j) == mid.child(j),
        insert_effect(mid.child(b), fin.child(b), rem2, id),
    ensures
        insert_effect(*old_self, *fin, rem, id),
{
    assert(fin.subnode_at(rem) == fin.child(b).subnode_at(rem2));
    assert forall|q: Seq<u8>| #![trigger fin.subnode_at(q)]
        fin.subnode_at(q) is Some <==> (old_self.subnode_at(q) is Some || is_prefix_of(
            q,
            rem,
        )) by {
        lemma_insert_path_glue_at(old_self, mid, fin, b, rem, rem2, id, q);
    }
    assert forall|q: Seq<u8>|
        q != rem && old_self.subnode_at(q) is Some implies #[trigger] fin.subnode_at(
        q,
    )->Some_0.spec_value() == old_self.subnode_at(q)->Some_0.spec_value() by {
        lemma_insert_path_glue_at(old_self, mid, fin, b, rem, rem2, id, q);
    }
    assert forall|q: Seq<u8>|
        q != rem && #[trigger] fin.subnode_at(q) is Some && !(old_self.subnode_at(q) is Some)
        implies fin.subnode_at(q)->Some_0.spec_value() == u64::MAX by {
        lemma_insert_path_glue_at(old_self, mid, fin, b, rem, rem2, id, q);
    }
}

/// The per-path case analysis behind `lemma_insert_path_glue`.
proof fn lemma_insert_path_glue_at(
    old_self: &PointerByteNode,
    mid: &PointerByteNode,
    fin: &PointerByteNode,
    b: int,
    rem: Seq<u8>,
    rem2: Seq<u8>,
    id: u64,
    q: Seq<u8>,
)
    requires
        rem.len() >= 1,
        rem[0] == b,
        rem.skip(1) == rem2,
        mid.spec_value() == old_self.spec_value(),
        mid.has_child(b),
        forall|j: int| j != b ==> mid.has_child(j) == old_self.has_child(j),
        forall|j: int| j != b && old_self.has_child(j) ==> mid.child(j) == old_self.child(j),
        old_self.has_child(b) ==> mid.child(b) == old_self.child(b),
        !old_self.has_child(b) ==> mid.child(b).spec_value() == u64::MAX,
        !old_self.has_child(b) ==> forall|c: int| !mid.child(b).has_child(c),
        fin.spec_value() == mid.spec_value(),
        fin.has_child(b),
        forall|j: int| j != b ==> fin.has_child(j) == mid.has_child(j),
        forall|j: int| j != b && mid.has_child(j) ==> fin.child(j) == mid.child(j),
        insert_effect(mid.child(b), fin.child(b), rem2, id),
    ensures
        fin.subnode_at(q) is Some <==> (old_self.subnode_at(q) is Some || is_prefix_of(q, rem)),
        q != rem && old_self.subnode_at(q) is Some ==> fin.subnode_at(q)->Some_0.spec_value()
            == old_self.subnode_at(q)->Some_0.spec_value(),
        q != rem && fin.subnode_at(q) is Some && !(old_self.subnode_at(q) is Some)
            ==> fin.subnode_at(q)->Some_0.spec_value() == u64::MAX,
{
    if q.len() == 0 {
        assert(is_prefix_of(q, rem)) by {
            assert(rem.take(0) =~= q);
        }
        assert(fin.subnode_at(q) == Some(*fin));
        assert(old_self.subnode_at(q) == Some(*old_self));
    } else {
        lemma_prefix_step(q, rem);
        let q0 = q[0] as int;
        let q1 = q.skip(1);
        if q0 != b {
            // untouched branch: the child for q's first byte is the same
            if old_self.has_child(q0) {
                assert(old_self.child(q0) == fin.child(q0));
            }
            assert(fin.subnode_at(q) == old_self.subnode_at(q));
            assert(!is_prefix_of(q, rem));
        } else {
            assert(fin.subnode_at(q) == fin.child(b).subnode_at(q1));
            assert(is_prefix_of(q, rem) <==> is_prefix_of(q1, rem2));
            if q1 == rem2 {
                assert forall|i: int| 0 <= i < q.len() implies q[i] == rem[i] by {
                    if i > 0 {
                        assert(q[i] == q1[i - 1]);
                        assert(rem[i] == rem.skip(1)[i - 1]);
                    }
                }
                assert(q =~= rem);
            }
            if old_self.has_child(b) {
                assert(old_self.subnode_at(q) == old_self.child(b).subnode_at(q1));
                assert(mid.child(b) == old_self.child(b));
            } else {
                assert(old_self.subnode_at(q) is None);
                if q1.len() == 0 {
                    assert(mid.child(b).subnode_at(q1) == Some(mid.child(b)));
                    assert(is_prefix_of(q1, rem2)) by {
                        assert(rem2.take(0) =~= q1);
                    }
                    if q != rem {
                        assert(q1 != rem2);
                        assert(fin.child(b).subnode_at(q1)->Some_0.spec_value() == mid.child(
                            b,
                        ).spec_value());
                    }
                } else {
                    assert(!mid.child(b).has_child(q1[0] as int));
                    assert(mid.child(b).subnode_at(q1) is None);
                }
            }
        }
    }
}

/// Two nodes with the same children have the same subtree counts below every
/// bound.
proof fn lemma_size_same_children(n1: &PointerByteNode, n2: &PointerByteNode, bound: int)
    requires
        forall|j: int| n1.has_child(j) == n2.has_child(j),
        forall|j: int| n1.has_child(j) ==> n1.child(j) == n2.child(j),
    ensures
        n1.size_below(bound) == n2.size_below(bound),
        n1.count_children_below(bound) == n2.count_children_below(bound),
    decreases bound,
{
    if bound > 0 {
        lemma_size_same_children(n1, n2, bound - 1);
    }
}

/// A node without children has no subtree but itself.
proof fn lemma_size_below_empty(n: &PointerByteNode, b: int)
    requires
        forall|j: int| !n.has_child(j),
    ensures
        n.size_below(b) == 0,
        n.count_children_below(b) == 0,
    decreases b,
{
    if b > 0 {
        lemma_size_below_empty(n, b - 1);
    }
}

/// The child count below a bound never exceeds the node count below it, and
/// neither drops below zero.
pub proof fn lemma_counts_bounds(n: &PointerByteNode, b: int)
    ensures
        0 <= n.count_children_below(b) <= n.size_below(b),
    decreases n, b,
{
    if b > 0 {
        lemma_counts_bounds(n, b - 1);
        assert(n.count_children_below(b) == n.count_children_below(b - 1)
            + if n.has_child(b - 1) {
            1int
        } else {
            0int
        });
        assert(n.size_below(b) == n.size_below(b - 1) + if n.has_child(b - 1) {
            n.child(b - 1).spec_tree_size()
        } else {
            0int
        });
        if n.has_child(b - 1) {
            lemma_counts_bounds(&n.child(b - 1), 256);
            assert(n.child(b - 1).spec_tree_size() == 1 + n.child(b - 1).size_below(256));
        }
    } else {
        assert(n.count_children_below(b) == 0);
        assert(n.size_below(b) == 0);
    }
}

/// Every subtree holds at least its own root.
pub proof fn lemma_tree_size_at_least_one(n: &PointerByteNode)
    ensures
        n.spec_tree_size() >= 1,
{
    lemma_counts_bounds(n, 256);
}

/// Subtree counts grow monotonically in the byte bound.
pub proof fn lemma_counts_mono(n: &PointerByteNode, b1: int, b2: int)
    requires
        b1 <= b2,
    ensures
        n.count_children_below(b1) <= n.count_children_below(b2),
        n.size_below(b1) <= n.size_below(b2),
    decreases b2 - b1,
{
    if b1 < b2 {
        lemma_counts_mono(n, b1, b2 - 1);
        if n.has_child(b2 - 1) {
            lemma_tree_size_at_least_one(&n.child(b2 - 1));
        }
    }
}

/// The flat, immutable form of the trie: three same-length arrays indexed by
/// node id.  Node 0 is the root; the children of the node at offset `n` sit
/// in one contiguous block that starts at `children_start[n]`, in ascending
/// byte order, so the child for byte `b` sits at
/// `children_start[n] + rank(nodes[n], b)`.
#[derive(Debug, PartialEq, Eq, Default)]
pub struct ByteTree {
    pub values: Vec<u64>,
    pub children_start: Vec<usize>,
    pub nodes: Vec<ByteSet>,
}

/// The record at offset `off` of the flat tree, together with everything the
/// records of its child block reach, spells out exactly the subtree `n`.
/// Each child record's own child-block start is the running-offset value the
/// flattening reserves: right behind this node's child block, advanced by the
/// subtree sizes of the earlier siblings.  That fixes the whole layout, the
/// blocks of leaves included, so the blocks of distinct nodes never overlap.
pub open spec fn flat_represents(t: ByteTree, off: int, n: PointerByteNode) -> bool
    decreases n,
{
    &&& 0 <= off < t.values@.len()
    &&& off < t.children_start@.len()
    &&& off < t.nodes@.len()
    &&& t.values@[off] == n.spec_value()
    &&& forall|b: int| 0 <= b < 256 ==> (t.nodes@[off].spec_includes(b) <==> n.has_child(b))
    &&& forall|b: int|
        0 <= b < 256 && n.has_child(b) ==> off < t.children_start@[off]
            + t.nodes@[off].rank_below(b)
    &&& forall|b: int|
        0 <= b < 256 && n.has_child(b) ==> t.children_start@[t.children_start@[off]
            + t.nodes@[off].rank_below(b)] == t.children_start@[off] + n.count_children_below(256)
            + n.size_below(b) - n.count_children_below(b)
    &&& forall|b: int|
        #![trigger n.child(b)]
        0 <= b < 256 && n.has_child(b) ==> flat_represents(
            t,
            t.children_start@[off] + t.nodes@[off].rank_below(b),
            n.child(b),
        )
}

/// Structural equality of build-time tries: same values, same child bytes,
/// equal subtrees.
pub open spec fn node_equiv(a: PointerByteNode, b: PointerByteNode) -> bool
    decreases a,
{
    &&& a.spec_value() == b.spec_value()
    &&& forall|i: int| 0 <= i < 256 ==> (a.has_child(i) <==> b.has_child(i))
    &&& forall|i: int|
        #![trigger a.child(i)]
        0 <= i < 256 && a.has_child(i) ==> node_equiv(a.child(i), b.child(i))
}

/// A flat representation survives appending records at the end of the
/// arrays.
pub proof fn lemma_flat_represents_extend(
    t1: ByteTree,
    t2: ByteTree,
    off: int,
    n: PointerByteNode,
)
    requires
        flat_represents(t1, off, n),
        t1.values@.len() <= t2.values@.len(),
        t1.children_start@.len() <= t2.children_start@.len(),
        t1.nodes@.len() <= t2.nodes@.len(),
        forall|i: int| 0 <= i < t1.values@.len() ==> t2.values@[i] == t1.values@[i],
        forall|i: int|
            0 <= i < t1.children_start@.len() ==> t2.children_start@[i] == t1.children_start@[i],
        forall|i: int| 0 <= i < t1.nodes@.len() ==> t2.nodes@[i] == t1.nodes@[i],
    ensures
        flat_represents(t2, off, n),
    decreases n,
{
    assert(t2.values@[off] == t1.values@[off]);
    assert(t2.children_start@[off] == t1.children_start@[off]);
    assert(t2.nodes@[off] == t1.nodes@[off]);
    assert forall|b: int| 0 <= b < 256 implies (t2.nodes@[off].spec_includes(b) <==> n.has_child(
        b,
    )) by {
        assert(t1.nodes@[off].spec_includes(b) <==> n.has_child(b));
    }
    assert forall|b: int|
        0 <= b < 256 && n.has_child(b) implies off < t2.children_start@[off]
            + t2.nodes@[off].rank_below(b) by {
        assert(t1.nodes@[off].rank_below(b) == t2.nodes@[off].rank_below(b));
    }
    assert forall|b: int|
        0 <= b < 256 && n.has_child(b) implies t2.children_start@[t2.children_start@[off]
            + t2.nodes@[off].rank_below(b)] == t2.children_start@[off]
            + n.count_children_below(256) + n.size_below(b) - n.count_children_below(b) by {
        assert(t1.nodes@[off].rank_below(b) == t2.nodes@[off].rank_below(b));
        let co = t1.children_start@[off] + t1.nodes@[off].rank_below(b);
        assert(flat_represents(t1, co, n.child(b)));
        assert(t2.children_start@[co] == t1.children_start@[co]);
    }
    assert forall|b: int|
        #![trigger n.child(b)]
        0 <= b < 256 && n.has_child(b) implies flat_represents(
        t2,
        t2.children_start@[off] + t2.nodes@[off].rank_below(b),
        n.child(b),
    ) by {
        let co1 = t1.children_start@[off] + t1.nodes@[off].rank_below(b);
        assert(flat_represents(t1, co1, n.child(b)));
        lemma_flat_represents_extend(t1, t2, co1, n.child(b));
        assert(t2.children_start@[off] + t2.nodes@[off].rank_below(b) == co1);
    }
}

/// The number of children in a byte range never exceeds the number of nodes
/// in the subtrees hanging off that range.
pub proof fn lemma_counts_range(n: &PointerByteNode, b1: int, b2: int)
    requires
        b1 <= b2,
    ensures
        n.count_children_below(b2) - n.count_children_below(b1) <= n.size_below(b2)
            - n.size_below(b1),
    decreases b2 - b1,
{
    if b1 < b2 {
        lemma_counts_range(n, b1, b2 - 1);
        if n.has_child(b2 - 1) {
            lemma_tree_size_at_least_one(&n.child(b2 - 1));
        }
    }
}

/// Emits the flat records of `node`'s children right at the end of the tree
/// arrays, reserving each child's own child block with a running offset, and
/// only then recurses into the children so each block lands where it was
/// reserved.
pub fn append_children(curr_offset: usize, tree: &mut ByteTree, node: &PointerByteNode)
    requires
        old(tree).values@.len() == curr_offset,
        old(tree).children_start@.len() == curr_offset,
        old(tree).nodes@.len() == curr_offset,
        curr_offset + node.spec_tree_size() - 1 <= usize::MAX,
    ensures
        final(tree).values@.len() == curr_offset + node.spec_tree_size() - 1,
        final(tree).children_start@.len() == curr_offset + node.spec_tree_size() - 1,
        final(tree).nodes@.len() == curr_offset + node.spec_tree_size() - 1,
        forall|i: int| 0 <= i < curr_offset ==> final(tree).values@[i] == old(tree).values@[i],
        forall|i: int|
            0 <= i < curr_offset ==> final(tree).children_start@[i] == old(
                tree,
            ).children_start@[i],
        forall|i: int| 0 <= i < curr_offset ==> final(tree).nodes@[i] == old(tree).nodes@[i],
        forall|b: int|
            0 <= b < 256 && node.has_child(b) ==> final(tree).children_start@[curr_offset
                + node.count_children_below(b)] == curr_offset + node.count_children_below(256)
                + node.size_below(b) - node.count_children_below(b),
        forall|b: int|
            #![trigger node.child(b)]
            0 <= b < 256 && node.has_child(b) ==> flat_represents(
                *final(tree),
                curr_offset + node.count_children_below(b),
                node.child(b),
            ),
    decreases *node,
{
    proof {
        use_type_invariant(node);
        lemma_counts_bounds(node, 256);
        lemma_tree_size_at_least_one(node);
    }
    let num_children = node.num_children();
    let ghost t0 = *tree;
    let ghost size = node.spec_tree_size();
    let mut child_offset: usize = curr_offset + num_children;
    let mut i: usize = 0;
    while i < 256
        invariant
            i <= 256,
            node.children@.len() == 256,
            num_children == node.count_children_below(256),
            curr_offset + size - 1 <= usize::MAX,
            size == node.spec_tree_size(),
            t0.values@.len() == curr_offset,
            t0.children_start@.len() == curr_offset,
            t0.nodes@.len() == curr_offset,
            tree.values@.len() == curr_offset + node.count_children_below(i as int),
            tree.children_start@.len() == tree.values@.len(),
            tree.nodes@.len() == tree.values@.len(),
            child_offset == curr_offset + num_children + node.size_below(i as int)
                - node.count_children_below(i as int),
            forall|k: int| 0 <= k < curr_offset ==> tree.values@[k] == t0.values@[k],
            forall|k: int|
                0 <= k < curr_offset ==> tree.children_start@[k] == t0.children_start@[k],
            forall|k: int| 0 <= k < curr_offset ==> tree.nodes@[k] == t0.nodes@[k],
            forall|b: int|
                #![trigger node.child(b)]
                0 <= b < i && node.has_child(b) ==> record_matches(
                    *tree,
                    curr_offset + node.count_children_below(b),
                    node.child(b),
                    curr_offset + num_children + node.size_below(b)
                        - node.count_children_below(b),
                ),
        decreases 256 - i,
    {
        proof {
            lemma_counts_bounds(node, i as int);
            lemma_counts_mono(node, i as int, 256);
            lemma_counts_range(node, i as int, 256);
            lemma_counts_mono(node, i as int + 1, 256);
            lemma_counts_range(node, i as int + 1, 256);
            lemma_counts_bounds(node, i as int + 1);
        }
        if let Some(subnode) = &node.children[i] {
            proof {
                lemma_tree_size_at_least_one(subnode);
            }
            tree.nodes.push(subnode.to_byteset());
            tree.children_start.push(child_offset);
            tree.values.push(subnode.value());
            let sz = subnode.tree_size();
            child_offset = child_offset - 1 + sz;
        }
        i = i + 1;
    }
    let ghost t1 = *tree;
    let mut child_offset: usize = curr_offset + num_children;
    let mut i: usize = 0;
    while i < 256
        invariant
            i <= 256,
            node.children@.len() == 256,
            num_children == node.count_children_below(256),
            curr_offset + size - 1 <= usize::MAX,
            size == node.spec_tree_size(),
            t1.values@.len() == curr_offset + num_children,
            t1.children_start@.len() == curr_offset + num_children,
            t1.nodes@.len() == curr_offset + num_children,
            tree.values@.len() == curr_offset + num_children + node.size_below(i as int)
                - node.count_children_below(i as int),
            tree.children_start@.len() == tree.values@.len(),
            tree.nodes@.len() == tree.values@.len(),
            child_offset == tree.values@.len(),
            forall|k: int| 0 <= k < curr_offset + num_children ==> tree.values@[k] == t1.values@[k],
            forall|k: int|
                0 <= k < curr_offset + num_children ==> tree.children_start@[k]
                    == t1.children_start@[k],
            forall|k: int|
                0 <= k < curr_offset + num_children ==> tree.nodes@[k] == t1.nodes@[k],
            forall|k: int| 0 <= k < curr_offset ==> t1.values@[k] == t0.values@[k],
            forall|k: int| 0 <= k < curr_offset ==> t1.children_start@[k] == t0.children_start@[k],
            forall|k: int| 0 <= k < curr_offset ==> t1.nodes@[k] == t0.nodes@[k],
            t0.values@.len() == curr_offset,
            t0.children_start@.len() == curr_offset,
            t0.nodes@.len() == curr_offset,
            forall|b: int|
                #![trigger node.child(b)]
                0 <= b < 256 && node.has_child(b) ==> record_matches(
                    t1,
                    curr_offset + node.count_children_below(b),
                    node.child(b),
                    curr_offset + num_children + node.size_below(b)
                        - node.count_children_below(b),
                ),
            forall|b: int|
                #![trigger node.child(b)]
                0 <= b < i && node.has_child(b) ==> flat_represents(
                    *tree,
                    curr_offset + node.count_children_below(b),
                    node.child(b),
                ),
        decreases 256 - i,
    {
        proof {
            lemma_counts_bounds(node, i as int);
            lemma_counts_mono(node, i as int, 256);
            lemma_counts_range(node, i as int, 256);
            lemma_counts_mono(node, i as int + 1, 256);
            lemma_counts_range(node, i as int + 1, 256);
            lemma_counts_bounds(node, i as int + 1);
        }
        let ghost t_prev = *tree;
        if let Some(subnode) = &node.children[i] {
            proof {
                lemma_tree_size_at_least_one(subnode);
            }
            append_children(child_offset, tree, subnode);
            proof {
                let p = curr_offset + node.count_children_below(i as int);
                assert(record_matches(t1, p, node.child(i as int), child_offset as int));
                assert(tree.values@[p] == t1.values@[p]);
                assert(tree.children_start@[p] == t1.children_start@[p]);
                assert(tree.nodes@[p] == t1.nodes@[p]);
                assert(tree.children_start@[p] == child_offset);
                assert forall|c: int|
                    0 <= c < 256 implies (tree.nodes@[p].spec_includes(c) <==> node.child(
                    i as int,
                ).has_child(c)) by {
                    assert(t1.nodes@[p].spec_includes(c) <==> node.child(i as int).has_child(c));
                }
                assert forall|c: int|
                    0 <= c < 256 && node.child(i as int).has_child(c) implies p
                    < tree.children_start@[p] + tree.nodes@[p].rank_below(c) by {
                    assert(tree.nodes@[p].rank_below(c) == node.child(
                        i as int,
                    ).count_children_below(c));
                    lemma_counts_bounds(&node.child(i as int), c);
                }
                assert forall|c: int|
                    0 <= c < 256 && node.child(i as int).has_child(c) implies tree.children_start@[
                tree.children_start@[p] + tree.nodes@[p].rank_below(c)] == tree.children_start@[p]
                    + node.child(i as int).count_children_below(256) + node.child(
                    i as int,
                ).size_below(c) - node.child(i as int).count_children_below(c) by {
                    assert(tree.nodes@[p].rank_below(c) == node.child(
                        i as int,
                    ).count_children_below(c));
                    assert(tree.children_start@[child_offset + node.child(
                        i as int,
                    ).count_children_below(c)] == child_offset + node.child(
                        i as int,
                    ).count_children_below(256) + node.child(i as int).size_below(c) - node.child(
                        i as int,
                    ).count_children_below(c));
                }
                assert forall|c: int|
                    #![trigger node.child(i as int).child(c)]
                    0 <= c < 256 && node.child(i as int).has_child(c) implies flat_represents(
                    *tree,
                    tree.children_start@[p] + tree.nodes@[p].rank_below(c),
                    node.child(i as int).child(c),
                ) by {
                    assert(tree.nodes@[p].rank_below(c) == node.child(
                        i as int,
                    ).count_children_below(c));
                    assert(flat_represents(
                        *tree,
                        child_offset + node.child(i as int).count_children_below(c),
                        node.child(i as int).child(c),
                    ));
                }
                assert(flat_represents(*tree, p, node.child(i as int)));
                assert forall|b: int|
                    #![trigger node.child(b)]
                    0 <= b < i && node.has_child(b) implies flat_represents(
                    *tree,
                    curr_offset + node.count_children_below(b),
                    node.child(b),
                ) by {
                    lemma_flat_represents_extend(
                        t_prev,
                        *tree,
                        curr_offset + node.count_children_below(b),
                        node.child(b),
                    );
                }
            }
            child_offset = tree.values.len();
        }
        i = i + 1;
    }
    proof {
        assert forall|b: int|
            0 <= b < 256 && node.has_child(b) implies tree.children_start@[curr_offset
                + node.count_children_below(b)] == curr_offset + node.count_children_below(256)
                + node.size_below(b) - node.count_children_below(b) by {
            lemma_counts_mono(node, b + 1, 256);
            lemma_counts_bounds(node, b);
            assert(record_matches(
                t1,
                curr_offset + node.count_children_below(b),
                node.child(b),
                curr_offset + num_children + node.size_below(b) - node.count_children_below(b),
            ));
            assert(node.count_children_below(b + 1) == node.count_children_below(b) + 1);
        }
    }
}

impl PointerByteNode {
    /// Flattens the build-time trie into its pointer-free form.  The root is
    /// record 0 and its child block starts right behind it, at offset 1.
    pub fn finalize(&self) -> (r: ByteTree)
        requires
            self.spec_tree_size() <= usize::MAX,
        ensures
            r.values@.len() == self.spec_tree_size(),
            r.children_start@.len() == self.spec_tree_size(),
            r.nodes@.len() == self.spec_tree_size(),
            r.children_start@[0] == 1,
            flat_represents(r, 0, *self),
    {
        proof {
            lemma_tree_size_at_least_one(self);
        }
        let node_rep = self.to_byteset();
        let ghost rep = node_rep;
        let mut root_tree = ByteTree {
            values: vec![self.value()],
            children_start: vec![1],
            nodes: vec![node_rep],
        };
        append_children(1, &mut root_tree, self);
        proof {
            let t = root_tree;
            assert(t.nodes@[0] == rep);
            assert forall|b: int|
                0 <= b < 256 && self.has_child(b) implies 0 < t.children_start@[0]
                    + t.nodes@[0].rank_below(b) by {
                lemma_counts_bounds(self, b);
            }
            assert forall|b: int|
                0 <= b < 256 && self.has_child(b) implies t.children_start@[t.children_start@[0]
                    + t.nodes@[0].rank_below(b)] == t.children_start@[0]
                    + self.count_children_below(256) + self.size_below(b)
                    - self.count_children_below(b) by {
                assert(t.nodes@[0].rank_below(b) == self.count_children_below(b));
                assert(t.children_start@[1 + self.count_children_below(b)] == 1
                    + self.count_children_below(256) + self.size_below(b)
                    - self.count_children_below(b));
            }
            assert forall|b: int|
                #![trigger self.child(b)]
                0 <= b < 256 && self.has_child(b) implies flat_represents(
                t,
                t.children_start@[0] + t.nodes@[0].rank_below(b),
                self.child(b),
            ) by {
                assert(t.nodes@[0].rank_below(b) == self.count_children_below(b));
                assert(flat_represents(t, 1 + self.count_children_below(b), self.child(b)));
            }
        }
        root_tree
    }
}

/// A lightweight traversal cursor: a flat tree and a current node offset.
/// Stepping never mutates; it hands back a new cursor.
#[derive(Debug, PartialEq, Eq)]
pub struct ByteTreeWalker<'a> {
    tree: &'a ByteTree,
    curr_offset: usize,
}

impl ByteTree {
    /// A cursor placed at the root of the flat tree.
    pub fn walker<'a>(&'a self) -> (r: ByteTreeWalker<'a>)
        ensures
            r.spec_tree() == *self,
            r.spec_offset() == 0,
    {
        ByteTreeWalker { tree: self, curr_offset: 0 }
    }
}

impl<'a> ByteTreeWalker<'a> {
    /// The flat tree the cursor walks.
    pub closed spec fn spec_tree(&self) -> ByteTree {
        *self.tree
    }

    /// The offset of the record the cursor stands on.
    pub closed spec fn spec_offset(&self) -> int {
        self.curr_offset as int
    }

    /// Follows the edge for byte `id`: the cursor for the child record when
    /// the edge exists, `None` when the trie has no edge for that byte here.
    pub fn step(&self, id: usize) -> (r: Option<ByteTreeWalker<'a>>)
        requires
            id < 256,
            self.spec_offset() < self.spec_tree().nodes@.len(),
            self.spec_offset() < self.spec_tree().children_start@.len(),
            self.spec_tree().nodes@[self.spec_offset()].spec_includes(id as int)
                ==> self.spec_tree().children_start@[self.spec_offset()] + self.spec_tree(
            ).nodes@[self.spec_offset()].rank_below(id as int) <= usize::MAX,
        ensures
            r is Some <==> self.spec_tree().nodes@[self.spec_offset()].spec_includes(id as int),
            r is Some ==> r->Some_0.spec_tree() == self.spec_tree(),
            r is Some ==> r->Some_0.spec_offset() == self.spec_tree().children_start@[self.spec_offset()]
                + self.spec_tree().nodes@[self.spec_offset()].rank_below(id as int),
    {
        match self.tree.nodes[self.curr_offset].index(id) {
            Some(local_index) => {
                proof {
                    crate::bitset::lemma_rank_below_bounds(
                        &self.tree.nodes@[self.curr_offset as int],
                        id as int,
                    );
                }
                let child_block_start = self.tree.children_start[self.curr_offset];
                Some(
                    ByteTreeWalker {
                        tree: self.tree,
                        curr_offset: child_block_start + (local_index as usize),
                    },
                )
            },
            None => None,
        }
    }

    /// The child bitmap of the record the cursor stands on.
    pub fn curr_node(&self) -> (r: &ByteSet)
        requires
            self.spec_offset() < self.spec_tree().nodes@.len(),
        ensures
            *r == self.spec_tree().nodes@[self.spec_offset()],
    {
        &self.tree.nodes[self.curr_offset]
    }

    /// The token value of the record the cursor stands on.
    pub fn value(&self) -> (r: u64)
        requires
            self.spec_offset() < self.spec_tree().values@.len(),
        ensures
            r == self.spec_tree().values@[self.spec_offset()],
    {
        self.tree.values[self.curr_offset]
    }

    /// Rebuilds the build-time trie below the cursor by walking every defined
    /// path: the inverse of `finalize`.
    pub fn to_inefficient(self) -> (r: PointerByteNode)
        requires
            exists|n: PointerByteNode|
                flat_represents(self.spec_tree(), self.spec_offset(), n),
        ensures
            forall|n: PointerByteNode|
                flat_represents(self.spec_tree(), self.spec_offset(), n) ==> node_equiv(r, n),
        decreases self.spec_tree().values@.len() - self.spec_offset(),
    {
        let ghost t = self.spec_tree();
        let ghost off = self.spec_offset();
        let ghost w = choose|n: PointerByteNode| flat_represents(t, off, n);
        let total_len = self.tree.values.len();
        let mut ptr_node = PointerByteNode::new(self.value());
        let mut i: usize = 0;
        while i < 256
            invariant
                i <= 256,
                flat_represents(t, off, w),
                total_len == t.values@.len(),
                t == self.spec_tree(),
                off == self.spec_offset(),
                ptr_node.spec_value() == w.spec_value(),
                forall|j: int| i <= j < 256 ==> !ptr_node.has_child(j),
                forall|j: int| 0 <= j < i ==> (ptr_node.has_child(j) <==> w.has_child(j)),
                forall|j: int, n2: PointerByteNode|
                    #![trigger node_equiv(ptr_node.child(j), n2)]
                    0 <= j < i && w.has_child(j) && flat_represents(
                        t,
                        t.children_start@[off] + t.nodes@[off].rank_below(j),
                        n2,
                    ) ==> node_equiv(ptr_node.child(j), n2),
            decreases 256 - i,
        {
            let ghost co = t.children_start@[off] + t.nodes@[off].rank_below(i as int);
            proof {
                if w.has_child(i as int) {
                    assert(flat_represents(t, co, w.child(i as int)));
                    assert(co < t.values@.len());
                }
            }
            if let Some(sub) = self.step(i) {
                let child = sub.to_inefficient();
                let ghost before = ptr_node;
                ptr_node.insert_child(i, child);
                proof {
                    assert forall|j: int, n2: PointerByteNode|
                        #![trigger node_equiv(ptr_node.child(j), n2)]
                        0 <= j < i + 1 && w.has_child(j) && flat_represents(
                            t,
                            t.children_start@[off] + t.nodes@[off].rank_below(j),
                            n2,
                        ) implies node_equiv(ptr_node.child(j), n2) by {
                        if j == i {
                            assert(node_equiv(child, n2));
                        } else {
                            assert(ptr_node.child(j) == before.child(j));
                            assert(node_equiv(before.child(j), n2));
                        }
                    }
                }
            }
            i = i + 1;
        }
        proof {
            assert forall|n: PointerByteNode| flat_represents(t, off, n) implies node_equiv(
                ptr_node,
                n,
            ) by {
                assert(ptr_node.spec_value() == n.spec_value());
                assert forall|j: int| 0 <= j < 256 implies (ptr_node.has_child(j) <==> n.has_child(
                    j,
                )) by {
                    assert(t.nodes@[off].spec_includes(j) <==> n.has_child(j));
                    assert(t.nodes@[off].spec_includes(j) <==> w.has_child(j));
                }
                assert forall|j: int|
                    #![trigger ptr_node.child(j)]
                    0 <= j < 256 && ptr_node.has_child(j) implies node_equiv(
                    ptr_node.child(j),
                    n.child(j),
                ) by {
                    assert(flat_represents(
                        t,
                        t.children_start@[off] + t.nodes@[off].rank_below(j),
                        n.child(j),
                    ));
                }
                assert(node_equiv(ptr_node, n));
            }
        }
        ptr_node
    }
}

/// The flat form pins the trie down: any two tries that one offset of one
/// flat tree represents are equal in structure and values.  With
/// `finalize`'s guarantee that the flat tree represents the trie it came
/// from, traversing every defined path, as `to_inefficient` does,
/// reconstructs that trie.
pub proof fn lemma_flat_represents_unique(
    t: ByteTree,
    off: int,
    n1: PointerByteNode,
    n2: PointerByteNode,
)
    requires
        flat_represents(t, off, n1),
        flat_represents(t, off, n2),
    ensures
        node_equiv(n1, n2),
    decreases n1,
{
    assert forall|b: int| 0 <= b < 256 implies (n1.has_child(b) <==> n2.has_child(b)) by {
        assert(t.nodes@[off].spec_includes(b) <==> n1.has_child(b));
        assert(t.nodes@[off].spec_includes(b) <==> n2.has_child(b));
    }
    assert forall|b: int|
        #![trigger n1.child(b)]
        0 <= b < 256 && n1.has_child(b) implies node_equiv(n1.child(b), n2.child(b)) by {
        let co = t.children_start@[off] + t.nodes@[off].rank_below(b);
        assert(flat_represents(t, co, n1.child(b)));
        assert(flat_represents(t, co, n2.child(b)));
        lemma_flat_represents_unique(t, co, n1.child(b), n2.child(b));
    }
}

/// The three entries of one flat record match one trie node, with its child
/// block reserved at `start`.
pub open spec fn record_matches(t: ByteTree, p: int, n: PointerByteNode, start: int) -> bool {
    &&& 0 <= p < t.values@.len()
    &&& p < t.children_start@.len()
    &&& p < t.nodes@.len()
    &&& t.values@[p] == n.spec_value()
    &&& t.children_start@[p] == start
    &&& p < start
    &&& forall|c: int| 0 <= c < 256 ==> (t.nodes@[p].spec_includes(c) <==> n.has_child(c))
    &&& forall|c: int| t.nodes@[p].rank_below(c) == n.count_children_below(c)
}

} // verus!
