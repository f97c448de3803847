//! The in-memory Merkle AVL tree: nodes that hold a key, a value and the
//! hash of the pair, linked to their children together with the children's
//! hashes; and the creation of proofs from it.
use vstd::prelude::*;

use crate::bytes::{compare, copy_bytes, lemma_lex_order, lex_lt, Order};
use crate::error::Error;
use crate::hash::{kv_hash, kv_hash_spec, kv_hashable, node_hash, node_hash_spec, null_hash, null_hash_spec};
use crate::proofs::query::{item_order, key_item, key_item_v, sorted_items, items_view, QueryItem, QueryItemV};
use crate::error::Fault;
use crate::proofs::tree::{
    attach_spec, child_hash_spec, exec_join, exec_op, execute_spec, init_state, leaf, lemma_run_ops_concat, run_ops,
    tree_hash_spec, ExecState, TreeV,
};
use crate::proofs::encoding::{all_encodable, encodable, lemma_decode_stream_ops_bytes, ops_bytes};
use crate::proofs::query::{lemma_verify_run_machine, verify_init, verify_run, verify_spec};
use crate::proofs::{ops_view, Node, NodeV, Op, OpV};

verus! {

/// A reference from a node to one of its children.
pub enum Link {
    /// A child that was attached or changed and whose hash has not been
    /// computed yet.
    Modified { pending_writes: usize, child_heights: (u8, u8), tree: Tree },
    /// A child held in memory, with its hash.
    Loaded { hash: [u8; 32], child_heights: (u8, u8), tree: Tree },
}

/// A node of the tree, and the subtrees below it.
pub struct Tree {
    inner: Box<TreeInner>,
}

struct TreeInner {
    key: Vec<u8>,
    value: Vec<u8>,
    kv_hash: [u8; 32],
    left: Option<Link>,
    right: Option<Link>,
}

/// The value of a tree.
pub struct TreeS {
    pub key: Seq<u8>,
    pub value: Seq<u8>,
    pub kv_hash: Seq<u8>,
    pub left: Option<LinkS>,
    pub right: Option<LinkS>,
}

/// The value of a link: whether its hash awaits a commit, how many writes
/// a commit owes below it, its hash once committed, the heights of its
/// tree's children and the tree itself.
pub struct LinkS {
    pub modified: bool,
    pub pending_writes: nat,
    pub hash: Seq<u8>,
    pub child_heights: (u8, u8),
    pub tree: Box<TreeS>,
}

/// The value of a tree.
pub closed spec fn tree_s(t: Tree) -> TreeS
    decreases t,
{
    TreeS {
        key: t.inner.key@,
        value: t.inner.value@,
        kv_hash: t.inner.kv_hash@,
        left: link_s(t.inner.left),
        right: link_s(t.inner.right),
    }
}

/// The value of an optional link.
pub open spec fn link_s(l: Option<Link>) -> Option<LinkS>
    decreases l,
{
    match l {
        Some(Link::Modified { pending_writes, child_heights, tree }) => Some(
            LinkS { modified: true, pending_writes: pending_writes as nat, hash: Seq::empty(), child_heights, tree: Box::new(tree_s(tree)) },
        ),
        Some(Link::Loaded { hash, child_heights, tree }) => Some(
            LinkS { modified: false, pending_writes: 0, hash: hash@, child_heights, tree: Box::new(tree_s(tree)) },
        ),
        None => None,
    }
}

impl View for Tree {
    type V = TreeS;

    open spec fn view(&self) -> TreeS {
        tree_s(*self)
    }
}

impl TreeS {
    /// The link on the given side.
    pub open spec fn link(self, left: bool) -> Option<LinkS> {
        if left {
            self.left
        } else {
            self.right
        }
    }
}

/// The hash recorded for a link, or the null hash when there is none.
pub open spec fn link_hash(l: Option<LinkS>) -> Seq<u8> {
    match l {
        Some(l) => l.hash,
        None => null_hash_spec(),
    }
}

/// The hash of a node: its key/value hash and its children's recorded
/// hashes.
pub open spec fn tree_hash(t: TreeS) -> Seq<u8> {
    node_hash_spec(t.kv_hash, link_hash(t.left), link_hash(t.right))
}

/// Whether no link of the tree, at any depth, is `Modified`.
pub open spec fn committed(t: TreeS) -> bool
    decreases t,
{
    &&& match t.left {
        Some(l) => !l.modified && committed(*l.tree),
        None => true,
    }
    &&& match t.right {
        Some(l) => !l.modified && committed(*l.tree),
        None => true,
    }
}

/// Whether every node's key/value hash is the hash of its pair, and every
/// link's hash is the hash of the tree it points to.
pub open spec fn consistent(t: TreeS) -> bool
    decreases t,
{
    &&& kv_hashable(t.key, t.value)
    &&& t.kv_hash == kv_hash_spec(t.key, t.value)
    &&& match t.left {
        Some(l) => l.hash == tree_hash(*l.tree) && consistent(*l.tree),
        None => true,
    }
    &&& match t.right {
        Some(l) => l.hash == tree_hash(*l.tree) && consistent(*l.tree),
        None => true,
    }
}

/// Whether `k` is a key of the tree.
pub open spec fn has_key(t: TreeS, k: Seq<u8>) -> bool
    decreases t,
{
    ||| t.key == k
    ||| match t.left {
        Some(l) => has_key(*l.tree, k),
        None => false,
    }
    ||| match t.right {
        Some(l) => has_key(*l.tree, k),
        None => false,
    }
}

/// Whether the keys are ordered: every key on the left of a node is less
/// than the node's key, and every key on its right is greater.
pub open spec fn ordered(t: TreeS) -> bool
    decreases t,
{
    &&& match t.left {
        Some(l) => ordered(*l.tree) && forall|k: Seq<u8>| has_key(*l.tree, k) ==> lex_lt(k, t.key),
        None => true,
    }
    &&& match t.right {
        Some(l) => ordered(*l.tree) && forall|k: Seq<u8>| has_key(*l.tree, k) ==> lex_lt(t.key, k),
        None => true,
    }
}

/// The height recorded by a link: one more than the taller of the child's
/// children.
pub open spec fn link_height(l: Option<LinkS>) -> nat {
    match l {
        Some(l) => (1 + if l.child_heights.0 >= l.child_heights.1 {
            l.child_heights.0
        } else {
            l.child_heights.1
        }) as nat,
        None => 0,
    }
}

/// Commits a tree: every `Modified` link becomes a loaded link carrying the
/// hash of its (committed) subtree.
pub open spec fn commit_spec(t: TreeS) -> TreeS
    decreases t,
{
    TreeS {
        key: t.key,
        value: t.value,
        kv_hash: t.kv_hash,
        left: commit_link(t.left),
        right: commit_link(t.right),
    }
}

/// Commits a link.
pub open spec fn commit_link(l: Option<LinkS>) -> Option<LinkS>
    decreases l,
{
    match l {
        Some(l) => {
            let c = commit_spec(*l.tree);
            Some(
                LinkS {
                    modified: false,
                    pending_writes: 0,
                    hash: if l.modified {
                        tree_hash(c)
                    } else {
                        l.hash
                    },
                    child_heights: l.child_heights,
                    tree: Box::new(c),
                },
            )
        },
        None => None,
    }
}

/// Where a key falls among sorted query items: `Ok(i)` if item `i` covers
/// it, otherwise `Err(i)` where `i` is the number of items below it.
pub open spec fn search_spec(q: Seq<QueryItemV>, key: Seq<u8>) -> Result<int, int>
    decreases q.len(),
{
    if q.len() == 0 {
        Err(0)
    } else {
        match crate::proofs::query::item_order(q[0], key_item_v(key)) {
            crate::bytes::Order::Less => match search_spec(q.drop_first(), key) {
                Ok(i) => Ok(i + 1),
                Err(i) => Err(i + 1),
            },
            crate::bytes::Order::Equal => Ok(0),
            crate::bytes::Order::Greater => Err(0),
        }
    }
}

/// The items to pass to the left and to the right child of a node with key
/// `key`: an item that reaches below the key goes left, one that reaches
/// above it goes right (a range across the key goes both ways).
pub open spec fn split_query(q: Seq<QueryItemV>, key: Seq<u8>) -> (Seq<QueryItemV>, Seq<QueryItemV>) {
    match search_spec(q, key) {
        Ok(i) => (
            if lex_lt(q[i].lower, key) {
                q.take(i + 1)
            } else {
                q.take(i)
            },
            if lex_lt(key, q[i].upper) {
                q.skip(i)
            } else {
                q.skip(i + 1)
            },
        ),
        Err(i) => (q.take(i), q.skip(i)),
    }
}

/// The operator that pushes a node: its key and value where an item covers
/// its key or where the query reaches past an edge next to it, otherwise
/// only the hash of its key and value.
pub open spec fn node_op(t: TreeS, q: Seq<QueryItemV>) -> OpV
    decreases t, 1nat,
{
    let (left_q, right_q) = split_query(q, t.key);
    match search_spec(q, t.key) {
        Ok(_) => OpV::Push(NodeV::KV(t.key, t.value)),
        Err(_) => if child_proof_spec(t.left, left_q).1.1 || child_proof_spec(t.right, right_q).1.0 {
            OpV::Push(NodeV::KV(t.key, t.value))
        } else {
            OpV::Push(NodeV::KVHash(t.kv_hash))
        },
    }
}

/// The proof for a tree and a query: the operators, and whether the query
/// reaches past the tree's left edge and past its right edge.
pub open spec fn proof_spec(t: TreeS, q: Seq<QueryItemV>) -> (Seq<OpV>, (bool, bool))
    decreases t, 2nat,
{
    let (left_q, right_q) = split_query(q, t.key);
    let (lp, la) = child_proof_spec(t.left, left_q);
    let (rp, ra) = child_proof_spec(t.right, right_q);
    (join_proof(lp, node_op(t, q), rp), (la.0, ra.1))
}

/// The proof for one side of a node.
pub open spec fn child_proof_spec(l: Option<LinkS>, q: Seq<QueryItemV>) -> (Seq<OpV>, (bool, bool))
    decreases l, 0nat,
{
    if q.len() > 0 {
        match l {
            Some(l) => proof_spec(*l.tree, q),
            None => (Seq::empty(), (true, true)),
        }
    } else {
        match l {
            Some(l) => (seq![OpV::Push(NodeV::Hash(l.hash))], (false, false)),
            None => (Seq::empty(), (false, false)),
        }
    }
}

/// Whether no link reachable through the queried parts is `Modified` where
/// its hash would be needed: a link is only walked through when the query
/// on its side is non-empty.
pub open spec fn provable(t: TreeS, q: Seq<QueryItemV>) -> bool
    decreases t,
{
    let (left_q, right_q) = split_query(q, t.key);
    child_provable(t.left, left_q) && child_provable(t.right, right_q)
}

/// `provable` for one side.
pub open spec fn child_provable(l: Option<LinkS>, q: Seq<QueryItemV>) -> bool
    decreases l,
{
    match l {
        Some(l) => if q.len() > 0 {
            provable(*l.tree, q)
        } else {
            !l.modified
        },
        None => true,
    }
}

fn link_tree(l: &Link) -> (t: &Tree)
    ensures
        link_s(Some(*l)) matches Some(ls) && *ls.tree == t@,
{
    match l {
        Link::Modified { tree, .. } => tree,
        Link::Loaded { tree, .. } => tree,
    }
}

impl Link {
    /// The hash of a committed link.
    pub fn hash(&self) -> (h: [u8; 32])
        requires
            self is Loaded,
        ensures
            link_s(Some(*self)) matches Some(ls) && h@ == ls.hash,
    {
        match self {
            Link::Loaded { hash, .. } => *hash,
            Link::Modified { .. } => {
                assert(false);
                null_hash()
            },
        }
    }

    /// The heights of the linked tree's children.
    pub fn child_heights(&self) -> (h: (u8, u8))
        ensures
            link_s(Some(*self)) matches Some(ls) && h == ls.child_heights,
    {
        match self {
            Link::Loaded { child_heights, .. } => *child_heights,
            Link::Modified { child_heights, .. } => *child_heights,
        }
    }

    /// The tree the link points to.
    pub fn tree(&self) -> (t: &Tree)
        ensures
            link_s(Some(*self)) matches Some(ls) && *ls.tree == t@,
    {
        link_tree(self)
    }

    /// Whether the link's hash has not been computed yet.
    pub fn is_modified(&self) -> (r: bool)
        ensures
            link_s(Some(*self)) matches Some(ls) && r == ls.modified,
    {
        match self {
            Link::Modified { .. } => true,
            Link::Loaded { .. } => false,
        }
    }

    /// Creates a `Node::Hash` from this link. The link must be committed,
    /// since a modified link's hash has not been computed.
    pub fn to_hash_node(&self) -> (n: Node)
        requires
            self is Loaded,
        ensures
            link_s(Some(*self)) matches Some(ls) && n@ == NodeV::Hash(ls.hash),
    {
        Node::Hash(self.hash())
    }
}

impl Tree {
    /// Creates a childless node holding `key` and `value`. Fails when the
    /// key or the value is too long to hash.
    pub fn new(key: Vec<u8>, value: Vec<u8>) -> (r: Result<Tree, Error>)
        ensures
            r is Ok <==> kv_hashable(key@, value@),
            r matches Ok(t) ==> t@ == (TreeS {
                key: key@,
                value: value@,
                kv_hash: kv_hash_spec(key@, value@),
                left: None,
                right: None,
            }),
    {
        let h = kv_hash(key.as_slice(), value.as_slice())?;
        Ok(Tree { inner: Box::new(TreeInner { key, value, kv_hash: h, left: None, right: None }) })
    }

    /// Creates a node from all of its fields, as given.
    pub fn from_fields(
        key: Vec<u8>,
        value: Vec<u8>,
        kv_hash: [u8; 32],
        left: Option<Link>,
        right: Option<Link>,
    ) -> (t: Tree)
        ensures
            t@ == (TreeS {
                key: key@,
                value: value@,
                kv_hash: kv_hash@,
                left: link_s(left),
                right: link_s(right),
            }),
    {
        Tree { inner: Box::new(TreeInner { key, value, kv_hash, left, right }) }
    }

    /// The node's key.
    pub fn key(&self) -> (k: &[u8])
        ensures
            k@ == self@.key,
    {
        self.inner.key.as_slice()
    }

    /// The node's value.
    pub fn value(&self) -> (v: &[u8])
        ensures
            v@ == self@.value,
    {
        self.inner.value.as_slice()
    }

    /// The hash of the node's key/value pair.
    pub fn kv_hash(&self) -> (h: &[u8; 32])
        ensures
            h@ == self@.kv_hash,
    {
        &self.inner.kv_hash
    }

    /// The link on the given side, if any.
    pub fn link(&self, left: bool) -> (l: Option<&Link>)
        ensures
            match l {
                Some(x) => self@.link(left) == link_s(Some(*x)),
                None => self@.link(left) is None,
            },
    {
        if left {
            self.inner.left.as_ref()
        } else {
            self.inner.right.as_ref()
        }
    }

    /// The child on the given side, if any.
    pub fn child(&self, left: bool) -> (c: Option<&Tree>)
        ensures
            match c {
                Some(t) => self@.link(left) matches Some(l) && *l.tree == t@,
                None => self@.link(left) is None,
            },
    {
        match self.link(left) {
            Some(l) => Some(l.tree()),
            None => None,
        }
    }

    /// The height of the child on the given side (0 when there is none).
    pub fn child_height(&self, left: bool) -> (h: u8)
        requires
            link_height(self@.link(left)) <= u8::MAX,
        ensures
            h == link_height(self@.link(left)),
    {
        match self.link(left) {
            Some(l) => {
                let (a, b) = l.child_heights();
                if a >= b {
                    1 + a
                } else {
                    1 + b
                }
            },
            None => 0,
        }
    }

    /// Attaches `maybe_child` on the given side as a modified link (its hash
    /// is computed on commit). The side must be empty.
    pub fn attach(self, left: bool, maybe_child: Option<Tree>) -> (t: Tree)
        requires
            self@.link(left) is None,
            maybe_child matches Some(c) ==> link_height(c@.left) <= u8::MAX && link_height(c@.right)
                <= u8::MAX,
        ensures
            t@.key == self@.key,
            t@.value == self@.value,
            t@.kv_hash == self@.kv_hash,
            t@.link(!left) == self@.link(!left),
            match maybe_child {
                Some(c) => t@.link(left) == Some(
                    LinkS {
                        modified: true,
                        pending_writes: 1,
                        hash: Seq::empty(),
                        child_heights: (
                            link_height(c@.left) as u8,
                            link_height(c@.right) as u8,
                        ),
                        tree: Box::new(c@),
                    },
                ),
                None => t@.link(left) is None,
            },
    {
        let Tree { inner } = self;
        let TreeInner { key, value, kv_hash, left: l, right: r } = *inner;
        let link = match maybe_child {
            Some(c) => {
                let heights = (c.child_height(true), c.child_height(false));
                Some(Link::Modified { pending_writes: 1, child_heights: heights, tree: c })
            },
            None => None,
        };
        if left {
            Tree { inner: Box::new(TreeInner { key, value, kv_hash, left: link, right: r }) }
        } else {
            Tree { inner: Box::new(TreeInner { key, value, kv_hash, left: l, right: link }) }
        }
    }

    /// The hash of the node. Every link of the node must be committed.
    pub fn hash(&self) -> (h: [u8; 32])
        requires
            self@.left matches Some(l) ==> !l.modified,
            self@.right matches Some(l) ==> !l.modified,
        ensures
            h@ == tree_hash(self@),
    {
        let lh = match self.link(true) {
            Some(l) => l.hash(),
            None => null_hash(),
        };
        let rh = match self.link(false) {
            Some(l) => l.hash(),
            None => null_hash(),
        };
        node_hash(&self.inner.kv_hash, &lh, &rh)
    }

    /// Computes the hashes of every modified link, so that the whole tree is
    /// committed.
    pub fn commit(&mut self)
        ensures
            final(self)@ == commit_spec(old(self)@),
            committed(final(self)@),
        decreases *old(self),
    {
        let l = self.inner.left.take();
        self.inner.left = commit_link_exec(l);
        let r = self.inner.right.take();
        self.inner.right = commit_link_exec(r);
    }
}

fn commit_link_exec(l: Option<Link>) -> (r: Option<Link>)
    ensures
        link_s(r) == commit_link(link_s(l)),
        r matches Some(x) ==> x is Loaded && committed(*link_s(r)->Some_0.tree),
    decreases l,
{
    match l {
        None => None,
        Some(Link::Modified { pending_writes: _, child_heights, tree }) => {
            let mut tree = tree;
            tree.commit();
            let hash = tree.hash();
            Some(Link::Loaded { hash, child_heights, tree })
        },
        Some(Link::Loaded { hash, child_heights, tree }) => {
            let mut tree = tree;
            tree.commit();
            Some(Link::Loaded { hash, child_heights, tree })
        },
    }
}


/// The search result after skipping `n` items that all lie below the key.
pub open spec fn shift_search(r: Result<int, int>, n: int) -> Result<int, int> {
    match r {
        Ok(i) => Ok(i + n),
        Err(i) => Err(i + n),
    }
}

proof fn lemma_search_step(q: Seq<QueryItemV>, key: Seq<u8>, i: int)
    requires
        0 <= i < q.len(),
        item_order(q[i], key_item_v(key)) == Order::Less,
    ensures
        shift_search(search_spec(q.skip(i), key), i) == shift_search(
            search_spec(q.skip(i + 1), key),
            i + 1,
        ),
{
    assert(q.skip(i).drop_first() =~= q.skip(i + 1));
    assert(q.skip(i)[0] == q[i]);
}

proof fn lemma_search_bounds(q: Seq<QueryItemV>, key: Seq<u8>)
    ensures
        match search_spec(q, key) {
            Ok(i) => 0 <= i < q.len() && item_order(q[i], key_item_v(key)) == Order::Equal,
            Err(i) => 0 <= i <= q.len(),
        },
    decreases q.len(),
{
    if q.len() > 0 {
        lemma_search_bounds(q.drop_first(), key);
    }
}

/// Finds where `key` falls among the items: the first item that does not
/// lie entirely below it decides.
fn search(query: &[QueryItem], key: &QueryItem) -> (r: Result<usize, usize>)
    requires
        key@.lower == key@.upper && key@.inclusive && key@.key,
    ensures
        match r {
            Ok(i) => search_spec(items_view(query@), key@.lower) == Ok::<int, int>(i as int),
            Err(i) => search_spec(items_view(query@), key@.lower) == Err::<int, int>(i as int),
        },
{
    let ghost q = items_view(query@);
    let ghost k = key@.lower;
    assert(key@ == key_item_v(k));
    assert(q.skip(0) =~= q);
    let mut i: usize = 0;
    while i < query.len()
        invariant
            q == items_view(query@),
            key@ == key_item_v(k),
            0 <= i <= query@.len(),
            q.len() == query@.len(),
            search_spec(q, k) == shift_search(search_spec(q.skip(i as int), k), i as int),
        decreases query@.len() - i,
    {
        let o = query[i].compare(key);
        assert(query@[i as int]@ == q[i as int]);
        match o {
            Order::Less => {
                proof {
                    lemma_search_step(q, k, i as int);
                }
                i = i + 1;
            },
            Order::Equal => {
                assert(q.skip(i as int)[0] == q[i as int]);
                return Ok(i);
            },
            Order::Greater => {
                assert(q.skip(i as int)[0] == q[i as int]);
                return Err(i);
            },
        }
    }
    assert(q.skip(i as int).len() == 0);
    Err(i)
}

proof fn lemma_items_view_split(items: Seq<QueryItem>, i: int)
    requires
        0 <= i <= items.len(),
    ensures
        items_view(items.subrange(0, i)) == items_view(items).take(i),
        items_view(items.subrange(i, items.len() as int)) == items_view(items).skip(i),
{
    assert(items_view(items.subrange(0, i)) =~= items_view(items).take(i));
    assert(items_view(items.subrange(i, items.len() as int)) =~= items_view(items).skip(i));
}

/// The query made of one key item for each key.
pub open spec fn keys_items(keys: Seq<Vec<u8>>) -> Seq<QueryItemV> {
    keys.map_values(|k: Vec<u8>| key_item_v(k@))
}

/// The operators of a proof built from the left part, the node's operator
/// and the right part.
pub open spec fn join_proof(lp: Seq<OpV>, node: OpV, rp: Seq<OpV>) -> Seq<OpV> {
    let with_left = if lp.len() > 0 {
        lp.push(node).push(OpV::Parent)
    } else {
        seq![node]
    };
    if rp.len() > 0 {
        with_left + rp.push(OpV::Child)
    } else {
        with_left
    }
}

impl Tree {
    /// Generates a proof for the query items (sorted, none colliding with
    /// another). Returns the proof operators, and whether the query reaches
    /// below the tree's leftmost key and above its rightmost key.
    ///
    /// Walking into a child needs its hash only where the query on that side
    /// is empty, so every link whose hash the proof holds must be committed.
    pub fn create_proof(&self, query: &[QueryItem]) -> (r: (Vec<Op>, (bool, bool)))
        requires
            provable(self@, items_view(query@)),
        ensures
            ops_view(r.0@) == proof_spec(self@, items_view(query@)).0,
            r.1 == proof_spec(self@, items_view(query@)).1,
        decreases *self, 1nat,
    {
        let ghost q = items_view(query@);
        let node_key = key_item(copy_bytes(self.key()));
        let search = search(query, &node_key);
        proof {
            lemma_search_bounds(q, self@.key);
        }
        let (left_items, right_items) = match search {
            Ok(index) => {
                let item = &query[index];
                assert(item@ == q[index as int]);
                let lo = compare(item.lower_bound(), self.key());
                let hi = compare(item.upper_bound().0, self.key());
                proof {
                    lemma_lex_order();
                }
                let left_end = if lo == Order::Less {
                    index + 1
                } else {
                    index
                };
                let right_start = if hi == Order::Greater {
                    index
                } else {
                    index + 1
                };
                let (l, _) = query.split_at(left_end);
                let (_, r) = query.split_at(right_start);
                proof {
                    lemma_items_view_split(query@, left_end as int);
                    lemma_items_view_split(query@, right_start as int);
                }
                (l, r)
            },
            Err(index) => {
                let (l, r) = query.split_at(index);
                proof {
                    lemma_items_view_split(query@, index as int);
                }
                (l, r)
            },
        };
        let (mut proof, left_absence) = self.create_child_proof(true, left_items);
        let (mut right_proof, right_absence) = self.create_child_proof(false, right_items);
        let has_left = proof.len() > 0;
        let has_right = right_proof.len() > 0;
        let ghost lp = ops_view(proof@);
        let ghost rp = ops_view(right_proof@);
        let node = match search {
            Ok(_) => Op::Push(self.to_kv_node()),
            Err(_) => if left_absence.1 || right_absence.0 {
                Op::Push(self.to_kv_node())
            } else {
                Op::Push(self.to_kvhash_node())
            },
        };
        let ghost nv = node@;
        proof.push(node);
        if has_left {
            proof.push(Op::Parent);
        }
        if has_right {
            proof.append(&mut right_proof);
            proof.push(Op::Child);
        }
        proof {
            let out = ops_view(proof@);
            assert(out =~= join_proof(lp, nv, rp));
        }
        (proof, (left_absence.0, right_absence.1))
    }

    /// The proof for the child on one side: its own proof where the query on
    /// that side is non-empty, otherwise just its hash.
    fn create_child_proof(&self, left: bool, query: &[QueryItem]) -> (r: (Vec<Op>, (bool, bool)))
        requires
            child_provable(self@.link(left), items_view(query@)),
        ensures
            ops_view(r.0@) == child_proof_spec(self@.link(left), items_view(query@)).0,
            r.1 == child_proof_spec(self@.link(left), items_view(query@)).1,
        decreases *self, 0nat,
    {
        let link = if left {
            &self.inner.left
        } else {
            &self.inner.right
        };
        assert(link_s(*link) == self@.link(left));
        if query.len() > 0 {
            match link {
                Some(Link::Loaded { tree, .. }) => tree.create_proof(query),
                Some(Link::Modified { tree, .. }) => tree.create_proof(query),
                None => {
                    let proof: Vec<Op> = Vec::new();
                    assert(ops_view(proof@) =~= Seq::<OpV>::empty());
                    (proof, (true, true))
                },
            }
        } else {
            match link {
                Some(l) => {
                    let mut proof = Vec::new();
                    proof.push(Op::Push(l.to_hash_node()));
                    assert(ops_view(proof@) =~= seq![OpV::Push(NodeV::Hash(link_s(*link)->Some_0.hash))]);
                    (proof, (false, false))
                },
                None => {
                    let proof: Vec<Op> = Vec::new();
                    assert(ops_view(proof@) =~= Seq::<OpV>::empty());
                    (proof, (false, false))
                },
            }
        }
    }

    /// Generates a proof for a sorted list of keys, each queried as a single
    /// key item.
    pub fn create_key_proof(&self, keys: &[Vec<u8>]) -> (r: (Vec<Op>, (bool, bool)))
        requires
            provable(self@, keys_items(keys@)),
        ensures
            ops_view(r.0@) == proof_spec(self@, keys_items(keys@)).0,
            r.1 == proof_spec(self@, keys_items(keys@)).1,
    {
        let mut items: Vec<QueryItem> = Vec::new();
        let mut i: usize = 0;
        while i < keys.len()
            invariant
                0 <= i <= keys@.len(),
                items_view(items@) == keys_items(keys@).take(i as int),
            decreases keys@.len() - i,
        {
            let it = key_item(copy_bytes(keys[i].as_slice()));
            let ghost old_items = items@;
            assert(it@ == keys_items(keys@)[i as int]);
            items.push(it);
            assert(items_view(items@) =~= items_view(old_items).push(it@));
            i = i + 1;
            assert(items_view(items@) =~= keys_items(keys@).take(i as int));
        }
        assert(keys_items(keys@).take(i as int) =~= keys_items(keys@));
        self.create_proof(items.as_slice())
    }

    /// The `KV` node of this tree's root.
    pub fn to_kv_node(&self) -> (n: Node)
        ensures
            n@ == NodeV::KV(self@.key, self@.value),
    {
        Node::KV(copy_bytes(self.key()), copy_bytes(self.value()))
    }

    /// The `KVHash` node of this tree's root.
    pub fn to_kvhash_node(&self) -> (n: Node)
        ensures
            n@ == NodeV::KVHash(self@.kv_hash),
    {
        Node::KVHash(*self.kv_hash())
    }

    /// The `Hash` node of this tree's root. Its links must be committed.
    pub fn to_hash_node(&self) -> (n: Node)
        requires
            self@.left matches Some(l) ==> !l.modified,
            self@.right matches Some(l) ==> !l.modified,
        ensures
            n@ == NodeV::Hash(tree_hash(self@)),
    {
        Node::Hash(self.hash())
    }
}

/// Whether `lk`, the last key a proof run has seen, lies below every key of
/// `t`.
pub open spec fn below_keys(lk: Option<Seq<u8>>, t: TreeS) -> bool {
    match lk {
        Some(l) => forall|k: Seq<u8>| has_key(t, k) ==> lex_lt(l, k),
        None => true,
    }
}

/// What running the proof of a subtree `t` leaves: the stack grown by one
/// tree whose hash is `h`, and as last key the old one or a key of `t`.
pub open spec fn pushed_tree(s: ExecState, r: Result<ExecState, Fault>, h: Seq<u8>, t: TreeS) -> bool {
    &&& r is Ok
    &&& r->Ok_0.stack == s.stack.push(r->Ok_0.stack.last())
    &&& tree_hash_spec(r->Ok_0.stack.last()) == Some(h)
    &&& (r->Ok_0.last_key == s.last_key || (r->Ok_0.last_key matches Some(k) && has_key(t, k)))
}

proof fn lemma_child_proof_run(l: Option<LinkS>, q: Seq<QueryItemV>, s: ExecState)
    requires
        child_provable(l, q),
        l matches Some(x) ==> x.hash == tree_hash(*x.tree),
        l matches Some(x) ==> q.len() > 0 ==> pushed_tree(
            s,
            run_ops(s, proof_spec(*x.tree, q).0, true),
            x.hash,
            *x.tree,
        ),
    ensures
        child_proof_spec(l, q).0.len() == 0 <==> l is None,
        l matches Some(x) ==> pushed_tree(s, run_ops(s, child_proof_spec(l, q).0, true), x.hash, *x.tree),
{
    reveal_with_fuel(run_ops, 2);
    match l {
        Some(x) => {
            if q.len() > 0 {
                let r = run_ops(s, proof_spec(*x.tree, q).0, true);
                if proof_spec(*x.tree, q).0.len() == 0 {
                    assert(r == Ok::<ExecState, Fault>(s));
                    assert(s.stack.push(s.stack.last()).len() == s.stack.len() + 1);
                }
            } else {
                let ops = seq![OpV::Push(NodeV::Hash(x.hash))];
                assert(ops.drop_first() =~= Seq::<OpV>::empty());
                let s2 = ExecState { stack: s.stack.push(leaf(NodeV::Hash(x.hash))), last_key: s.last_key };
                assert(run_ops(s, ops, true) == Ok::<ExecState, Fault>(s2));
                assert(s2.stack.last() == leaf(NodeV::Hash(x.hash)));
            }
        },
        None => {},
    }
}

proof fn lemma_join_step(s: ExecState, below: TreeV, top: TreeV, left: bool, hc: Seq<u8>)
    requires
        s.stack.len() >= 2,
        s.stack.last() == top,
        s.stack[s.stack.len() - 2] == below,
        tree_hash_spec(if left { below } else { top }) == Some(hc),
        (if left { top } else { below }).child(left) is None,
    ensures
        exec_join(s, left, true) == Ok::<ExecState, Fault>(
            ExecState {
                stack: s.stack.subrange(0, s.stack.len() - 2).push(
                    attach_spec(if left { top } else { below }, left, leaf(NodeV::Hash(hc)))->Ok_0,
                ),
                last_key: s.last_key,
            },
        ),
        attach_spec(if left { top } else { below }, left, leaf(NodeV::Hash(hc))) is Ok,
        ({
            let p = attach_spec(if left { top } else { below }, left, leaf(NodeV::Hash(hc)))->Ok_0;
            let parent = if left { top } else { below };
            &&& p.node == parent.node
            &&& p.child(left) matches Some(c) && c.hash == hc
            &&& p.child(!left) == parent.child(!left)
        }),
{
}

/// The operators of the left part and the node of a proof.
pub open spec fn left_ops(t: TreeS, q: Seq<QueryItemV>) -> Seq<OpV> {
    let lp = child_proof_spec(t.left, split_query(q, t.key).0).0;
    if lp.len() > 0 {
        lp.push(node_op(t, q)).push(OpV::Parent)
    } else {
        seq![node_op(t, q)]
    }
}

proof fn lemma_has_key_children(t: TreeS)
    ensures
        has_key(t, t.key),
        t.left matches Some(x) ==> forall|k: Seq<u8>| has_key(*x.tree, k) ==> has_key(t, k),
        t.right matches Some(x) ==> forall|k: Seq<u8>| has_key(*x.tree, k) ==> has_key(t, k),
{
}

#[verifier::rlimit(40)]
proof fn lemma_left_part(t: TreeS, q: Seq<QueryItemV>, s: ExecState)
    requires
        consistent(t),
        ordered(t),
        provable(t, q),
        below_keys(s.last_key, t),
        t.left matches Some(x) ==> split_query(q, t.key).0.len() > 0 ==> pushed_tree(
            s,
            run_ops(s, proof_spec(*x.tree, split_query(q, t.key).0).0, true),
            x.hash,
            *x.tree,
        ),
    ensures
        run_ops(s, left_ops(t, q), true) is Ok,
        ({
            let s3 = run_ops(s, left_ops(t, q), true)->Ok_0;
            let n1 = s3.stack.last();
            &&& s3.stack == s.stack.push(n1)
            &&& n1.node == node_op(t, q)->Push_0
            &&& n1.right is None
            &&& child_hash_spec(n1.left) == link_hash(t.left)
            &&& (s3.last_key == s.last_key || s3.last_key == Some(t.key) || (s3.last_key matches Some(
                k,
            ) && t.left matches Some(x) && has_key(*x.tree, k)))
        }),
{
    let lq = split_query(q, t.key).0;
    lemma_child_proof_run(t.left, lq, s);
    let lp = child_proof_spec(t.left, lq).0;
    let s1 = if lp.len() > 0 {
        run_ops(s, lp, true)->Ok_0
    } else {
        s
    };
    assert(run_ops(s, lp, true) == Ok::<ExecState, Fault>(s1));
    assert(s1.last_key matches Some(k) ==> lex_lt(k, t.key)) by {
        lemma_has_key_children(t);
        if let Some(k) = s1.last_key {
            if s1.last_key != s.last_key {
                let x = t.left->Some_0;
                assert(has_key(*x.tree, k));
            }
        }
    }
    let node = node_op(t, q);
    let nv = node->Push_0;
    let s2 = ExecState {
        stack: s1.stack.push(leaf(nv)),
        last_key: match nv {
            NodeV::KV(k, _) => Some(k),
            _ => s1.last_key,
        },
    };
    assert(exec_op(s1, node, true) == Ok::<ExecState, Fault>(s2));
    let s3 = if lp.len() > 0 {
        let x = t.left->Some_0;
        lemma_join_step(s2, s1.stack.last(), leaf(nv), true, x.hash);
        exec_join(s2, true, true)->Ok_0
    } else {
        s2
    };
    assert(run_ops(s, left_ops(t, q), true) == Ok::<ExecState, Fault>(s3)) by {
        reveal_with_fuel(run_ops, 3);
        if lp.len() > 0 {
            assert(left_ops(t, q) =~= lp + seq![node, OpV::Parent]);
            lemma_run_ops_concat(s, lp, seq![node, OpV::Parent], true);
            assert(seq![node, OpV::Parent].drop_first() =~= seq![OpV::Parent]);
            assert(seq![OpV::Parent].drop_first() =~= Seq::<OpV>::empty());
        } else {
            assert(seq![node].drop_first() =~= Seq::<OpV>::empty());
        }
    }
    assert(s3.stack =~= s.stack.push(s3.stack.last()));
}

#[verifier::rlimit(40)]
proof fn lemma_right_part(t: TreeS, q: Seq<QueryItemV>, s: ExecState, s3: ExecState)
    requires
        consistent(t),
        provable(t, q),
        run_ops(s, left_ops(t, q), true) == Ok::<ExecState, Fault>(s3),
        s3.stack == s.stack.push(s3.stack.last()),
        s3.stack.last().node == node_op(t, q)->Push_0,
        s3.stack.last().right is None,
        child_hash_spec(s3.stack.last().left) == link_hash(t.left),
        t.right matches Some(x) ==> split_query(q, t.key).1.len() > 0 ==> pushed_tree(
            s3,
            run_ops(s3, proof_spec(*x.tree, split_query(q, t.key).1).0, true),
            x.hash,
            *x.tree,
        ),
    ensures
        run_ops(s, proof_spec(t, q).0, true) is Ok,
        ({
            let s5 = run_ops(s, proof_spec(t, q).0, true)->Ok_0;
            &&& s5.stack == s.stack.push(s5.stack.last())
            &&& tree_hash_spec(s5.stack.last()) == Some(tree_hash(t))
            &&& (s5.last_key == s3.last_key || (s5.last_key matches Some(k) && t.right matches Some(x)
                && has_key(*x.tree, k)))
        }),
{
    let rq = split_query(q, t.key).1;
    lemma_child_proof_run(t.right, rq, s3);
    let rp = child_proof_spec(t.right, rq).0;
    let ops = proof_spec(t, q).0;
    let n1 = s3.stack.last();
    let with_left = left_ops(t, q);
    assert(ops == join_proof(child_proof_spec(t.left, split_query(q, t.key).0).0, node_op(t, q), rp));
    if rp.len() > 0 {
        let x = t.right->Some_0;
        let s4 = run_ops(s3, rp, true)->Ok_0;
        lemma_join_step(s4, n1, s4.stack.last(), false, x.hash);
        let s5 = exec_join(s4, false, true)->Ok_0;
        assert(ops =~= with_left + (rp + seq![OpV::Child]));
        lemma_run_ops_concat(s, with_left, rp + seq![OpV::Child], true);
        lemma_run_ops_concat(s3, rp, seq![OpV::Child], true);
        assert(run_ops(s4, seq![OpV::Child], true) == Ok::<ExecState, Fault>(s5)) by {
            reveal_with_fuel(run_ops, 2);
            assert(seq![OpV::Child].drop_first() =~= Seq::<OpV>::empty());
        }
        assert(s5.stack =~= s.stack.push(s5.stack.last()));
    } else {
        assert(ops == with_left);
        assert(t.right is None);
    }
}

/// Running the proof that `create_proof` builds for a consistent, ordered
/// tree pushes a tree whose hash is the tree's hash.
proof fn lemma_proof_run(t: TreeS, q: Seq<QueryItemV>, s: ExecState)
    requires
        consistent(t),
        ordered(t),
        provable(t, q),
        below_keys(s.last_key, t),
    ensures
        pushed_tree(s, run_ops(s, proof_spec(t, q).0, true), tree_hash(t), t),
    decreases t,
{
    let (lq, rq) = split_query(q, t.key);
    lemma_has_key_children(t);
    if let Some(x) = t.left {
        if lq.len() > 0 {
            lemma_proof_run(*x.tree, lq, s);
        }
    }
    lemma_left_part(t, q, s);
    let s3 = run_ops(s, left_ops(t, q), true)->Ok_0;
    if let Some(x) = t.right {
        assert(below_keys(s3.last_key, *x.tree)) by {
            lemma_lex_order();
            if let Some(lk) = s3.last_key {
                assert forall|k: Seq<u8>| has_key(*x.tree, k) implies lex_lt(lk, k) by {
                    if s3.last_key == s.last_key {
                    } else if lk == t.key {
                    } else {
                        let y = t.left->Some_0;
                        assert(has_key(*y.tree, lk));
                        assert(lex_lt(lk, t.key));
                    }
                }
            }
        }
        if rq.len() > 0 {
            lemma_proof_run(*x.tree, rq, s3);
        }
    }
    lemma_right_part(t, q, s, s3);
}

/// Executing the proof that `create_proof` builds for a consistent, ordered
/// tree, and any query it can answer, succeeds and rebuilds a tree whose
/// root hash is the tree's hash.
pub proof fn lemma_proof_hash(t: TreeS, q: Seq<QueryItemV>)
    requires
        consistent(t),
        ordered(t),
        provable(t, q),
    ensures
        execute_spec(proof_spec(t, q).0, true) is Ok,
        tree_hash_spec(execute_spec(proof_spec(t, q).0, true)->Ok_0) == Some(tree_hash(t)),
{
    lemma_proof_run(t, q, init_state());
    let s2 = run_ops(init_state(), proof_spec(t, q).0, true)->Ok_0;
    assert(s2.stack.len() == 1);
}

/// Whether every hash of the tree has 32 bytes (a modified link has none
/// yet), and every key and value is short enough for the proof encoding:
/// keys below 256 bytes, values below 65,536.
pub open spec fn lens_ok(t: TreeS) -> bool
    decreases t,
{
    &&& t.kv_hash.len() == 32
    &&& t.key.len() < 256
    &&& t.value.len() < 65536
    &&& match t.left {
        Some(l) => (!l.modified ==> l.hash.len() == 32) && lens_ok(*l.tree),
        None => true,
    }
    &&& match t.right {
        Some(l) => (!l.modified ==> l.hash.len() == 32) && lens_ok(*l.tree),
        None => true,
    }
}

proof fn lemma_all_encodable_concat(a: Seq<OpV>, b: Seq<OpV>)
    requires
        all_encodable(a),
        all_encodable(b),
    ensures
        all_encodable(a + b),
{
    assert forall|i: int| 0 <= i < (a + b).len() implies encodable(#[trigger] (a + b)[i]) by {
        if i < a.len() {
            assert((a + b)[i] == a[i]);
        } else {
            assert((a + b)[i] == b[i - a.len()]);
        }
    }
}

proof fn lemma_child_encodable(l: Option<LinkS>, q: Seq<QueryItemV>)
    requires
        child_provable(l, q),
        l matches Some(x) ==> (!x.modified ==> x.hash.len() == 32),
        l matches Some(x) ==> q.len() > 0 ==> all_encodable(proof_spec(*x.tree, q).0),
    ensures
        all_encodable(child_proof_spec(l, q).0),
{
}

/// Every operator of a proof can be encoded.
pub proof fn lemma_proof_encodable(t: TreeS, q: Seq<QueryItemV>)
    requires
        provable(t, q),
        lens_ok(t),
    ensures
        all_encodable(proof_spec(t, q).0),
    decreases t,
{
    let (lq, rq) = split_query(q, t.key);
    if let Some(x) = t.left {
        if lq.len() > 0 {
            lemma_proof_encodable(*x.tree, lq);
        }
    }
    if let Some(x) = t.right {
        if rq.len() > 0 {
            lemma_proof_encodable(*x.tree, rq);
        }
    }
    lemma_child_encodable(t.left, lq);
    lemma_child_encodable(t.right, rq);
    let lp = child_proof_spec(t.left, lq).0;
    let rp = child_proof_spec(t.right, rq).0;
    let node = node_op(t, q);
    assert(encodable(node));
    let with_left = if lp.len() > 0 {
        lp.push(node).push(OpV::Parent)
    } else {
        seq![node]
    };
    assert(all_encodable(with_left)) by {
        if lp.len() > 0 {
            assert(with_left =~= lp + seq![node, OpV::Parent]);
            lemma_all_encodable_concat(lp, seq![node, OpV::Parent]);
        }
    }
    if rp.len() > 0 {
        assert(proof_spec(t, q).0 =~= with_left + (rp + seq![OpV::Child]));
        lemma_all_encodable_concat(rp, seq![OpV::Child]);
        lemma_all_encodable_concat(with_left, rp + seq![OpV::Child]);
    } else {
        assert(proof_spec(t, q).0 == with_left);
    }
}

/// A proof that `create_proof` builds for a consistent, ordered tree, once
/// encoded, is accepted by `verify` against the tree's root hash.
pub proof fn lemma_proof_verifies(t: TreeS, q: Seq<QueryItemV>)
    requires
        consistent(t),
        ordered(t),
        provable(t, q),
        lens_ok(t),
    ensures
        verify_spec(ops_bytes(proof_spec(t, q).0), tree_hash(t)) is Ok,
{
    let ops = proof_spec(t, q).0;
    lemma_proof_encodable(t, q);
    lemma_decode_stream_ops_bytes(ops);
    lemma_proof_run(t, q, init_state());
    lemma_verify_run_machine(verify_init(), ops);
    let st = verify_run(verify_init(), ops)->Ok_0;
    assert(st.machine.stack.len() == 1);
}

/// The number of nodes on the leftmost path, the root included.
pub open spec fn left_depth(t: TreeS) -> nat
    decreases t,
{
    match t.left {
        Some(l) => 1 + left_depth(*l.tree),
        None => 1,
    }
}

/// The height of a trunk: half the depth of the leftmost node.
pub open spec fn trunk_height(t: TreeS) -> nat {
    left_depth(t) / 2
}

/// Whether a link, if any, has its hash.
pub open spec fn link_committed(l: Option<LinkS>) -> bool {
    l matches Some(x) ==> !x.modified
}

/// Whether every link along the leftmost path that a height proof hashes
/// (a right link below the trunk) leads to a tree whose own links are
/// committed, so its hash can be computed.
pub open spec fn height_provable(t: TreeS, depth: nat, th: nat) -> bool
    decreases t,
{
    &&& (depth > th ==> (t.right matches Some(r) ==> link_committed(r.tree.left) && link_committed(r.tree.right)))
    &&& t.left matches Some(l) ==> height_provable(*l.tree, depth + 1, th)
}

/// The operators that prove the height of the tree: for each node of the
/// leftmost path below the trunk, bottom up, the hash of its key/value pair
/// (below its left part), and the hash of its right child.
pub open spec fn height_ops(t: TreeS, depth: nat, th: nat) -> Seq<OpV>
    decreases t,
{
    let below = match t.left {
        Some(l) => height_ops(*l.tree, depth + 1, th),
        None => Seq::empty(),
    };
    if depth > th {
        let with_node = below.push(OpV::Push(NodeV::KVHash(t.kv_hash)));
        let with_left = if t.left is Some {
            with_node.push(OpV::Parent)
        } else {
            with_node
        };
        match t.right {
            Some(r) => with_left.push(OpV::Push(NodeV::Hash(tree_hash(*r.tree)))).push(OpV::Child),
            None => with_left,
        }
    } else {
        below
    }
}

/// Whether every node above depth `th` has both children.
pub open spec fn full_above(t: TreeS, depth: nat, th: nat) -> bool
    decreases t,
{
    depth < th ==> match (t.left, t.right) {
        (Some(l), Some(r)) => full_above(*l.tree, depth + 1, th) && full_above(*r.tree, depth + 1, th),
        _ => false,
    }
}

/// The operators of the trunk: every node down to depth `th` with its key
/// and value, in order; the leftmost bottom node takes the height proof as
/// its left child.
pub open spec fn trunk_ops(t: TreeS, depth: nat, th: nat, leftmost: bool) -> Seq<OpV>
    decreases t,
{
    if depth >= th {
        let kv = seq![OpV::Push(NodeV::KV(t.key, t.value))];
        if leftmost && t.left is Some {
            kv.push(OpV::Parent)
        } else {
            kv
        }
    } else {
        match (t.left, t.right) {
            (Some(l), Some(r)) => trunk_ops(*l.tree, depth + 1, th, leftmost) + seq![
                OpV::Push(NodeV::KV(t.key, t.value)),
                OpV::Parent,
            ] + trunk_ops(*r.tree, depth + 1, th, false) + seq![OpV::Child],
            _ => Seq::empty(),
        }
    }
}

/// The key/value pairs that a sequence of operators pushes, in order.
pub open spec fn kv_pushes(ops: Seq<OpV>) -> Seq<(Seq<u8>, Seq<u8>)>
    decreases ops.len(),
{
    if ops.len() == 0 {
        Seq::empty()
    } else {
        kv_pushes(ops.drop_last()) + match ops.last() {
            OpV::Push(NodeV::KV(k, v)) => seq![(k, v)],
            _ => Seq::empty(),
        }
    }
}

/// The key/value pairs of the nodes from depth `depth` down to depth `th`
/// (the root is at depth 1), in key order.
pub open spec fn pairs_to_depth(t: TreeS, depth: nat, th: nat) -> Seq<(Seq<u8>, Seq<u8>)>
    decreases t,
{
    if depth > th {
        Seq::empty()
    } else {
        (match t.left {
            Some(l) => pairs_to_depth(*l.tree, depth + 1, th),
            None => Seq::empty(),
        }) + seq![(t.key, t.value)] + (match t.right {
            Some(r) => pairs_to_depth(*r.tree, depth + 1, th),
            None => Seq::empty(),
        })
    }
}

proof fn lemma_kv_pushes_concat(a: Seq<OpV>, b: Seq<OpV>)
    ensures
        kv_pushes(a + b) == kv_pushes(a) + kv_pushes(b),
    decreases b.len(),
{
    if b.len() == 0 {
        assert(a + b =~= a);
        assert(kv_pushes(b) =~= Seq::<(Seq<u8>, Seq<u8>)>::empty());
        assert(kv_pushes(a) + kv_pushes(b) =~= kv_pushes(a));
    } else {
        lemma_kv_pushes_concat(a, b.drop_last());
        assert((a + b).drop_last() =~= a + b.drop_last());
        assert((a + b).last() == b.last());
        let tail = match b.last() {
            OpV::Push(NodeV::KV(k, v)) => seq![(k, v)],
            _ => Seq::empty(),
        };
        assert(kv_pushes(a) + kv_pushes(b.drop_last()) + tail =~= kv_pushes(a) + (kv_pushes(b.drop_last()) + tail));
    }
}

proof fn lemma_kv_pushes_none(ops: Seq<OpV>)
    requires
        forall|i: int| 0 <= i < ops.len() ==> !((#[trigger] ops[i]) matches OpV::Push(NodeV::KV(_, _))),
    ensures
        kv_pushes(ops) == Seq::<(Seq<u8>, Seq<u8>)>::empty(),
    decreases ops.len(),
{
    if ops.len() > 0 {
        lemma_kv_pushes_none(ops.drop_last());
        assert(ops.last() == ops[ops.len() - 1]);
    }
}

proof fn lemma_height_ops_no_kv(t: TreeS, depth: nat, th: nat)
    ensures
        forall|i: int|
            0 <= i < height_ops(t, depth, th).len() ==> !((#[trigger] height_ops(t, depth, th)[i]) matches OpV::Push(
                NodeV::KV(_, _),
            )),
    decreases t,
{
    match t.left {
        Some(l) => lemma_height_ops_no_kv(*l.tree, depth + 1, th),
        None => {},
    }
}

proof fn lemma_kv_pushes_one(op: OpV)
    ensures
        kv_pushes(seq![op]) == match op {
            OpV::Push(NodeV::KV(k, v)) => seq![(k, v)],
            _ => Seq::<(Seq<u8>, Seq<u8>)>::empty(),
        },
{
    assert(seq![op].drop_last() =~= Seq::<OpV>::empty());
    assert(kv_pushes(Seq::<OpV>::empty()) == Seq::<(Seq<u8>, Seq<u8>)>::empty());
    assert(seq![op].last() == op);
    let tail = match op {
        OpV::Push(NodeV::KV(k, v)) => seq![(k, v)],
        _ => Seq::<(Seq<u8>, Seq<u8>)>::empty(),
    };
    assert(Seq::<(Seq<u8>, Seq<u8>)>::empty() + tail =~= tail);
}

proof fn lemma_trunk_kv(t: TreeS, depth: nat, th: nat, leftmost: bool)
    requires
        1 <= depth <= th,
        full_above(t, depth, th),
    ensures
        kv_pushes(trunk_ops(t, depth, th, leftmost)) == pairs_to_depth(t, depth, th),
    decreases t,
{
    let p = (t.key, t.value);
    if depth >= th {
        let kv = seq![OpV::Push(NodeV::KV(t.key, t.value))];
        lemma_kv_pushes_one(OpV::Push(NodeV::KV(t.key, t.value)));
        lemma_kv_pushes_one(OpV::Parent);
        lemma_kv_pushes_concat(kv, seq![OpV::Parent]);
        assert(kv.push(OpV::Parent) =~= kv + seq![OpV::Parent]);
        assert(kv_pushes(kv) + Seq::<(Seq<u8>, Seq<u8>)>::empty() =~= kv_pushes(kv));
        match t.left {
            Some(l) => assert(pairs_to_depth(*l.tree, depth + 1, th) =~= Seq::<(Seq<u8>, Seq<u8>)>::empty()),
            None => {},
        }
        match t.right {
            Some(r) => assert(pairs_to_depth(*r.tree, depth + 1, th) =~= Seq::<(Seq<u8>, Seq<u8>)>::empty()),
            None => {},
        }
        assert(pairs_to_depth(t, depth, th) =~= seq![p]);
    } else {
        let l = t.left->Some_0;
        let r = t.right->Some_0;
        lemma_trunk_kv(*l.tree, depth + 1, th, leftmost);
        lemma_trunk_kv(*r.tree, depth + 1, th, false);
        let a = trunk_ops(*l.tree, depth + 1, th, leftmost);
        let mid = seq![OpV::Push(NodeV::KV(t.key, t.value)), OpV::Parent];
        let b = trunk_ops(*r.tree, depth + 1, th, false);
        let c = seq![OpV::Child];
        lemma_kv_pushes_concat(a, mid);
        lemma_kv_pushes_concat(a + mid, b);
        lemma_kv_pushes_concat(a + mid + b, c);
        lemma_kv_pushes_one(OpV::Push(NodeV::KV(t.key, t.value)));
        lemma_kv_pushes_one(OpV::Parent);
        lemma_kv_pushes_one(OpV::Child);
        lemma_kv_pushes_concat(seq![OpV::Push(NodeV::KV(t.key, t.value))], seq![OpV::Parent]);
        assert(mid =~= seq![OpV::Push(NodeV::KV(t.key, t.value))] + seq![OpV::Parent]);
        assert(kv_pushes(mid) =~= seq![p]);
        assert(kv_pushes(c) =~= Seq::<(Seq<u8>, Seq<u8>)>::empty());
        assert(kv_pushes(a) + kv_pushes(mid) + kv_pushes(b) + kv_pushes(c) =~= pairs_to_depth(t, depth, th));
    }
}

/// A trunk proof pushes the key and value of every node of the trunk (the
/// levels from the root down to the trunk's height), in key order, and of
/// no other node: the nodes it proves below the trunk appear by hash only.
pub proof fn lemma_trunk_proof_pairs(t: TreeS)
    requires
        2 <= left_depth(t),
        full_above(t, 1, trunk_height(t)),
    ensures
        kv_pushes(height_ops(t, 1, trunk_height(t)) + trunk_ops(t, 1, trunk_height(t), true)) == pairs_to_depth(
            t,
            1,
            trunk_height(t),
        ),
{
    let th = trunk_height(t);
    lemma_height_ops_no_kv(t, 1, th);
    lemma_kv_pushes_none(height_ops(t, 1, th));
    lemma_trunk_kv(t, 1, th, true);
    lemma_kv_pushes_concat(height_ops(t, 1, th), trunk_ops(t, 1, th, true));
    assert(Seq::<(Seq<u8>, Seq<u8>)>::empty() + pairs_to_depth(t, 1, th) =~= pairs_to_depth(t, 1, th));
}

impl Tree {
    /// The proof of the tree's trunk: the top half of its levels, with the
    /// proof of its height along the leftmost path.
    pub fn create_trunk_proof(&self) -> (r: Vec<Op>)
        requires
            2 <= left_depth(self@) <= 255,
            height_provable(self@, 1, trunk_height(self@)),
            full_above(self@, 1, trunk_height(self@)),
        ensures
            ops_view(r@) == height_ops(self@, 1, trunk_height(self@)) + trunk_ops(
                self@,
                1,
                trunk_height(self@),
                true,
            ),
            kv_pushes(ops_view(r@)) == pairs_to_depth(self@, 1, trunk_height(self@)),
    {
        let mut proof: Vec<Op> = Vec::new();
        let trunk = self.traverse_for_height_proof(&mut proof, 1);
        self.traverse_for_trunk(&mut proof, 1, trunk, true);
        proof {
            lemma_trunk_proof_pairs(self@);
        }
        proof
    }

    /// Walks to the leftmost node to prove the tree's height, appending the
    /// operators for the nodes below the trunk. Returns the trunk's height.
    fn traverse_for_height_proof(&self, proof: &mut Vec<Op>, depth: u8) -> (th: u8)
        requires
            1 <= depth,
            depth + left_depth(self@) <= 256,
            height_provable(self@, depth as nat, ((depth + left_depth(self@) - 1) / 2) as nat),
        ensures
            th == (depth + left_depth(self@) - 1) / 2,
            ops_view(final(proof)@) == ops_view(old(proof)@) + height_ops(self@, depth as nat, th as nat),
        decreases self@,
    {
        let ghost start = ops_view(proof@);
        let th = match self.child(true) {
            Some(left) => {
                assert(left_depth(self@) == 1 + left_depth(left@));
                left.traverse_for_height_proof(proof, depth + 1)
            },
            None => depth / 2,
        };
        let has_left = self.child(true).is_some();
        let ghost below = ops_view(proof@);
        assert(below =~= start + match self@.left {
            Some(l) => height_ops(*l.tree, (depth + 1) as nat, th as nat),
            None => Seq::<OpV>::empty(),
        });
        if depth > th {
            let node = self.to_kvhash_node();
            let ghost nv = node@;
            proof.push(Op::Push(node));
            let ghost p1 = ops_view(proof@);
            assert(p1 =~= below.push(OpV::Push(nv)));
            if has_left {
                proof.push(Op::Parent);
            }
            let ghost p2 = ops_view(proof@);
            assert(p2 =~= if has_left { p1.push(OpV::Parent) } else { p1 });
            match self.child(false) {
                Some(right) => {
                    let hn = right.to_hash_node();
                    let ghost hv = hn@;
                    proof.push(Op::Push(hn));
                    proof.push(Op::Child);
                    assert(ops_view(proof@) =~= p2.push(OpV::Push(hv)).push(OpV::Child));
                },
                None => {},
            }
        }
        proof {
            let h = height_ops(self@, depth as nat, th as nat);
            assert(ops_view(proof@) =~= start + h);
        }
        th
    }

    /// Appends the operators of the trunk below this node, down to depth
    /// `trunk_height`.
    fn traverse_for_trunk(&self, proof: &mut Vec<Op>, depth: u8, trunk_height: u8, is_leftmost: bool)
        requires
            1 <= depth <= trunk_height,
            full_above(self@, depth as nat, trunk_height as nat),
        ensures
            ops_view(final(proof)@) == ops_view(old(proof)@) + trunk_ops(
                self@,
                depth as nat,
                trunk_height as nat,
                is_leftmost,
            ),
        decreases self@,
    {
        let ghost start = ops_view(proof@);
        if depth == trunk_height {
            let kv = self.to_kv_node();
            let ghost kvv = kv@;
            proof.push(Op::Push(kv));
            assert(ops_view(proof@) =~= start.push(OpV::Push(kvv)));
            let ghost p1 = ops_view(proof@);
            let has_left = self.link(true).is_some();
            if is_leftmost && has_left {
                proof.push(Op::Parent);
                assert(ops_view(proof@) =~= p1.push(OpV::Parent));
            }
            assert(ops_view(proof@) =~= start + trunk_ops(self@, depth as nat, trunk_height as nat, is_leftmost));
            return;
        }
        let left = match self.child(true) {
            Some(l) => l,
            None => {
                assert(false);
                return;
            },
        };
        left.traverse_for_trunk(proof, depth + 1, trunk_height, is_leftmost);
        let ghost after_left = ops_view(proof@);
        let kv = self.to_kv_node();
        let ghost kvv = kv@;
        proof.push(Op::Push(kv));
        proof.push(Op::Parent);
        let ghost mid = ops_view(proof@);
        assert(mid =~= after_left.push(OpV::Push(kvv)).push(OpV::Parent));
        let right = match self.child(false) {
            Some(r) => r,
            None => {
                assert(false);
                return;
            },
        };
        right.traverse_for_trunk(proof, depth + 1, trunk_height, false);
        let ghost after_right = ops_view(proof@);
        proof.push(Op::Child);
        assert(ops_view(proof@) =~= after_right.push(OpV::Child));
        assert(ops_view(proof@) =~= start + trunk_ops(self@, depth as nat, trunk_height as nat, is_leftmost));
    }
}

/// The root hash of a tree, or the null hash where there is none.
pub fn root_hash(maybe_tree: Option<&Tree>) -> (h: [u8; 32])
    requires
        maybe_tree matches Some(t) ==> (t@.left matches Some(l) ==> !l.modified) && (t@.right matches Some(l)
            ==> !l.modified),
    ensures
        match maybe_tree {
            Some(t) => h@ == tree_hash(t@),
            None => h@ == null_hash_spec(),
        },
{
    match maybe_tree {
        Some(t) => t.hash(),
        None => null_hash(),
    }
}

/// Creates the encoded proof of a query (sorted items, none colliding with
/// another) on a tree, ready to be checked with `verify_query` or `verify`.
/// There is nothing to prove of an empty tree.
pub fn prove_unchecked(maybe_tree: Option<&Tree>, query: &[QueryItem]) -> (r: Result<Vec<u8>, Error>)
    requires
        maybe_tree matches Some(t) ==> provable(t@, items_view(query@)) && lens_ok(t@),
    ensures
        match maybe_tree {
            Some(t) => r matches Ok(b) && b@ == ops_bytes(proof_spec(t@, items_view(query@)).0),
            None => r matches Err(e) && e is Proof,
        },
{
    match maybe_tree {
        None => Err(Error::Proof("Cannot create proof for empty tree".to_owned())),
        Some(tree) => {
            let (proof, _) = tree.create_proof(query);
            proof {
                lemma_proof_encodable(tree@, items_view(query@));
            }
            let mut bytes: Vec<u8> = Vec::new();
            crate::proofs::encoding::encode_into(proof.as_slice(), &mut bytes);
            assert(bytes@ =~= ops_bytes(proof_spec(tree@, items_view(query@)).0));
            Ok(bytes)
        },
    }
}

} // verus!
