//! A selection of connected nodes of a stored tree, held in memory. Nodes
//! are fetched lazily through their links; changes are made in memory, with
//! every link's hash and height kept up to date.
use vstd::prelude::*;

use crate::bytes::{compare, lemma_lex_order, lex_lt, Order};
use crate::node::{kv_hash_spec, link_height, Link, Node};
use crate::range_proof::{debug_bytes, debug_bytes_spec};
use crate::error::Error;
use vstd::string::StringExecFns;

verus! {

/// A node together with those of its subtrees that are in memory. A link
/// of the node whose subtree is not in memory can be fetched.
#[derive(Debug)]
pub struct SparseTree {
    pub node: Node,
    pub left: Option<Box<SparseTree>>,
    pub right: Option<Box<SparseTree>>,
}

impl SparseTree {
    /// The subtree held on the given side.
    pub open spec fn child(self, left: bool) -> Option<Box<SparseTree>> {
        if left {
            self.left
        } else {
            self.right
        }
    }
}

/// Whether a link describes a tree's root: its key, hash and height.
pub open spec fn describes(l: Link, t: SparseTree) -> bool {
    &&& l.key@ == t.node.key@
    &&& l.hash@ == t.node.hash_spec()
    &&& l.height == t.node.height_spec()
}

/// Whether a node's key/value hash is the hash of its pair.
pub open spec fn node_ok(n: Node) -> bool {
    n.kv_hash@ == kv_hash_spec(n.key@, n.value@)
}

/// What a node fetched for a link must be: the node the link describes.
pub open spec fn fetched(l: Link, n: Node) -> bool {
    &&& node_ok(n)
    &&& n.left matches Some(x) ==> lex_lt(x.key@, n.key@)
    &&& n.right matches Some(x) ==> lex_lt(n.key@, x.key@)
    &&& l.key@ == n.key@
    &&& l.hash@ == n.hash_spec()
    &&& l.height == n.height_spec()
}

/// The key/value pairs of the nodes in memory.
pub open spec fn entries(t: SparseTree) -> Map<Seq<u8>, Seq<u8>>
    decreases t,
{
    let l = match t.left {
        Some(c) => entries(*c),
        None => Map::empty(),
    };
    let r = match t.right {
        Some(c) => entries(*c),
        None => Map::empty(),
    };
    l.union_prefer_right(r).insert(t.node.key@, t.node.value@)
}

/// Whether the links in memory are right: every node's key/value hash is
/// the hash of its pair, a left link's key is below the node's key and a
/// right link's above it, and every subtree in memory is described by its
/// link.
pub open spec fn links_ok(t: SparseTree) -> bool
    decreases t,
{
    &&& node_ok(t.node)
    &&& t.node.left matches Some(l) ==> lex_lt(l.key@, t.node.key@)
    &&& t.node.right matches Some(l) ==> lex_lt(t.node.key@, l.key@)
    &&& match t.left {
        Some(c) => links_ok(*c) && (t.node.left matches Some(l) && describes(l, *c)),
        None => true,
    }
    &&& match t.right {
        Some(c) => links_ok(*c) && (t.node.right matches Some(l) && describes(l, *c)),
        None => true,
    }
}

/// Whether the keys in memory are ordered: below a node's key on its left,
/// above it on its right.
pub open spec fn ordered(t: SparseTree) -> bool
    decreases t,
{
    &&& match t.left {
        Some(c) => ordered(*c) && forall|k: Seq<u8>| entries(*c).contains_key(k) ==> lex_lt(k, t.node.key@),
        None => true,
    }
    &&& match t.right {
        Some(c) => ordered(*c) && forall|k: Seq<u8>| entries(*c).contains_key(k) ==> lex_lt(t.node.key@, k),
        None => true,
    }
}

/// Whether the tree in memory is well formed: right links and ordered keys.
pub open spec fn wf(t: SparseTree) -> bool {
    links_ok(t) && ordered(t)
}

/// Whether every linked subtree is in memory.
pub open spec fn loaded(t: SparseTree) -> bool
    decreases t,
{
    &&& (t.node.left is Some ==> t.left is Some)
    &&& (t.node.right is Some ==> t.right is Some)
    &&& (t.left matches Some(c) ==> loaded(*c))
    &&& (t.right matches Some(c) ==> loaded(*c))
}

/// The nodes in memory, in key order.
pub open spec fn in_order(t: SparseTree) -> Seq<Node>
    decreases t,
{
    let l = match t.left {
        Some(c) => in_order(*c),
        None => Seq::empty(),
    };
    let r = match t.right {
        Some(c) => in_order(*c),
        None => Seq::empty(),
    };
    l + seq![t.node] + r
}

/// Whether a fetch function may be called on any link and gives back the
/// node the link describes.
pub open spec fn fetches<F: Fn(&Link) -> Node>(get_node: &F) -> bool {
    &&& forall|l: &Link| get_node.requires((l,))
    &&& forall|l: &Link, n: Node| get_node.ensures((l,), n) ==> fetched(*l, n)
}

impl SparseTree {
    /// A tree of the given node, with no subtree in memory.
    pub fn new(node: Node) -> (t: SparseTree)
        ensures
            t.node == node,
            t.left is None,
            t.right is None,
    {
        SparseTree { node, left: None, right: None }
    }

    /// Fetches the node a link points to, as a tree with no subtree in
    /// memory.
    pub fn get<F: Fn(&Link) -> Node>(link: &Link, get_node: &F) -> (t: SparseTree)
        requires
            fetches(get_node),
        ensures
            get_node.ensures((link,), t.node),
            fetched(*link, t.node),
            t.left is None,
            t.right is None,
    {
        SparseTree::new(get_node(link))
    }

    /// The root node.
    pub fn node(&self) -> (n: &Node)
        ensures
            *n == self.node,
    {
        &self.node
    }

    /// The subtree in memory on the given side.
    pub fn child_tree(&self, left: bool) -> (c: Option<&SparseTree>)
        ensures
            match c {
                Some(t) => self.child(left) == Some(Box::new(*t)),
                None => self.child(left) is None,
            },
    {
        let option = if left {
            &self.left
        } else {
            &self.right
        };
        match option {
            Some(b) => Some(&**b),
            None => None,
        }
    }

    /// The slot of the subtree on the given side.
    pub fn child_tree_mut(&mut self, left: bool) -> (c: &mut Option<Box<SparseTree>>)
        ensures
            *c == old(self).child(left),
            final(self).node == old(self).node,
            final(self).child(left) == *final(c),
            final(self).child(!left) == old(self).child(!left),
    {
        if left {
            &mut self.left
        } else {
            &mut self.right
        }
    }

    /// Drops every subtree from memory, keeping the links.
    pub fn prune(&mut self)
        ensures
            final(self).node == old(self).node,
            final(self).left is None,
            final(self).right is None,
    {
        self.left = None;
        self.right = None;
    }

    /// Sets the link on the given side to describe the subtree in memory
    /// there, or removes it when there is none.
    pub fn update_link(&mut self, left: bool)
        requires
            old(self).child(left) matches Some(c) ==> c.node.height_spec() <= u8::MAX,
        ensures
            match old(self).child(left) {
                Some(c) => final(self).node.link(left) matches Some(l) && describes(l, *c),
                None => final(self).node.link(left) is None,
            },
            final(self).node.link(!left) == old(self).node.link(!left),
            final(self).node.key == old(self).node.key,
            final(self).node.value == old(self).node.value,
            final(self).node.kv_hash == old(self).node.kv_hash,
            final(self).node.parent_key == old(self).node.parent_key,
            final(self).left == old(self).left,
            final(self).right == old(self).right,
    {
        let link = match self.child_tree(left) {
            Some(child) => Some(child.node.as_link()),
            None => None,
        };
        self.node.set_child(left, link);
    }

    /// Sets the link on the given side to describe the subtree there, and
    /// records a parent key on that subtree's root (the root's own key, as
    /// `Node::set_parent` does).
    pub fn update_child(&mut self, left: bool)
        requires
            old(self).child(left) matches Some(c) && c.node.height_spec() <= u8::MAX,
        ensures
            final(self).node.link(left) matches Some(l) && describes(l, *old(self).child(left)->Some_0),
            final(self).node.link(!left) == old(self).node.link(!left),
            final(self).node.key == old(self).node.key,
            final(self).node.value == old(self).node.value,
            final(self).node.kv_hash == old(self).node.kv_hash,
            final(self).child(!left) == old(self).child(!left),
            final(self).child(left) matches Some(c) && {
                let o = old(self).child(left)->Some_0;
                &&& c.node.key == o.node.key
                &&& c.node.value == o.node.value
                &&& c.node.kv_hash == o.node.kv_hash
                &&& c.node.left == o.node.left
                &&& c.node.right == o.node.right
                &&& c.left == o.left
                &&& c.right == o.right
            },
    {
        self.update_link(left);
        let parent_key = crate::bytes::copy_bytes(self.node.key.as_slice());
        let mut child = if left {
            self.left.take()
        } else {
            self.right.take()
        };
        match &mut child {
            Some(c) => c.node.set_parent(parent_key),
            None => {},
        }
        if left {
            self.left = child;
        } else {
            self.right = child;
        }
    }

    /// Makes sure the subtree on the given side is in memory if the node
    /// links one, fetching it if needed. Returns whether there is one.
    pub fn maybe_get_child<F: Fn(&Link) -> Node>(&mut self, left: bool, get_node: &F) -> (r: bool)
        requires
            fetches(get_node),
        ensures
            r == old(self).node.link(left) is Some,
            final(self).node == old(self).node,
            final(self).child(!left) == old(self).child(!left),
            old(self).child(left) is Some ==> final(self).child(left) == old(self).child(left),
            old(self).child(left) is None ==> match old(self).node.link(left) {
                Some(l) => final(self).child(left) matches Some(c) && get_node.ensures((&l,), c.node)
                    && fetched(l, c.node) && c.left is None && c.right is None,
                None => final(self).child(left) is None,
            },
    {
        let has_link = match self.node.child_link(left) {
            Some(_) => true,
            None => false,
        };
        if has_link && self.child_tree(left).is_none() {
            let node = match self.node.child_link(left) {
                Some(link) => get_node(link),
                None => {
                    assert(false);
                    return false;
                },
            };
            let tree = Some(Box::new(SparseTree::new(node)));
            if left {
                self.left = tree;
            } else {
                self.right = tree;
            }
        }
        has_link
    }
}

/// Every key of a tree is on one side of `key`.
pub open spec fn keys_below(t: SparseTree, key: Seq<u8>) -> bool {
    forall|k: Seq<u8>| entries(t).contains_key(k) ==> lex_lt(k, key)
}

/// Every key of a tree is above `key`.
pub open spec fn keys_above(t: SparseTree, key: Seq<u8>) -> bool {
    forall|k: Seq<u8>| entries(t).contains_key(k) ==> lex_lt(key, k)
}

/// Two trees that differ at most in their root's parent key.
pub open spec fn same_but_parent(a: SparseTree, b: SparseTree) -> bool {
    &&& a.node.key == b.node.key
    &&& a.node.value == b.node.value
    &&& a.node.kv_hash == b.node.kv_hash
    &&& a.node.left == b.node.left
    &&& a.node.right == b.node.right
    &&& a.left == b.left
    &&& a.right == b.right
}

proof fn lemma_same_but_parent(a: SparseTree, b: SparseTree)
    requires
        same_but_parent(a, b),
    ensures
        entries(a) == entries(b),
        links_ok(a) == links_ok(b),
        ordered(a) == ordered(b),
        loaded(a) == loaded(b),
        a.node.hash_spec() == b.node.hash_spec(),
        a.node.height_spec() == b.node.height_spec(),
{
}

/// The node the fetch function gives for a link.
pub open spec fn stored<F: Fn(&Link) -> Node>(get_node: &F, l: Link) -> Node {
    choose|n: Node| get_node.ensures((&l,), n)
}

/// Whether the fetch function gives one node per link: the store it reads
/// does not change while the tree is worked on.
pub open spec fn fetch_exact<F: Fn(&Link) -> Node>(get_node: &F) -> bool {
    forall|l: &Link, a: Node, b: Node| get_node.ensures((l,), a) && get_node.ensures((l,), b) ==> a == b
}

/// The pairs stored below a link: its node's pair and those stored below
/// the node's links, each of which records a smaller height.
pub open spec fn link_entries<F: Fn(&Link) -> Node>(get_node: &F, l: Link) -> Map<Seq<u8>, Seq<u8>>
    decreases l.height,
{
    let n = stored(get_node, l);
    let a = match n.left {
        Some(x) => if x.height < l.height {
            link_entries(get_node, x)
        } else {
            Map::empty()
        },
        None => Map::empty(),
    };
    let b = match n.right {
        Some(x) => if x.height < l.height {
            link_entries(get_node, x)
        } else {
            Map::empty()
        },
        None => Map::empty(),
    };
    a.union_prefer_right(b).insert(n.key@, n.value@)
}

/// Whether the keys stored below a link are ordered: below each node's key
/// on its left, above it on its right.
pub open spec fn link_ordered<F: Fn(&Link) -> Node>(get_node: &F, l: Link) -> bool
    decreases l.height,
{
    let n = stored(get_node, l);
    &&& (n.left matches Some(x) ==> x.height < l.height && link_ordered(get_node, x) && forall|k: Seq<u8>|
        #[trigger] link_entries(get_node, x).contains_key(k) ==> lex_lt(k, n.key@))
    &&& (n.right matches Some(x) ==> x.height < l.height && link_ordered(get_node, x) && forall|k: Seq<u8>|
        #[trigger] link_entries(get_node, x).contains_key(k) ==> lex_lt(n.key@, k))
}

/// The pairs on one side of a tree, counting those in the store below a
/// link whose subtree is not in memory.
pub open spec fn full_side<F: Fn(&Link) -> Node>(t: SparseTree, left: bool, get_node: &F) -> Map<Seq<u8>, Seq<u8>>
    decreases t, 0int,
{
    match t.child(left) {
        Some(c) => full_entries(*c, get_node),
        None => match t.node.link(left) {
            Some(l) => link_entries(get_node, l),
            None => Map::empty(),
        },
    }
}

/// The pairs of a tree, those in memory and those in the store below the
/// links whose subtrees are not in memory.
pub open spec fn full_entries<F: Fn(&Link) -> Node>(t: SparseTree, get_node: &F) -> Map<Seq<u8>, Seq<u8>>
    decreases t, 1int,
{
    full_side(t, true, get_node).union_prefer_right(full_side(t, false, get_node)).insert(t.node.key@, t.node.value@)
}

/// Whether one side of a tree is ordered, in memory or in the store.
pub open spec fn side_ordered<F: Fn(&Link) -> Node>(t: SparseTree, left: bool, get_node: &F) -> bool
    decreases t, 0int,
{
    match t.child(left) {
        Some(c) => full_ordered(*c, get_node),
        None => match t.node.link(left) {
            Some(l) => link_ordered(get_node, l),
            None => true,
        },
    }
}

/// Whether a tree's keys are ordered, counting those in the store below
/// the links whose subtrees are not in memory, and every subtree in memory
/// has a link.
pub open spec fn full_ordered<F: Fn(&Link) -> Node>(t: SparseTree, get_node: &F) -> bool
    decreases t, 1int,
{
    &&& (t.left is Some ==> t.node.left is Some)
    &&& (t.right is Some ==> t.node.right is Some)
    &&& side_ordered(t, true, get_node)
    &&& side_ordered(t, false, get_node)
    &&& forall|k: Seq<u8>| #[trigger] full_side(t, true, get_node).contains_key(k) ==> lex_lt(k, t.node.key@)
    &&& forall|k: Seq<u8>| #[trigger] full_side(t, false, get_node).contains_key(k) ==> lex_lt(t.node.key@, k)
}

/// A node fetched for a link holds, with what is stored below its links,
/// exactly what the store holds below that link.
proof fn lemma_fetched_full<F: Fn(&Link) -> Node>(get_node: &F, l: Link, n: Node)
    requires
        fetches(get_node),
        fetch_exact(get_node),
        get_node.ensures((&l,), n),
    ensures
        full_entries(SparseTree { node: n, left: None, right: None }, get_node) == link_entries(get_node, l),
        full_ordered(SparseTree { node: n, left: None, right: None }, get_node) == link_ordered(get_node, l),
{
    assert(get_node.ensures((&l,), stored(get_node, l)));
    assert(stored(get_node, l) == n);
    assert(fetched(l, n));
    let t = SparseTree { node: n, left: None, right: None };
    assert(full_side(t, true, get_node) == (match n.left {
        Some(x) => link_entries(get_node, x),
        None => Map::<Seq<u8>, Seq<u8>>::empty(),
    }));
    assert(full_side(t, false, get_node) == (match n.right {
        Some(x) => link_entries(get_node, x),
        None => Map::<Seq<u8>, Seq<u8>>::empty(),
    }));
    assert(full_entries(t, get_node) =~= link_entries(get_node, l));
}

/// Two trees that differ at most in their root's parent key hold the same
/// pairs, in memory and in the store, in the same order.
proof fn lemma_same_but_parent_full<F: Fn(&Link) -> Node>(a: SparseTree, b: SparseTree, get_node: &F)
    requires
        same_but_parent(a, b),
    ensures
        full_entries(a, get_node) == full_entries(b, get_node),
        full_ordered(a, get_node) == full_ordered(b, get_node),
{
    assert(full_side(a, true, get_node) == full_side(b, true, get_node));
    assert(full_side(a, false, get_node) == full_side(b, false, get_node));
}

/// Fetching the subtree on one side changes neither what a tree holds,
/// counting the store, nor whether it is ordered.
proof fn lemma_fetch_keeps_full<F: Fn(&Link) -> Node>(o: SparseTree, t: SparseTree, left: bool, get_node: &F)
    requires
        fetches(get_node),
        fetch_exact(get_node),
        fetched_side(o, t, left, get_node),
    ensures
        full_side(t, left, get_node) == full_side(o, left, get_node),
        full_side(t, !left, get_node) == full_side(o, !left, get_node),
        side_ordered(t, left, get_node) == side_ordered(o, left, get_node),
        side_ordered(t, !left, get_node) == side_ordered(o, !left, get_node),
        full_entries(t, get_node) == full_entries(o, get_node),
        full_ordered(t, get_node) == full_ordered(o, get_node),
{
    if o.child(left) is None {
        if let Some(l) = o.node.link(left) {
            let c = *t.child(left)->Some_0;
            assert(c == (SparseTree { node: c.node, left: None, right: None }));
            lemma_fetched_full(get_node, l, c.node);
        }
    }
    assert(full_side(t, true, get_node) == full_side(o, true, get_node));
    assert(full_side(t, false, get_node) == full_side(o, false, get_node));
    assert(side_ordered(t, true, get_node) == side_ordered(o, true, get_node));
    assert(side_ordered(t, false, get_node) == side_ordered(o, false, get_node));
    assert(full_entries(t, get_node) =~= full_entries(o, get_node));
}

/// The pairs in a slot, counting those in the store.
pub open spec fn slot_full<F: Fn(&Link) -> Node>(s: Option<Box<SparseTree>>, get_node: &F) -> Map<Seq<u8>, Seq<u8>> {
    match s {
        Some(t) => full_entries(*t, get_node),
        None => Map::empty(),
    }
}

/// Whether the tree in a slot is ordered, counting the store (an empty
/// slot is).
pub open spec fn slot_full_ordered<F: Fn(&Link) -> Node>(s: Option<Box<SparseTree>>, get_node: &F) -> bool {
    match s {
        Some(t) => full_ordered(*t, get_node),
        None => true,
    }
}

/// Whether `t` is `o` after the subtree on side `left` was fetched, if it
/// was linked and not in memory.
pub open spec fn fetched_side<F: Fn(&Link) -> Node>(o: SparseTree, t: SparseTree, left: bool, get_node: &F) -> bool {
    &&& t.node == o.node
    &&& t.child(!left) == o.child(!left)
    &&& (o.child(left) is Some ==> t.child(left) == o.child(left))
    &&& (o.child(left) is None ==> match o.node.link(left) {
        Some(l) => t.child(left) matches Some(c) && get_node.ensures((&l,), c.node) && c.left is None
            && c.right is None,
        None => t.child(left) is None,
    })
}

/// The pairs on the two sides of an ordered tree lie below and above its
/// key, so none of them is the key.
proof fn lemma_full_sides<F: Fn(&Link) -> Node>(t: SparseTree, get_node: &F)
    requires
        full_ordered(t, get_node),
    ensures
        !full_side(t, true, get_node).contains_key(t.node.key@),
        !full_side(t, false, get_node).contains_key(t.node.key@),
        forall|k: Seq<u8>| #[trigger] full_side(t, true, get_node).contains_key(k) ==> !full_side(t, false, get_node).contains_key(k),
{
    lemma_lex_order();
}

/// Replacing the subtree on one side of an ordered tree by one holding the
/// same pairs, counting the store, and itself ordered, keeps the tree
/// ordered with the same pairs.
proof fn lemma_replace_side_full<F: Fn(&Link) -> Node>(o: SparseTree, n: SparseTree, left: bool, get_node: &F)
    requires
        full_ordered(o, get_node),
        n.node.key == o.node.key,
        n.node.value == o.node.value,
        n.node.link(!left) == o.node.link(!left),
        n.child(!left) == o.child(!left),
        slot_full(n.child(left), get_node) == slot_full(o.child(left), get_node),
        slot_full_ordered(n.child(left), get_node),
        o.child(left) is None ==> o.node.link(left) is None,
        n.child(left) is None ==> n.node.link(left) is None,
        n.child(left) is Some ==> n.node.link(left) is Some,
    ensures
        full_ordered(n, get_node),
        full_entries(n, get_node) == full_entries(o, get_node),
{
    assert(full_side(n, left, get_node) == full_side(o, left, get_node));
    assert(full_side(n, !left, get_node) == full_side(o, !left, get_node));
    assert(side_ordered(n, !left, get_node) == side_ordered(o, !left, get_node));
    assert(side_ordered(n, left, get_node));
    assert(full_side(n, true, get_node) == full_side(o, true, get_node));
    assert(full_side(n, false, get_node) == full_side(o, false, get_node));
    assert(full_entries(n, get_node) =~= full_entries(o, get_node));
}

/// Replacing the subtree on one side of an ordered tree by one holding the
/// same pairs but `k`, counting the store, and itself ordered, removes `k`
/// and keeps the tree ordered.
proof fn lemma_replace_side_full_remove<F: Fn(&Link) -> Node>(o: SparseTree, n: SparseTree, left: bool, k: Seq<u8>, get_node: &F)
    requires
        full_ordered(o, get_node),
        n.node.key == o.node.key,
        n.node.value == o.node.value,
        n.node.link(!left) == o.node.link(!left),
        n.child(!left) == o.child(!left),
        slot_full(o.child(left), get_node).contains_key(k),
        slot_full(n.child(left), get_node) == slot_full(o.child(left), get_node).remove(k),
        slot_full_ordered(n.child(left), get_node),
        o.child(left) is None ==> o.node.link(left) is None,
        n.child(left) is None ==> n.node.link(left) is None,
        n.child(left) is Some ==> n.node.link(left) is Some,
    ensures
        full_ordered(n, get_node),
        full_entries(n, get_node) == full_entries(o, get_node).remove(k),
{
    lemma_lex_order();
    lemma_full_sides(o, get_node);
    assert(full_side(n, left, get_node) == full_side(o, left, get_node).remove(k));
    assert(full_side(n, !left, get_node) == full_side(o, !left, get_node));
    assert(side_ordered(n, !left, get_node) == side_ordered(o, !left, get_node));
    assert(side_ordered(n, left, get_node));
    let nl = full_side(n, left, get_node);
    let ol = full_side(o, left, get_node);
    assert forall|x: Seq<u8>| #[trigger] nl.contains_key(x) implies ol.contains_key(x) by {}
    assert(full_ordered(n, get_node));
    assert(full_entries(n, get_node) =~= full_entries(o, get_node).remove(k));
}

/// Putting the node next to an ordered tree's root on one side in the
/// root's place, above what is left of that side and the other side,
/// removes the root's key and keeps the tree ordered.
proof fn lemma_remove_join_full<F: Fn(&Link) -> Node>(
    t1: SparseTree,
    tall: Option<Box<SparseTree>>,
    ek: Seq<u8>,
    ev: Seq<u8>,
    n: SparseTree,
    left: bool,
    get_node: &F,
)
    requires
        full_ordered(t1, get_node),
        t1.child(left) is Some,
        slot_full(t1.child(left), get_node).contains_key(ek),
        slot_full(t1.child(left), get_node)[ek] == ev,
        at_edge(slot_full(t1.child(left), get_node), ek, !left),
        slot_full(tall, get_node) == slot_full(t1.child(left), get_node).remove(ek),
        slot_full_ordered(tall, get_node),
        t1.child(!left) is None ==> t1.node.link(!left) is None,
        n.node.key@ == ek,
        n.node.value@ == ev,
        n.child(left) == tall,
        n.child(!left) == t1.child(!left),
        n.child(left) is Some <==> n.node.link(left) is Some,
        n.child(!left) is Some <==> n.node.link(!left) is Some,
    ensures
        full_ordered(n, get_node),
        full_entries(n, get_node) == full_entries(t1, get_node).remove(t1.node.key@),
{
    lemma_lex_order();
    lemma_full_sides(t1, get_node);
    let k = t1.node.key@;
    let lm = full_side(t1, left, get_node);
    let rm = full_side(t1, !left, get_node);
    assert(lm == slot_full(t1.child(left), get_node));
    assert(full_side(n, left, get_node) == lm.remove(ek));
    assert(full_side(n, !left, get_node) == rm);
    assert(side_ordered(n, !left, get_node) == side_ordered(t1, !left, get_node));
    assert(side_ordered(n, left, get_node));
    let nl = full_side(n, left, get_node);
    assert forall|x: Seq<u8>| #[trigger] nl.contains_key(x) implies lm.contains_key(x) && x != ek by {}
    assert forall|x: Seq<u8>| #[trigger] rm.contains_key(x) implies (if left {
        lex_lt(ek, x)
    } else {
        lex_lt(x, ek)
    }) by {
        assert(lm.contains_key(ek));
    }
    assert(full_ordered(n, get_node));
    assert(full_entries(n, get_node) =~= full_entries(t1, get_node).remove(k));
}

/// A rotation of an ordered tree, with the two fetches it makes, keeps the
/// tree ordered and keeps its pairs, counting the store.
proof fn lemma_rotate_full<F: Fn(&Link) -> Node>(
    o: SparseTree,
    t1: SparseTree,
    c0: SparseTree,
    c1: SparseTree,
    t2: SparseTree,
    c2: SparseTree,
    left: bool,
    get_node: &F,
)
    requires
        fetches(get_node),
        fetch_exact(get_node),
        full_ordered(o, get_node),
        fetched_side(o, t1, left, get_node),
        t1.child(left) == Some(Box::new(c0)),
        fetched_side(c0, c1, !left, get_node),
        t2.node.key == o.node.key,
        t2.node.value == o.node.value,
        t2.node.link(!left) == o.node.link(!left),
        t2.child(!left) == o.child(!left),
        t2.child(left) == c1.child(!left),
        t2.child(left) is None ==> t2.node.link(left) is None,
        t2.child(left) is Some ==> t2.node.link(left) is Some,
        c2.node.link(!left) is Some,
        c2.node.key == c0.node.key,
        c2.node.value == c0.node.value,
        c2.node.link(left) == c0.node.link(left),
        c2.child(left) == c0.child(left),
        c2.child(!left) == Some(Box::new(t2)),
    ensures
        full_ordered(c2, get_node),
        full_entries(c2, get_node) == full_entries(o, get_node),
{
    lemma_lex_order();
    lemma_fetch_keeps_full(o, t1, left, get_node);
    assert(full_ordered(t1, get_node));
    assert(full_ordered(c0, get_node));
    lemma_fetch_keeps_full(c0, c1, !left, get_node);
    assert(full_ordered(c1, get_node));
    lemma_full_sides(o, get_node);
    lemma_full_sides(c1, get_node);
    let ck = c0.node.key@;
    let k = o.node.key@;
    assert(full_side(o, left, get_node) == full_entries(c0, get_node));
    assert(full_entries(c0, get_node).contains_key(ck));
    assert(full_side(t2, left, get_node) == full_side(c1, !left, get_node));
    assert(full_side(t2, !left, get_node) == full_side(o, !left, get_node));
    assert(side_ordered(t2, left, get_node) == side_ordered(c1, !left, get_node));
    assert(side_ordered(t2, !left, get_node) == side_ordered(o, !left, get_node));
    assert(full_side(c2, left, get_node) == full_side(c1, left, get_node));
    assert(side_ordered(c2, left, get_node) == side_ordered(c1, left, get_node));
    assert(full_side(c2, !left, get_node) == full_entries(t2, get_node));
    let inner = full_side(c1, !left, get_node);
    let outer = full_side(c1, left, get_node);
    let lo = full_side(o, left, get_node);
    assert forall|x: Seq<u8>| #[trigger] inner.contains_key(x) implies lo.contains_key(x) by {}
    assert forall|x: Seq<u8>| #[trigger] outer.contains_key(x) implies lo.contains_key(x) by {}
    assert(full_ordered(t2, get_node));
    assert(full_ordered(c2, get_node));
    assert(full_entries(c2, get_node) =~= full_entries(o, get_node));
}

impl SparseTree {
    /// Puts `value` under `key`: replaces the value of the node with that
    /// key, or adds a node below the leaf where the key belongs (fetching
    /// nodes on the way as needed). The tree is not rebalanced.
    pub fn put<F: Fn(&Link) -> Node>(&mut self, key: &[u8], value: &[u8], get_node: &F)
        requires
            wf(*old(self)),
            old(self).node.height_spec() < u8::MAX,
            fetches(get_node),
        ensures
            links_ok(*final(self)),
            final(self).node.key@ == old(self).node.key@,
            final(self).node.height_spec() <= old(self).node.height_spec() + 1,
            entries(*final(self)).contains_key(key@),
            entries(*final(self))[key@] == value@,
            loaded(*old(self)) ==> {
                &&& loaded(*final(self))
                &&& ordered(*final(self))
                &&& entries(*final(self)) == entries(*old(self)).insert(key@, value@)
            },
            fetch_exact(get_node) && full_ordered(*old(self), get_node) ==> {
                &&& full_ordered(*final(self), get_node)
                &&& full_entries(*final(self), get_node) == full_entries(*old(self), get_node).insert(key@, value@)
            },
        decreases old(self).node.height_spec(),
    {
        proof {
            lemma_lex_order();
        }
        let o = compare(key, self.node.key.as_slice());
        if o == Order::Equal {
            self.node.set_value(value);
            proof {
                assert(entries(*self) =~= entries(*old(self)).insert(key@, value@));
                assert(full_side(*self, true, get_node) == full_side(*old(self), true, get_node));
                assert(full_side(*self, false, get_node) == full_side(*old(self), false, get_node));
                assert(full_entries(*self, get_node) =~= full_entries(*old(self), get_node).insert(key@, value@));
            }
            return;
        }
        let left = o == Order::Less;
        self.maybe_get_child(left, get_node);
        let ghost loaded_self = *self;
        proof {
            if fetch_exact(get_node) {
                lemma_fetch_keeps_full(*old(self), loaded_self, left, get_node);
            }
        }
        let mut child = if left {
            self.left.take()
        } else {
            self.right.take()
        };
        match child {
            Some(mut c) => {
                assert(c.node.height_spec() < old(self).node.height_spec());
                assert(links_ok(*c));
                assert(ordered(*c));
                c.put(key, value, get_node);
                child = Some(c);
            },
            None => {
                child = Some(Box::new(SparseTree::new(Node::new(key, value))));
            },
        }
        if left {
            self.left = child;
        } else {
            self.right = child;
        }
        let ghost put_self = *self;
        self.update_child(left);
        proof {
            let c = child->Some_0;
            lemma_same_but_parent(*self.child(left)->Some_0, *c);
            assert(self.child(left) == Some(Box::new(*self.child(left)->Some_0)));
            assert(entries(*c).contains_key(key@));
            if left {
                if let Some(r) = old(self).right {
                    assert(!entries(*r).contains_key(key@));
                }
            }
            assert(entries(*self).contains_key(key@));
            assert(entries(*self)[key@] == value@);
            if loaded(*old(self)) {
                assert(loaded_self == *old(self));
                assert(entries(*self) =~= entries(*old(self)).insert(key@, value@));
            }
            if fetch_exact(get_node) && full_ordered(*old(self), get_node) {
                let ls = loaded_self;
                let cn = *self.child(left)->Some_0;
                lemma_same_but_parent_full(cn, *c, get_node);
                assert(full_ordered(ls, get_node));
                assert(full_entries(*c, get_node) == full_side(ls, left, get_node).insert(key@, value@)) by {
                    if ls.child(left) is None {
                        assert(ls.node.link(left) is None);
                        assert(full_side(*c, true, get_node) =~= Map::empty());
                        assert(full_side(*c, false, get_node) =~= Map::empty());
                        assert(full_side(ls, left, get_node) =~= Map::empty());
                        assert(full_entries(*c, get_node) =~= Map::empty().insert(key@, value@));
                    }
                }
                assert(full_side(*self, left, get_node) == full_entries(cn, get_node));
                assert(full_side(*self, !left, get_node) == full_side(ls, !left, get_node));
                assert(side_ordered(*self, !left, get_node) == side_ordered(ls, !left, get_node));
                let k = self.node.key@;
                if left {
                    assert forall|x: Seq<u8>| #[trigger] full_side(*self, true, get_node).contains_key(x) implies lex_lt(x, k) by {
                        if x != key@ {
                            assert(full_side(ls, true, get_node).contains_key(x));
                        }
                    }
                    assert(!full_side(ls, false, get_node).contains_key(key@));
                } else {
                    assert forall|x: Seq<u8>| #[trigger] full_side(*self, false, get_node).contains_key(x) implies lex_lt(k, x) by {
                        if x != key@ {
                            assert(full_side(ls, false, get_node).contains_key(x));
                        }
                    }
                    assert(!full_side(ls, true, get_node).contains_key(key@));
                }
                assert(full_ordered(*self, get_node));
                assert(full_entries(*self, get_node) =~= full_entries(ls, get_node).insert(key@, value@));
            }
        }
    }
}

/// The entries of the subtree on one side, none if it is not in memory.
pub open spec fn side_entries(t: SparseTree, left: bool) -> Map<Seq<u8>, Seq<u8>> {
    match t.child(left) {
        Some(c) => entries(*c),
        None => Map::empty(),
    }
}

/// An ordered tree's entries are its root's pair and those of its two
/// sides, whose keys lie below and above the root's.
proof fn lemma_sides(t: SparseTree, left: bool)
    requires
        ordered(t),
    ensures
        forall|k: Seq<u8>| #[trigger] entries(t).contains_key(k) <==> (k == t.node.key@
            || side_entries(t, left).contains_key(k) || side_entries(t, !left).contains_key(k)),
        entries(t)[t.node.key@] == t.node.value@,
        forall|k: Seq<u8>| #[trigger] side_entries(t, true).contains_key(k) ==> lex_lt(k, t.node.key@)
            && entries(t)[k] == side_entries(t, true)[k],
        forall|k: Seq<u8>| #[trigger] side_entries(t, false).contains_key(k) ==> lex_lt(t.node.key@, k)
            && entries(t)[k] == side_entries(t, false)[k],
{
    lemma_lex_order();
    let key = t.node.key@;
    assert forall|k: Seq<u8>| #[trigger] side_entries(t, true).contains_key(k) implies lex_lt(k, key)
        && entries(t)[k] == side_entries(t, true)[k] by {
        assert(!side_entries(t, false).contains_key(k)) by {
            if side_entries(t, false).contains_key(k) {
                assert(lex_lt(key, k));
            }
        }
    }
}

/// How a rotation towards `left` rearranges a loaded tree `o` into `t`:
/// the child `c` on side `left` becomes the root and keeps its subtree on
/// that side; the old root goes below it on the other side, keeping its own
/// subtree there and taking `c`'s inner subtree on side `left`.
pub open spec fn rotated(o: SparseTree, t: SparseTree, left: bool) -> bool {
    o.child(left) matches Some(c) && t.child(!left) matches Some(d) && {
        &&& t.node.key == c.node.key
        &&& t.node.value == c.node.value
        &&& t.node.link(left) == c.node.link(left)
        &&& t.child(left) == c.child(left)
        &&& d.node.key == o.node.key
        &&& d.node.value == o.node.value
        &&& d.node.link(!left) == o.node.link(!left)
        &&& d.child(!left) == o.child(!left)
        &&& d.child(left) == c.child(!left)
    }
}

impl SparseTree {
    /// Rotates the tree in `slot`: the root's child on side `left` (fetched
    /// if needed) becomes the root, the old root becomes its subtree on the
    /// other side, and the subtree the child had on that other side moves
    /// under the old root, on side `left`. The links of the two moved nodes
    /// are recomputed. Fails when a recomputed height does not fit in a
    /// byte; the slot then still holds a tree.
    pub fn rotate<F: Fn(&Link) -> Node>(slot: &mut Option<Box<SparseTree>>, left: bool, get_node: &F) -> (r: Result<(), Error>)
        requires
            fetches(get_node),
            old(slot).is_some(),
            old(slot).unwrap().node.link(left) is Some,
        ensures
            final(slot).is_some(),
            r matches Err(e) ==> e is Overflow,
            r is Ok ==> ({
                let t = *final(slot).unwrap();
                let o = *old(slot).unwrap();
                loaded(o) && wf(o) ==> {
                    &&& t.node.key@ == o.node.link(left)->Some_0.key@
                    &&& t.node.height_spec() <= o.node.height_spec() + 1
                    &&& t.child(!left) matches Some(d) && d.node.key@ == o.node.key@
                    &&& wf(t) && loaded(t) && entries(t) == entries(o)
                    &&& rotated(o, t, left)
                }
            }),
            old(slot).unwrap().node.height_spec() < u8::MAX && loaded(*old(slot).unwrap()) && wf(*old(slot).unwrap()) ==> r is Ok,
            r is Ok && fetch_exact(get_node) && slot_full_ordered(*old(slot), get_node) ==> slot_full_ordered(
                *final(slot),
                get_node,
            ) && slot_full(*final(slot), get_node) == slot_full(*old(slot), get_node),
    {
        proof {
            lemma_lex_order();
        }
        let ghost o = *old(slot).unwrap();
        let mut tree = match slot.take() {
            Some(t) => t,
            None => {
                assert(false);
                return Ok(());
            },
        };
        tree.maybe_get_child(left, get_node);
        let ghost t1 = *tree;
        let taken = if left {
            tree.left.take()
        } else {
            tree.right.take()
        };
        let mut child = match taken {
            Some(c) => c,
            None => {
                assert(false);
                return Ok(());
            },
        };
        let ghost c0 = *child;
        child.maybe_get_child(!left, get_node);
        let ghost c1 = *child;
        proof {
            if wf(o) {
            assert(c0.node.height_spec() == o.node.link(left)->Some_0.height) by {
                if o.child(left) is Some {
                    assert(o.child(left) == Some(Box::new(c0)));
                    assert(links_ok(c0));
                }
            }
            if c1.child(!left) is Some {
                assert(c1.child(!left)->Some_0.node.height_spec() == c0.node.link(!left)->Some_0.height)
                    by {
                    if c0.child(!left) is Some {
                        assert(o.child(left) == Some(Box::new(c0)));
                        assert(links_ok(c0));
                    }
                }
            }
            }
        }
        let grandchild = if left {
            child.right.take()
        } else {
            child.left.take()
        };
        proof {
            if loaded(o) && wf(o) && o.node.height_spec() < u8::MAX {
                assert(t1 == o);
                assert(o.child(left) == Some(Box::new(c0)));
                assert(links_ok(c0));
                assert(loaded(c0));
                assert(c1.child(!left) == c0.child(!left));
                assert(c1.child(left) == c0.child(left));
                assert(c1 == c0);
                if grandchild is Some {
                    let g = grandchild->Some_0;
                    assert(c0.child(!left) == Some(g));
                    assert(g.node.height_spec() < c0.node.height_spec());
                }
            }
        }
        let grandchild_fits = match &grandchild {
            Some(g) => fits(g),
            None => true,
        };
        if left {
            tree.left = grandchild;
        } else {
            tree.right = grandchild;
        }
        if !grandchild_fits {
            *slot = Some(tree);
            return Err(overflow());
        }
        tree.update_link(left);
        if !fits(&tree) {
            *slot = Some(tree);
            return Err(overflow());
        }
        let ghost t2 = *tree;
        if left {
            child.right = Some(tree);
        } else {
            child.left = Some(tree);
        }
        child.update_link(!left);
        let ghost c2 = *child;
        proof {
            assert(c2.child(!left) == Some(Box::new(t2)));
            if fetch_exact(get_node) && full_ordered(o, get_node) {
                lemma_rotate_full(o, t1, c0, c1, t2, c2, left, get_node);
            }
            if loaded(o) && wf(o) {
                assert(t1 == o);
                assert(o.child(left) == Some(Box::new(c0)));
                assert(loaded(c0));
                assert(links_ok(c0));
                assert(c1.child(!left) == c0.child(!left));
                assert(c1.child(left) == c0.child(left));
                assert(c1 == c0);
                assert(forall|k: Seq<u8>| #[trigger] entries(c0).contains_key(k) ==> (if left {
                    lex_lt(k, o.node.key@)
                } else {
                    lex_lt(o.node.key@, k)
                }));
                assert(ordered(c0));
                let ck = c0.node.key@;
                let ok = o.node.key@;
                assert(if left { lex_lt(ck, ok) } else { lex_lt(ok, ck) });
                let ge = side_entries(c0, !left);
                let ce = side_entries(c0, left);
                let oe = side_entries(o, !left);
                assert(t2.child(left) == c0.child(!left));
                assert(t2.child(!left) == o.child(!left));
                assert(c2.child(left) == c0.child(left));
                assert(side_entries(t2, left) == ge);
                assert(side_entries(t2, !left) == oe);
                assert(side_entries(c2, left) == ce);
                lemma_sides(o, left);
                lemma_sides(c0, left);
                assert forall|k: Seq<u8>| #[trigger] ge.contains_key(k) implies (if left {
                    lex_lt(k, ok) && lex_lt(ck, k)
                } else {
                    lex_lt(ok, k) && lex_lt(k, ck)
                }) by {
                    assert(entries(c0).contains_key(k));
                    if left {
                        assert(side_entries(c0, false).contains_key(k));
                    } else {
                        assert(side_entries(c0, true).contains_key(k));
                    }
                }
                assert(links_ok(t2)) by {
                    if c0.child(!left) is Some {
                        let g = *c0.child(!left)->Some_0;
                        assert(entries(g).contains_key(g.node.key@));
                        assert(ge.contains_key(g.node.key@));
                    }
                }
                assert(ordered(t2));
                lemma_sides(t2, left);
                assert(links_ok(c2));
                assert(forall|k: Seq<u8>| #[trigger] entries(t2).contains_key(k) ==> (if left {
                    lex_lt(ck, k)
                } else {
                    lex_lt(k, ck)
                }));
                assert(ordered(c2));
                lemma_sides(c2, left);
                assert(loaded(t2));
                assert(loaded(c2));
                assert(entries(c2) =~= entries(o));
            }
        }
        *slot = Some(child);
        Ok(())
    }
}

/// Whether a tree's height fits in a byte, as a link records it.
fn fits(t: &SparseTree) -> (b: bool)
    ensures
        b == (t.node.height_spec() <= u8::MAX),
{
    t.node.child_height(true) < 255 && t.node.child_height(false) < 255
}

/// The error for a recursion that went deeper than its bound.
fn too_deep() -> (e: Error)
    ensures
        e is Tree,
{
    Error::Tree("rebalancing went deeper than its bound".to_owned())
}

/// The error for a height that no longer fits in a byte.
fn overflow() -> (e: Error)
    ensures
        e is Overflow,
{
    Error::Overflow("tree height does not fit in a byte".to_owned())
}


/// The key/value pairs held in a slot: none when it is empty.
pub open spec fn slot_entries(s: Option<Box<SparseTree>>) -> Map<Seq<u8>, Seq<u8>> {
    match s {
        Some(t) => entries(*t),
        None => Map::empty(),
    }
}

/// Whether the tree in a slot is loaded and well formed (an empty slot is).
pub open spec fn slot_ok(s: Option<Box<SparseTree>>) -> bool {
    match s {
        Some(t) => loaded(*t) && wf(*t),
        None => true,
    }
}

/// Whether the root in a slot is balanced: the heights its links record
/// differ by at most one.
pub open spec fn root_balanced(s: Option<Box<SparseTree>>) -> bool {
    match s {
        Some(t) => -1 <= link_height(t.node.right) - link_height(t.node.left) <= 1,
        None => true,
    }
}

/// Whether the heights a node's links record for its two sides differ by
/// at most one.
pub open spec fn node_balanced(n: Node) -> bool {
    -1 <= link_height(n.right) - link_height(n.left) <= 1
}

/// Whether every node in memory is balanced.
pub open spec fn all_balanced(t: SparseTree) -> bool
    decreases t,
{
    &&& node_balanced(t.node)
    &&& (t.left matches Some(c) ==> all_balanced(*c))
    &&& (t.right matches Some(c) ==> all_balanced(*c))
}

/// Whether every node in a slot is balanced (an empty slot is).
pub open spec fn slot_balanced(s: Option<Box<SparseTree>>) -> bool {
    match s {
        Some(t) => all_balanced(*t),
        None => true,
    }
}

/// Whether every node below the root in a slot is balanced.
pub open spec fn sides_balanced(s: Option<Box<SparseTree>>) -> bool {
    match s {
        Some(t) => slot_balanced(t.left) && slot_balanced(t.right),
        None => true,
    }
}

/// Rotating a balanced child whose inner side is the taller one leaves
/// every node below the new root balanced.
proof fn lemma_double_inner_balanced(c0: SparseTree, g2: SparseTree, left: bool)
    requires
        loaded(c0),
        wf(c0),
        all_balanced(c0),
        link_height(c0.node.link(!left)) > link_height(c0.node.link(left)),
        rotated(c0, g2, !left),
        loaded(g2),
        wf(g2),
    ensures
        sides_balanced(Some(Box::new(g2))),
{
    let g = *c0.child(!left)->Some_0;
    let d = *g2.child(left)->Some_0;
    assert(all_balanced(g));
    assert(links_ok(g2));
    assert(links_ok(d));
    assert(loaded(d));
    assert(loaded(g));
    assert(links_ok(g));
    assert(g.node.height_spec() == link_height(c0.node.link(!left)));
    assert(link_height(d.node.link(!left)) == link_height(g.node.link(left))) by {
        if d.child(!left) is Some {
            let e = *d.child(!left)->Some_0;
            assert(g.child(left) == d.child(!left));
            assert(e.node.height_spec() == link_height(g.node.link(left)));
        }
    }
    assert(node_balanced(d.node));
    assert(all_balanced(d));
}

/// Replacing the subtree on one side of a loaded, well-formed tree by one
/// with the same pairs, described by the new link, keeps the tree loaded
/// and well formed, with the same pairs.
proof fn lemma_replace_side(o: SparseTree, n: SparseTree, left: bool)
    requires
        loaded(o),
        wf(o),
        n.node.key == o.node.key,
        n.node.value == o.node.value,
        n.node.kv_hash == o.node.kv_hash,
        n.node.link(!left) == o.node.link(!left),
        n.child(!left) == o.child(!left),
        o.child(left) matches Some(d) && n.child(left) matches Some(c) && loaded(*c) && wf(*c)
            && entries(*c) == entries(*d) && (n.node.link(left) matches Some(l) && describes(l, *c)),
    ensures
        loaded(n),
        wf(n),
        entries(n) == entries(o),
{
    lemma_lex_order();
    let c = *n.child(left)->Some_0;
    assert(entries(c).contains_key(c.node.key@));
    assert(entries(n) =~= entries(o));
}

/// Replacing the subtree on one side of a loaded, well-formed tree by one
/// holding the same pairs but `k`, with a link to match, removes `k`.
proof fn lemma_replace_side_remove(o: SparseTree, n: SparseTree, left: bool, k: Seq<u8>)
    requires
        loaded(o),
        wf(o),
        n.node.key == o.node.key,
        n.node.value == o.node.value,
        n.node.kv_hash == o.node.kv_hash,
        n.node.link(!left) == o.node.link(!left),
        n.child(!left) == o.child(!left),
        slot_entries(o.child(left)).contains_key(k),
        slot_ok(n.child(left)),
        slot_entries(n.child(left)) == slot_entries(o.child(left)).remove(k),
        match n.child(left) {
            Some(c) => n.node.link(left) matches Some(l) && describes(l, *c),
            None => n.node.link(left) is None,
        },
    ensures
        loaded(n),
        wf(n),
        entries(n) == entries(o).remove(k),
{
    lemma_lex_order();
    lemma_sides(o, left);
    if let Some(c) = n.child(left) {
        assert(entries(*c).contains_key(c.node.key@));
        assert(slot_entries(n.child(left)).contains_key(c.node.key@));
    }
    assert(side_entries(n, left) == slot_entries(n.child(left)));
    assert(side_entries(n, !left) == side_entries(o, !left));
    assert(ordered(n));
    lemma_sides(n, left);
    assert(entries(n) =~= entries(o).remove(k));
}

/// A tree holding one node and no links.
pub open spec fn bare(t: SparseTree) -> bool {
    &&& node_ok(t.node)
    &&& t.node.left is None
    &&& t.node.right is None
    &&& t.left is None
    &&& t.right is None
}

/// The key at one end of a tree's pairs: below every other key when `left`,
/// above every other otherwise.
pub open spec fn at_edge(m: Map<Seq<u8>, Seq<u8>>, k: Seq<u8>, left: bool) -> bool {
    forall|x: Seq<u8>| #[trigger] m.contains_key(x) && x != k ==> (if left {
        lex_lt(k, x)
    } else {
        lex_lt(x, k)
    })
}

impl SparseTree {
    /// Rebalances the tree in `slot` while its root's two sides differ in
    /// height by more than one: rotates the taller side up (first rotating
    /// that child the other way when its inner side is the taller), then
    /// rebalances the old root, now below, and the new root again. Every
    /// round goes one level deeper; going deeper than `depth` is an error, as is a
    /// height that no longer fits in a byte.
    #[verifier::rlimit(60)]
    #[verifier::spinoff_prover]
    fn maybe_rebalance<F: Fn(&Link) -> Node>(slot: &mut Option<Box<SparseTree>>, get_node: &F, depth: u64) -> (r: Result<(), Error>)
        requires
            fetches(get_node),
        ensures
            final(slot).is_some() == old(slot).is_some(),
            r matches Err(e) ==> e is Overflow || e is Tree,
            r is Ok ==> root_balanced(*final(slot)),
            r is Ok && slot_ok(*old(slot)) ==> slot_ok(*final(slot)) && slot_entries(*final(slot)) == slot_entries(
                *old(slot),
            ),
            r is Ok && slot_ok(*old(slot)) && sides_balanced(*old(slot)) ==> slot_balanced(*final(slot)),
            depth > 0 && root_balanced(*old(slot)) ==> r is Ok && *final(slot) == *old(slot),
            r is Ok && fetch_exact(get_node) && slot_full_ordered(*old(slot), get_node) ==> slot_full_ordered(
                *final(slot),
                get_node,
            ) && slot_full(*final(slot), get_node) == slot_full(*old(slot), get_node),
        decreases depth,
    {
        if depth == 0 {
            return Err(too_deep());
        }
        let ghost o = *old(slot);
        let mut tree = match slot.take() {
            None => return Ok(()),
            Some(t) => t,
        };
        let lh = tree.node.child_height(true);
        let rh = tree.node.child_height(false);
        if (lh as u16) <= (rh as u16) + 1 && (rh as u16) <= (lh as u16) + 1 {
            proof {
                assert(node_balanced(tree.node));
            }
            *slot = Some(tree);
            return Ok(());
        }
        let left = rh < lh;
        let ghost t0 = *tree;
        tree.maybe_get_child(left, get_node);
        let ghost t1 = *tree;
        let taken = if left {
            tree.left.take()
        } else {
            tree.right.take()
        };
        let child = match taken {
            Some(c) => c,
            None => {
                assert(false);
                return Ok(());
            },
        };
        let clh = child.node.child_height(true);
        let crh = child.node.child_height(false);
        let double = if left {
            crh > clh
        } else {
            crh < clh
        };
        let ghost c0 = *child;
        proof {
            if slot_ok(o) {
                assert(t0 == *o->Some_0);
                assert(t1 == t0);
                assert(t0.child(left) == Some(Box::new(c0)));
                assert(loaded(c0) && wf(c0));
                if sides_balanced(o) {
                    assert(all_balanced(c0));
                }
            }
        }
        let mut cs = Some(child);
        if double {
            match SparseTree::rotate(&mut cs, !left, get_node) {
                Ok(()) => {},
                Err(e) => {
                    if left {
                        tree.left = cs;
                    } else {
                        tree.right = cs;
                    }
                    *slot = Some(tree);
                    return Err(e);
                },
            }
            proof {
                if slot_ok(o) && sides_balanced(o) {
                    lemma_double_inner_balanced(c0, *cs->Some_0, left);
                }
            }
            match SparseTree::maybe_rebalance(&mut cs, get_node, depth - 1) {
                Ok(()) => {},
                Err(e) => {
                    if left {
                        tree.left = cs;
                    } else {
                        tree.right = cs;
                    }
                    *slot = Some(tree);
                    return Err(e);
                },
            }
        }
        proof {
            if slot_ok(o) && sides_balanced(o) {
                assert(slot_balanced(cs));
            }
        }
        proof {
            if fetch_exact(get_node) && slot_full_ordered(o, get_node) {
                lemma_fetch_keeps_full(t0, t1, left, get_node);
                assert(t1.child(left) == Some(Box::new(c0)));
                assert(full_ordered(c0, get_node));
                assert(slot_full(cs, get_node) == full_entries(c0, get_node));
                assert(slot_full_ordered(cs, get_node));
            }
        }
        let cs_fits = match &cs {
            Some(c) => fits(c),
            None => true,
        };
        if left {
            tree.left = cs;
        } else {
            tree.right = cs;
        }
        if !cs_fits {
            *slot = Some(tree);
            return Err(overflow());
        }
        let ghost t2 = *tree;
        tree.update_link(left);
        proof {
            if slot_ok(o) {
                assert(t0 == *o->Some_0);
                assert(t2.child(left) is Some);
                assert(slot_ok(t2.child(left)));
                assert(slot_entries(t2.child(left)) == entries(c0));
                lemma_replace_side(t0, *tree, left);
                assert(wf(*tree) && loaded(*tree) && entries(*tree) == entries(t0));
                if sides_balanced(o) {
                    assert(slot_balanced(tree.child(left)));
                    assert(slot_balanced(tree.child(!left)));
                }
            }
        }
        if tree.node.child_link(left).is_none() {
            *slot = Some(tree);
            assert(false);
            return Ok(());
        }
        let ghost t3 = *tree;
        proof {
            if fetch_exact(get_node) && slot_full_ordered(o, get_node) {
                assert(t0 == *o->Some_0);
                assert(t3.child(left) == t2.child(left));
                lemma_replace_side_full(t1, t3, left, get_node);
                assert(full_entries(t1, get_node) == full_entries(t0, get_node));
            }
        }
        *slot = Some(tree);
        SparseTree::rotate(slot, left, get_node)?;
        let mut tree = match slot.take() {
            Some(t) => t,
            None => {
                assert(false);
                return Ok(());
            },
        };
        let ghost u0 = *tree;
        tree.maybe_get_child(!left, get_node);
        let ghost u1 = *tree;
        let mut ds = if left {
            tree.right.take()
        } else {
            tree.left.take()
        };
        let ghost d0 = ds;
        proof {
            if slot_ok(o) {
                assert(loaded(u0) && wf(u0) && entries(u0) == entries(*o->Some_0));
                assert(u1 == u0);
                assert(d0 == u0.child(!left));
                assert(d0 is Some);
                assert(slot_ok(d0));
                if sides_balanced(o) {
                    let c = *t3.child(left)->Some_0;
                    let d = *u0.child(!left)->Some_0;
                    assert(rotated(t3, u0, left));
                    assert(all_balanced(c));
                    assert(slot_balanced(c.child(left)) && slot_balanced(c.child(!left)));
                    assert(slot_balanced(t3.child(!left)));
                    assert(d.child(left) == c.child(!left));
                    assert(d.child(!left) == t3.child(!left));
                    assert(sides_balanced(d0));
                    assert(slot_balanced(u0.child(left)));
                }
            }
        }
        match SparseTree::maybe_rebalance(&mut ds, get_node, depth - 1) {
            Ok(()) => {},
            Err(e) => {
                if left {
                    tree.right = ds;
                } else {
                    tree.left = ds;
                }
                *slot = Some(tree);
                return Err(e);
            },
        }
        let ds_fits = match &ds {
            Some(d) => fits(d),
            None => true,
        };
        if left {
            tree.right = ds;
        } else {
            tree.left = ds;
        }
        if !ds_fits {
            *slot = Some(tree);
            return Err(overflow());
        }
        let ghost u2 = *tree;
        tree.update_link(!left);
        proof {
            if fetch_exact(get_node) && slot_full_ordered(o, get_node) {
                lemma_fetch_keeps_full(u0, u1, !left, get_node);
                assert(full_ordered(u1, get_node));
                assert(u1.child(!left) is None ==> u1.node.link(!left) is None);
                assert(tree.child(!left) == u2.child(!left));
                lemma_replace_side_full(u1, *tree, !left, get_node);
            }
        }
        proof {
            if slot_ok(o) {
                assert(slot_ok(u2.child(!left)));
                lemma_replace_side(u0, *tree, !left);
                if sides_balanced(o) {
                    assert(tree.child(left) == u0.child(left));
                    assert(slot_balanced(tree.child(!left)));
                    assert(sides_balanced(Some(tree)));
                }
            }
        }
        *slot = Some(tree);
        SparseTree::maybe_rebalance(slot, get_node, depth - 1)
    }

    /// `remove_edge`, going at most `depth` levels down.
    #[verifier::rlimit(60)]
    #[verifier::spinoff_prover]
    fn take_edge<F: Fn(&Link) -> Node>(slot: &mut Option<Box<SparseTree>>, get_node: &F, left: bool, depth: u64) -> (r: Result<Option<Box<SparseTree>>, Error>)
        requires
            fetches(get_node),
            old(slot).is_some(),
        ensures
            r matches Err(e) ==> e is Overflow || e is Tree,
            r matches Ok(x) ==> x is Some,
            r matches Ok(x) ==> (slot_ok(*old(slot)) ==> {
                let e = *x->Some_0;
                let m = slot_entries(*old(slot));
                &&& bare(e)
                &&& m.contains_key(e.node.key@)
                &&& m[e.node.key@] == e.node.value@
                &&& at_edge(m, e.node.key@, left)
                &&& slot_ok(*final(slot))
                &&& slot_entries(*final(slot)) == m.remove(e.node.key@)
            }),
            r is Ok && slot_ok(*old(slot)) && slot_balanced(*old(slot)) ==> slot_balanced(*final(slot)),
            depth > 0 && slot_ok(*old(slot)) && old(slot)->Some_0.child(left) is None ==> r is Ok,
            r matches Ok(x) ==> (fetch_exact(get_node) && slot_full_ordered(*old(slot), get_node) ==> {
                let e = *x->Some_0;
                let m = slot_full(*old(slot), get_node);
                &&& e.node.left is None && e.node.right is None && e.left is None && e.right is None
                &&& m.contains_key(e.node.key@)
                &&& m[e.node.key@] == e.node.value@
                &&& at_edge(m, e.node.key@, left)
                &&& slot_full_ordered(*final(slot), get_node)
                &&& slot_full(*final(slot), get_node) == m.remove(e.node.key@)
            }),
        decreases depth,
    {
        if depth == 0 {
            return Err(too_deep());
        }
        proof {
            lemma_lex_order();
        }
        let ghost o = *old(slot)->Some_0;
        let mut tree = match slot.take() {
            Some(t) => t,
            None => {
                assert(false);
                return Ok(None);
            },
        };
        let present = tree.maybe_get_child(left, get_node);
        if !present {
            let ghost t1 = *tree;
            let has_other = tree.maybe_get_child(!left, get_node);
            let ghost t1b = *tree;
            if has_other {
                let other = if left {
                    tree.right.take()
                } else {
                    tree.left.take()
                };
                *slot = other;
                tree.update_link(!left);
            }
            proof {
                if slot_ok(Some(Box::new(o))) {
                    assert(t1 == o);
                    lemma_sides(o, left);
                    assert(side_entries(o, left) =~= Map::empty());
                    assert(slot_entries(*slot) =~= entries(o).remove(o.node.key@));
                    assert(slot_ok(*slot));
                }
                if fetch_exact(get_node) && full_ordered(o, get_node) {
                    lemma_lex_order();
                    lemma_fetch_keeps_full(o, t1, left, get_node);
                    lemma_fetch_keeps_full(t1, t1b, !left, get_node);
                    lemma_full_sides(o, get_node);
                    assert(full_side(o, left, get_node) =~= Map::empty());
                    assert(slot_full(*slot, get_node) == full_side(o, !left, get_node));
                    assert(slot_full(*slot, get_node) =~= full_entries(o, get_node).remove(o.node.key@));
                    assert(slot_full_ordered(*slot, get_node));
                    assert(at_edge(full_entries(o, get_node), o.node.key@, left));
                }
            }
            return Ok(Some(tree));
        }
        let ghost t1 = *tree;
        let mut cs = if left {
            tree.left.take()
        } else {
            tree.right.take()
        };
        let ghost c0 = cs;
        proof {
            if loaded(o) && wf(o) {
                assert(t1 == o);
                assert(c0 == o.child(left));
                assert(slot_ok(c0));
            }
        }
        let result = match SparseTree::take_edge(&mut cs, get_node, left, depth - 1) {
            Ok(x) => x,
            Err(e) => {
                if left {
                    tree.left = cs;
                } else {
                    tree.right = cs;
                }
                *slot = Some(tree);
                return Err(e);
            },
        };
        let cs_fits = match &cs {
            Some(c) => fits(c),
            None => true,
        };
        if left {
            tree.left = cs;
        } else {
            tree.right = cs;
        }
        if !cs_fits {
            *slot = Some(tree);
            return Err(overflow());
        }
        let ghost t2 = *tree;
        tree.update_link(left);
        let ghost t3 = *tree;
        proof {
            if loaded(o) && wf(o) {
                let e = *result->Some_0;
                let k = e.node.key@;
                assert(c0 == o.child(left));
                assert(slot_entries(c0).contains_key(k));
                assert(t3.child(left) == t2.child(left));
                assert(slot_entries(t3.child(left)) == slot_entries(c0).remove(k));
                lemma_replace_side_remove(o, t3, left, k);
                lemma_sides(o, left);
                assert(side_entries(o, left) == slot_entries(c0));
                assert(at_edge(slot_entries(c0), k, left));
                assert forall|x: Seq<u8>| #[trigger] entries(o).contains_key(x) && x != k implies (if left {
                    lex_lt(k, x)
                } else {
                    lex_lt(x, k)
                }) by {
                    if side_entries(o, left).contains_key(x) {
                    } else if x == o.node.key@ {
                    } else {
                        assert(side_entries(o, !left).contains_key(x));
                    }
                }
                assert(at_edge(entries(o), k, left));
                if slot_balanced(Some(Box::new(o))) {
                    assert(slot_balanced(c0));
                    assert(slot_balanced(t3.child(left)));
                    assert(slot_balanced(t3.child(!left)));
                }
            }
            if fetch_exact(get_node) && full_ordered(o, get_node) {
                let e = *result->Some_0;
                let k = e.node.key@;
                lemma_fetch_keeps_full(o, t1, left, get_node);
                assert(full_ordered(t1, get_node));
                assert(c0 == t1.child(left));
                assert(slot_full_ordered(c0, get_node));
                assert(t3.child(left) == t2.child(left));
                lemma_replace_side_full_remove(t1, t3, left, k, get_node);
                lemma_full_sides(t1, get_node);
                let m = full_entries(o, get_node);
                let lm = full_side(t1, left, get_node);
                assert(lm == slot_full(c0, get_node));
                assert(at_edge(lm, k, left));
                assert forall|x: Seq<u8>| #[trigger] m.contains_key(x) && x != k implies (if left {
                    lex_lt(k, x)
                } else {
                    lex_lt(x, k)
                }) by {
                    if lm.contains_key(x) {
                    } else if x == o.node.key@ {
                    } else {
                        assert(full_side(t1, !left, get_node).contains_key(x));
                    }
                }
                assert(m[k] == e.node.value@);
            }
        }
        *slot = Some(tree);
        match SparseTree::maybe_rebalance(slot, get_node, u64::MAX) {
            Ok(()) => {},
            Err(e) => return Err(e),
        }
        Ok(result)
    }

    /// Takes the node at the end of the tree in `slot` on side `left` (its
    /// smallest key when `left`, its largest otherwise) out of the tree,
    /// moving its other subtree up into its place, and returns it, bare.
    /// The nodes above it are rebalanced on the way back up. Fails when a
    /// height no longer fits in a byte, or when rebalancing goes more than
    /// `u64::MAX` levels deep. A loaded tree with nothing on side `left` gives
    /// up its root.
    pub fn remove_edge<F: Fn(&Link) -> Node>(slot: &mut Option<Box<SparseTree>>, get_node: &F, left: bool) -> (r: Result<Option<Box<SparseTree>>, Error>)
        requires
            fetches(get_node),
            old(slot).is_some(),
        ensures
            r matches Err(e) ==> e is Overflow || e is Tree,
            r matches Ok(x) ==> x is Some,
            r matches Ok(x) ==> (slot_ok(*old(slot)) ==> {
                let e = *x->Some_0;
                let m = slot_entries(*old(slot));
                &&& bare(e)
                &&& m.contains_key(e.node.key@)
                &&& m[e.node.key@] == e.node.value@
                &&& at_edge(m, e.node.key@, left)
                &&& slot_ok(*final(slot))
                &&& slot_entries(*final(slot)) == m.remove(e.node.key@)
            }),
            r is Ok && slot_ok(*old(slot)) && slot_balanced(*old(slot)) ==> slot_balanced(*final(slot)),
            slot_ok(*old(slot)) && old(slot)->Some_0.child(left) is None ==> r is Ok,
            r matches Ok(x) ==> (fetch_exact(get_node) && slot_full_ordered(*old(slot), get_node) ==> {
                let e = *x->Some_0;
                let m = slot_full(*old(slot), get_node);
                &&& e.node.left is None && e.node.right is None && e.left is None && e.right is None
                &&& m.contains_key(e.node.key@)
                &&& m[e.node.key@] == e.node.value@
                &&& at_edge(m, e.node.key@, left)
                &&& slot_full_ordered(*final(slot), get_node)
                &&& slot_full(*final(slot), get_node) == m.remove(e.node.key@)
            }),
    {
        SparseTree::take_edge(slot, get_node, left, u64::MAX)
    }

    /// Removes the root of the tree in `slot` and returns it. A root with
    /// two subtrees is replaced by the node next to it in key order on its
    /// taller side; a root with one is replaced by that subtree. The tree
    /// left is rebalanced. Fails when a height no longer fits in a byte,
    /// or when rebalancing goes more than `u64::MAX` levels deep; a loaded,
    /// balanced tree whose root has at most one subtree always gives it up.
    #[verifier::rlimit(60)]
    #[verifier::spinoff_prover]
    pub fn remove<F: Fn(&Link) -> Node>(slot: &mut Option<Box<SparseTree>>, get_node: &F) -> (r: Result<Box<SparseTree>, Error>)
        requires
            fetches(get_node),
            old(slot).is_some(),
        ensures
            r matches Err(e) ==> e is Overflow || e is Tree,
            r matches Ok(t) ==> t.node == old(slot)->Some_0.node,
            r is Ok ==> root_balanced(*final(slot)),
            r is Ok && slot_ok(*old(slot)) ==> slot_ok(*final(slot)) && slot_entries(*final(slot)) == slot_entries(
                *old(slot),
            ).remove(old(slot)->Some_0.node.key@),
            r is Ok && slot_ok(*old(slot)) && slot_balanced(*old(slot)) ==> slot_balanced(*final(slot)),
            slot_ok(*old(slot)) && slot_balanced(*old(slot)) && (old(slot)->Some_0.node.left is None
                || old(slot)->Some_0.node.right is None) ==> r is Ok,
            r is Ok && fetch_exact(get_node) && slot_full_ordered(*old(slot), get_node) ==> slot_full_ordered(
                *final(slot),
                get_node,
            ) && slot_full(*final(slot), get_node) == slot_full(*old(slot), get_node).remove(
                old(slot)->Some_0.node.key@,
            ),
    {
        proof {
            lemma_lex_order();
        }
        let ghost o = *old(slot)->Some_0;
        let mut tree = match slot.take() {
            Some(t) => t,
            None => {
                assert(false);
                return Err(overflow());
            },
        };
        let has_left = tree.node.child_link(true).is_some();
        let has_right = tree.node.child_link(false).is_some();
        if has_left && has_right {
            tree.maybe_get_child(true, get_node);
            let ghost ta = *tree;
            tree.maybe_get_child(false, get_node);
            let ghost t1 = *tree;
            proof {
                if fetch_exact(get_node) && full_ordered(o, get_node) {
                    lemma_fetch_keeps_full(o, ta, true, get_node);
                    lemma_fetch_keeps_full(ta, t1, false, get_node);
                }
            }
            let left = tree.node.child_height(true) > tree.node.child_height(false);
            let mut tall = if left {
                tree.left.take()
            } else {
                tree.right.take()
            };
            if tall.is_some() {
                let ghost tall0 = tall;
                proof {
                    if slot_ok(Some(Box::new(o))) {
                        assert(t1 == o);
                        assert(tall0 == o.child(left));
                        assert(slot_ok(tall0));
                    }
                }
                let edge = match SparseTree::take_edge(&mut tall, get_node, !left, u64::MAX) {
                    Ok(x) => x,
                    Err(e) => return Err(e),
                };
                let mut edge = match edge {
                    Some(e) => e,
                    None => {
                        assert(false);
                        return Err(overflow());
                    },
                };
                let ghost e0 = *edge;
                let short = if left {
                    tree.right.take()
                } else {
                    tree.left.take()
                };
                let tall_fits = match &tall {
                    Some(c) => fits(c),
                    None => true,
                };
                let short_fits = match &short {
                    Some(c) => fits(c),
                    None => true,
                };
                if left {
                    edge.left = tall;
                    edge.right = short;
                } else {
                    edge.right = tall;
                    edge.left = short;
                }
                if !tall_fits || !short_fits {
                    *slot = Some(edge);
                    return Err(overflow());
                }
                edge.update_link(true);
                edge.update_link(false);
                proof {
                    if fetch_exact(get_node) && full_ordered(o, get_node) {
                        assert(tall0 == t1.child(left));
                        assert(slot_full_ordered(tall0, get_node));
                        lemma_remove_join_full(t1, edge.child(left), e0.node.key@, e0.node.value@, *edge, left, get_node);
                    }
                    if slot_ok(Some(Box::new(o))) {
                        let k = e0.node.key@;
                        let n = *edge;
                        lemma_sides(o, left);
                        assert(side_entries(o, left) == slot_entries(tall0));
                        assert(slot_entries(tall0).contains_key(k));
                        assert(side_entries(n, left) == slot_entries(tall0).remove(k));
                        assert(side_entries(n, !left) == side_entries(o, !left));
                        assert forall|x: Seq<u8>| #[trigger] side_entries(n, left).contains_key(x) implies (if left {
                            lex_lt(x, k)
                        } else {
                            lex_lt(k, x)
                        }) by {
                            assert(slot_entries(tall0).contains_key(x));
                        }
                        let other = side_entries(n, !left);
                        assert forall|x: Seq<u8>| #[trigger] other.contains_key(x) implies (if left {
                            lex_lt(k, x)
                        } else {
                            lex_lt(x, k)
                        }) by {
                            assert(lex_lt(k, o.node.key@) || lex_lt(o.node.key@, k));
                        }
                        if let Some(c) = n.child(left) {
                            assert(entries(*c).contains_key(c.node.key@));
                            assert(side_entries(n, left).contains_key(c.node.key@));
                        }
                        if let Some(c) = n.child(!left) {
                            assert(entries(*c).contains_key(c.node.key@));
                            assert(side_entries(n, !left).contains_key(c.node.key@));
                        }
                        assert(links_ok(n));
                        assert(ordered(n));
                        assert(loaded(n));
                        lemma_sides(n, left);
                        assert(entries(n) =~= entries(o).remove(o.node.key@));
                        if slot_balanced(Some(Box::new(o))) {
                            assert(slot_balanced(tall0));
                            assert(slot_balanced(n.child(left)));
                            assert(slot_balanced(n.child(!left)));
                        }
                    }
                }
                *slot = Some(edge);
            } else {
                proof {
                    if slot_ok(Some(Box::new(o))) {
                        assert(t1 == o);
                        assert(false);
                    }
                }
            }
        } else if has_left {
            let ghost t0 = *tree;
            tree.maybe_get_child(true, get_node);
            let ghost ta = *tree;
            *slot = tree.left.take();
            proof {
                if fetch_exact(get_node) && full_ordered(o, get_node) {
                    lemma_fetch_keeps_full(o, ta, true, get_node);
                    lemma_full_sides(o, get_node);
                    assert(full_side(o, false, get_node) =~= Map::empty());
                    assert(slot_full(*slot, get_node) =~= full_entries(o, get_node).remove(o.node.key@));
                }
                if slot_ok(Some(Box::new(o))) {
                    lemma_sides(o, true);
                    assert(side_entries(o, false) =~= Map::empty());
                    assert(slot_entries(*slot) =~= entries(o).remove(o.node.key@));
                    if slot_balanced(Some(Box::new(o))) {
                        assert(slot_balanced(*slot));
                    }
                }
            }
        } else if has_right {
            tree.maybe_get_child(false, get_node);
            let ghost ta = *tree;
            *slot = tree.right.take();
            proof {
                if fetch_exact(get_node) && full_ordered(o, get_node) {
                    lemma_fetch_keeps_full(o, ta, false, get_node);
                    lemma_full_sides(o, get_node);
                    assert(full_side(o, true, get_node) =~= Map::empty());
                    assert(slot_full(*slot, get_node) =~= full_entries(o, get_node).remove(o.node.key@));
                }
                if slot_ok(Some(Box::new(o))) {
                    lemma_sides(o, false);
                    assert(side_entries(o, true) =~= Map::empty());
                    assert(slot_entries(*slot) =~= entries(o).remove(o.node.key@));
                    if slot_balanced(Some(Box::new(o))) {
                        assert(slot_balanced(*slot));
                    }
                }
            }
        } else {
            proof {
                if fetch_exact(get_node) && full_ordered(o, get_node) {
                    lemma_full_sides(o, get_node);
                    assert(full_side(o, true, get_node) =~= Map::empty());
                    assert(full_side(o, false, get_node) =~= Map::empty());
                    assert(slot_full(*slot, get_node) =~= full_entries(o, get_node).remove(o.node.key@));
                }
                if slot_ok(Some(Box::new(o))) {
                    lemma_sides(o, false);
                    assert(side_entries(o, true) =~= Map::empty());
                    assert(side_entries(o, false) =~= Map::empty());
                    assert(slot_entries(*slot) =~= entries(o).remove(o.node.key@));
                }
            }
        }
        match SparseTree::maybe_rebalance(slot, get_node, u64::MAX) {
            Ok(()) => {},
            Err(e) => return Err(e),
        }
        Ok(tree)
    }

}

/// Whether `n` holds every node `o` holds in memory, at the same place:
/// `n` may hold more subtrees, fetched below them.
pub open spec fn keeps(o: SparseTree, n: SparseTree) -> bool
    decreases o,
{
    &&& n.node == o.node
    &&& (o.left matches Some(c) ==> n.left matches Some(d) && keeps(*c, *d))
    &&& (o.right matches Some(c) ==> n.right matches Some(d) && keeps(*c, *d))
}

impl SparseTree {
    /// Fetches every linked subtree that is not in memory, down to the
    /// leaves. Subtrees already in memory stay as they are.
    pub fn load_all<F: Fn(&Link) -> Node>(&mut self, get_node: &F)
        requires
            links_ok(*old(self)),
            fetches(get_node),
        ensures
            loaded(*final(self)),
            links_ok(*final(self)),
            final(self).node == old(self).node,
            keeps(*old(self), *final(self)),
            loaded(*old(self)) ==> *final(self) == *old(self),
        decreases old(self).node.height_spec(),
    {
        self.maybe_get_child(true, get_node);
        self.maybe_get_child(false, get_node);
        let mut l = self.left.take();
        match &mut l {
            Some(c) => {
                assert(c.node.height_spec() < old(self).node.height_spec());
                c.load_all(get_node);
            },
            None => {},
        }
        self.left = l;
        let mut r = self.right.take();
        match &mut r {
            Some(c) => {
                assert(c.node.height_spec() < old(self).node.height_spec());
                c.load_all(get_node);
            },
            None => {},
        }
        self.right = r;
    }

    /// The nodes in memory, in key order: those to write back after a
    /// change.
    pub fn modified(&self) -> (r: Vec<&Node>)
        ensures
            r@.map_values(|n: &Node| *n) == in_order(*self),
    {
        let mut out: Vec<&Node> = Vec::new();
        traverse(self, &mut out);
        assert(out@.map_values(|n: &Node| *n) =~= in_order(*self));
        out
    }
}

fn traverse<'a>(tree: &'a SparseTree, out: &mut Vec<&'a Node>)
    ensures
        final(out)@.map_values(|n: &Node| *n) == old(out)@.map_values(|n: &Node| *n) + in_order(*tree),
    decreases tree,
{
    let ghost start = out@.map_values(|n: &Node| *n);
    match &tree.left {
        Some(c) => traverse(&**c, out),
        None => {},
    }
    let ghost mid = out@;
    out.push(&tree.node);
    assert(out@.map_values(|n: &Node| *n) =~= mid.map_values(|n: &Node| *n).push(tree.node));
    match &tree.right {
        Some(c) => traverse(&**c, out),
        None => {},
    }
    assert(out@.map_values(|n: &Node| *n) =~= start + in_order(*tree));
}


/// A piece of the drawing in front of a node on its line.
pub enum Mark {
    /// An ancestor with a later sibling: a vertical line passes by.
    Bar,
    /// An ancestor without one: blank space.
    Blank,
    /// The joint to a parent that has a later child: `├`.
    Tee,
    /// The joint to a parent whose last child this is: `└`.
    Corner,
    /// The node is a left child.
    LeftTag,
    /// The node is a right child.
    RightTag,
}

/// The marks in front of a node: one per ancestor above its parent (a bar
/// where that ancestor's drawing continues below), the joint to its parent
/// and its side; none for the root.
pub open spec fn marks_spec(stack: Seq<bool>, left: bool, has_sibling_after: bool) -> Seq<Mark> {
    if stack.len() == 0 {
        Seq::empty()
    } else {
        stack.take(stack.len() - 1).map_values(|line: bool| if line { Mark::Bar } else { Mark::Blank })
            + seq![if has_sibling_after { Mark::Tee } else { Mark::Corner }, if left { Mark::LeftTag } else { Mark::RightTag }]
    }
}

/// The lines of a tree's drawing, root first, then the left subtree and
/// the right subtree; `stack` holds, for each ancestor, whether its drawing
/// continues below.
pub open spec fn outline_spec(t: SparseTree, stack: Seq<bool>, left: bool, has_sibling_after: bool) -> Seq<(Seq<Mark>, Node)>
    decreases t,
{
    seq![(marks_spec(stack, left, has_sibling_after), t.node)] + match t.left {
        Some(c) => outline_spec(*c, stack.push(true), true, t.right.is_some()),
        None => Seq::empty(),
    } + match t.right {
        Some(c) => outline_spec(*c, stack.push(false), false, false),
        None => Seq::empty(),
    }
}

/// The lines of a drawing as plain values.
pub open spec fn rows_view(rows: Seq<(Vec<Mark>, &Node)>) -> Seq<(Seq<Mark>, Node)> {
    rows.map_values(|r: (Vec<Mark>, &Node)| (r.0@, *r.1))
}

fn marks_of(stack: &Vec<bool>, left: bool, has_sibling_after: bool) -> (m: Vec<Mark>)
    ensures
        m@ == marks_spec(stack@, left, has_sibling_after),
{
    let mut m: Vec<Mark> = Vec::new();
    if stack.len() == 0 {
        return m;
    }
    let n = stack.len() - 1;
    let mut i: usize = 0;
    while i < n
        invariant
            n == stack@.len() - 1,
            i <= n,
            m@ == stack@.take(i as int).map_values(|line: bool| if line { Mark::Bar } else { Mark::Blank }),
        decreases n - i,
    {
        let mark = if stack[i] { Mark::Bar } else { Mark::Blank };
        m.push(mark);
        i = i + 1;
        assert(m@ =~= stack@.take(i as int).map_values(|line: bool| if line { Mark::Bar } else { Mark::Blank }));
    }
    m.push(if has_sibling_after { Mark::Tee } else { Mark::Corner });
    m.push(if left { Mark::LeftTag } else { Mark::RightTag });
    assert(m@ =~= marks_spec(stack@, left, has_sibling_after));
    m
}

fn draw<'a>(
    cursor: &'a SparseTree,
    stack: &mut Vec<bool>,
    left: bool,
    has_sibling_after: bool,
    out: &mut Vec<(Vec<Mark>, &'a Node)>,
)
    ensures
        final(stack)@ == old(stack)@,
        rows_view(final(out)@) == rows_view(old(out)@) + outline_spec(*cursor, old(stack)@, left, has_sibling_after),
    decreases cursor,
{
    let ghost start = rows_view(out@);
    let ghost st = stack@;
    let marks = marks_of(stack, left, has_sibling_after);
    out.push((marks, &cursor.node));
    assert(rows_view(out@) =~= start + seq![(marks_spec(st, left, has_sibling_after), cursor.node)]);
    let ghost after_root = rows_view(out@);
    match &cursor.left {
        Some(c) => {
            stack.push(true);
            draw(&**c, stack, true, cursor.right.is_some(), out);
            stack.pop();
            assert(stack@ =~= st);
        },
        None => {},
    }
    let ghost after_left = rows_view(out@);
    match &cursor.right {
        Some(c) => {
            stack.push(false);
            draw(&**c, stack, false, false, out);
            stack.pop();
            assert(stack@ =~= st);
        },
        None => {},
    }
    assert(rows_view(out@) =~= start + outline_spec(*cursor, st, left, has_sibling_after));
}

impl SparseTree {
    /// The lines of the tree's drawing, one per node in memory: root first,
    /// then its left subtree, then its right subtree, each line holding the
    /// marks drawn in front of the node and the node.
    pub fn outline(&self) -> (rows: Vec<(Vec<Mark>, &Node)>)
        ensures
            rows_view(rows@) == outline_spec(*self, Seq::empty(), false, false),
    {
        let mut stack: Vec<bool> = Vec::new();
        let mut out: Vec<(Vec<Mark>, &Node)> = Vec::new();
        draw(self, &mut stack, false, false, &mut out);
        assert(rows_view(out@) =~= rows_view(Seq::empty()) + outline_spec(*self, Seq::empty(), false, false));
        out
    }
}

/// A change in a batch for a sparse tree: set a value, or remove the key.
pub enum TreeOp<'a> {
    Put(&'a [u8]),
    Delete,
}

/// How a change reads, on a line of its own: `Put` with the value's bytes,
/// or `Delete`.
pub open spec fn tree_op_line(op: TreeOp) -> Seq<char> {
    match op {
        TreeOp::Put(v) => seq!['P', 'u', 't', '('] + debug_bytes_spec(v@) + seq![')', '\n'],
        TreeOp::Delete => seq!['D', 'e', 'l', 'e', 't', 'e', '\n'],
    }
}

impl<'a> TreeOp<'a> {
    /// The change as a line of text.
    pub fn to_text(&self) -> (s: String)
        ensures
            s@ == tree_op_line(*self),
    {
        let mut s = String::new();
        match self {
            TreeOp::Put(v) => {
                s.append("Put(");
                s.append(debug_bytes(v).as_str());
                s.append(")\n");
                proof {
                    reveal_strlit("Put(");
                    reveal_strlit(")\n");
                }
            },
            TreeOp::Delete => {
                s.append("Delete\n");
                proof {
                    reveal_strlit("Delete\n");
                }
            },
        }
        assert(s@ =~= tree_op_line(*self));
        s
    }
}

/// The value a change sets, or `None` for a removal.
pub open spec fn change_of(op: TreeOp) -> Option<Seq<u8>> {
    match op {
        TreeOp::Put(v) => Some(v@),
        TreeOp::Delete => None,
    }
}

/// Whether the keys of a batch strictly increase.
pub open spec fn batch_sorted(b: Seq<(&[u8], TreeOp)>) -> bool {
    forall|i: int, j: int| 0 <= i < j < b.len() ==> lex_lt(#[trigger] b[i].0@, #[trigger] b[j].0@)
}

/// What a batch does to a key: `None` when no entry names it, else the
/// change of the first entry that does.
pub open spec fn batch_change(b: Seq<(&[u8], TreeOp)>, k: Seq<u8>) -> Option<Option<Seq<u8>>>
    decreases b.len(),
{
    if b.len() == 0 {
        None
    } else if b[0].0@ == k {
        Some(change_of(b[0].1))
    } else {
        batch_change(b.drop_first(), k)
    }
}

/// The pairs after a batch: each key the batch names is set to its value
/// or removed; the others keep theirs.
pub open spec fn after_batch(m: Map<Seq<u8>, Seq<u8>>, b: Seq<(&[u8], TreeOp)>) -> Map<Seq<u8>, Seq<u8>> {
    Map::new(
        |k: Seq<u8>|
            match batch_change(b, k) {
                Some(c) => c is Some,
                None => m.contains_key(k),
            },
        |k: Seq<u8>|
            match batch_change(b, k) {
                Some(Some(v)) => v,
                _ => m[k],
            },
    )
}

/// A key no entry of the batch names is left alone.
proof fn lemma_change_absent(b: Seq<(&[u8], TreeOp)>, k: Seq<u8>)
    requires
        forall|i: int| 0 <= i < b.len() ==> (#[trigger] b[i]).0@ != k,
    ensures
        batch_change(b, k) is None,
    decreases b.len(),
{
    if b.len() > 0 {
        assert(b[0].0@ != k);
        assert forall|i: int| 0 <= i < b.drop_first().len() implies (#[trigger] b.drop_first()[i]).0@ != k by {
            assert(b.drop_first()[i] == b[i + 1]);
        }
        lemma_change_absent(b.drop_first(), k);
    }
}

/// In a sorted batch, the key of entry `i` gets that entry's change.
proof fn lemma_change_at(b: Seq<(&[u8], TreeOp)>, i: int)
    requires
        batch_sorted(b),
        0 <= i < b.len(),
    ensures
        batch_change(b, b[i].0@) == Some(change_of(b[i].1)),
    decreases i,
{
    lemma_lex_order();
    if i > 0 {
        assert(lex_lt(b[0].0@, b[i].0@));
        let d = b.drop_first();
        assert(d[i - 1] == b[i]);
        assert forall|x: int, y: int| 0 <= x < y < d.len() implies lex_lt(#[trigger] d[x].0@, #[trigger] d[y].0@) by {
            assert(d[x] == b[x + 1] && d[y] == b[y + 1]);
        }
        lemma_change_at(d, i - 1);
    }
}

/// What a sorted batch does to a key is what the part of it from `lo` to
/// `hi` does, when no entry outside that part names the key.
proof fn lemma_change_sub(b: Seq<(&[u8], TreeOp)>, lo: int, hi: int, k: Seq<u8>)
    requires
        batch_sorted(b),
        0 <= lo <= hi <= b.len(),
        forall|i: int| 0 <= i < b.len() && !(lo <= i < hi) ==> (#[trigger] b[i]).0@ != k,
    ensures
        batch_change(b, k) == batch_change(b.subrange(lo, hi), k),
{
    let sub = b.subrange(lo, hi);
    assert forall|x: int, y: int| 0 <= x < y < sub.len() implies lex_lt(#[trigger] sub[x].0@, #[trigger] sub[y].0@) by {
        assert(sub[x] == b[lo + x] && sub[y] == b[lo + y]);
    }
    if exists|i: int| lo <= i < hi && (#[trigger] b[i]).0@ == k {
        let i = choose|i: int| lo <= i < hi && (#[trigger] b[i]).0@ == k;
        lemma_change_at(b, i);
        assert(sub[i - lo] == b[i]);
        lemma_change_at(sub, i - lo);
    } else {
        lemma_change_absent(b, k);
        assert forall|j: int| 0 <= j < sub.len() implies (#[trigger] sub[j]).0@ != k by {
            assert(sub[j] == b[lo + j]);
        }
        lemma_change_absent(sub, k);
    }
}

/// A key a batch changes is the key of one of its entries.
proof fn lemma_change_named(b: Seq<(&[u8], TreeOp)>, k: Seq<u8>)
    requires
        batch_change(b, k) is Some,
    ensures
        exists|i: int| 0 <= i < b.len() && (#[trigger] b[i]).0@ == k,
{
    if forall|i: int| 0 <= i < b.len() ==> (#[trigger] b[i]).0@ != k {
        lemma_change_absent(b, k);
    }
}

/// Finds `key` among the sorted keys of a batch: whether it is there, and
/// the index of the first key not below it.
fn search(batch: &[(&[u8], TreeOp)], key: &[u8]) -> (r: (bool, usize))
    requires
        batch_sorted(batch@),
    ensures
        r.1 <= batch@.len(),
        forall|i: int| 0 <= i < r.1 ==> lex_lt((#[trigger] batch@[i]).0@, key@),
        r.0 ==> r.1 < batch@.len() && batch@[r.1 as int].0@ == key@,
        forall|i: int| (if r.0 { r.1 < i } else { r.1 <= i }) && i < batch@.len() ==> lex_lt(key@, (#[trigger] batch@[i]).0@),
{
    proof {
        lemma_lex_order();
    }
    let mut lo: usize = 0;
    let mut hi: usize = batch.len();
    while lo < hi
        invariant
            lo <= hi <= batch@.len(),
            batch_sorted(batch@),
            forall|i: int| 0 <= i < lo ==> lex_lt((#[trigger] batch@[i]).0@, key@),
            forall|i: int| hi <= i < batch@.len() ==> lex_lt(key@, (#[trigger] batch@[i]).0@),
        decreases hi - lo,
    {
        proof {
            lemma_lex_order();
        }
        let mid = lo + (hi - lo) / 2;
        let o = compare(batch[mid].0, key);
        if o == Order::Equal {
            assert forall|i: int| mid < i < batch@.len() implies lex_lt(key@, (#[trigger] batch@[i]).0@) by {
                assert(lex_lt(batch@[mid as int].0@, batch@[i].0@));
            }
            return (true, mid);
        } else if o == Order::Less {
            assert forall|i: int| 0 <= i <= mid implies lex_lt((#[trigger] batch@[i]).0@, key@) by {
                if i < mid {
                    assert(lex_lt(batch@[i].0@, batch@[mid as int].0@));
                }
            }
            lo = mid + 1;
        } else {
            assert(lex_lt(key@, batch@[mid as int].0@));
            assert forall|i: int| mid <= i < batch@.len() implies lex_lt(key@, (#[trigger] batch@[i]).0@) by {
                if i > mid {
                    assert(lex_lt(batch@[mid as int].0@, batch@[i].0@));
                }
            }
            hi = mid;
        }
    }
    (false, lo)
}

/// A tree put together from a node and two loaded, well-formed subtrees
/// whose links describe them, with keys below and above the node's, is
/// loaded and well formed, and holds their pairs and its own.
proof fn lemma_assemble(n: SparseTree)
    requires
        node_ok(n.node),
        slot_ok(n.left),
        slot_ok(n.right),
        match n.left {
            Some(c) => n.node.left matches Some(l) && describes(l, *c),
            None => n.node.left is None,
        },
        match n.right {
            Some(c) => n.node.right matches Some(l) && describes(l, *c),
            None => n.node.right is None,
        },
        forall|x: Seq<u8>| #[trigger] slot_entries(n.left).contains_key(x) ==> lex_lt(x, n.node.key@),
        forall|x: Seq<u8>| #[trigger] slot_entries(n.right).contains_key(x) ==> lex_lt(n.node.key@, x),
    ensures
        loaded(n),
        wf(n),
        entries(n) == slot_entries(n.left).union_prefer_right(slot_entries(n.right)).insert(n.node.key@, n.node.value@),
{
    if let Some(c) = n.left {
        assert(entries(*c).contains_key(c.node.key@));
        assert(slot_entries(n.left).contains_key(c.node.key@));
    }
    if let Some(c) = n.right {
        assert(entries(*c).contains_key(c.node.key@));
        assert(slot_entries(n.right).contains_key(c.node.key@));
    }
}

/// Every part of a sorted batch is sorted.
proof fn lemma_sorted_sub(b: Seq<(&[u8], TreeOp)>, lo: int, hi: int)
    requires
        batch_sorted(b),
        0 <= lo <= hi <= b.len(),
    ensures
        batch_sorted(b.subrange(lo, hi)),
{
    let sub = b.subrange(lo, hi);
    assert forall|x: int, y: int| 0 <= x < y < sub.len() implies lex_lt(#[trigger] sub[x].0@, #[trigger] sub[y].0@) by {
        assert(sub[x] == b[lo + x] && sub[y] == b[lo + y]);
    }
}

/// An empty batch changes nothing.
proof fn lemma_after_empty(m: Map<Seq<u8>, Seq<u8>>, b: Seq<(&[u8], TreeOp)>)
    requires
        b.len() == 0,
    ensures
        after_batch(m, b) == m,
{
    assert(after_batch(m, b) =~= m);
}

/// Whether some entry of the batch removes a key the pairs lack.
pub open spec fn deletes_absent(m: Map<Seq<u8>, Seq<u8>>, b: Seq<(&[u8], TreeOp)>) -> bool {
    exists|i: int| 0 <= i < b.len() && (#[trigger] b[i]).1 is Delete && !m.contains_key(b[i].0@)
}

/// The keys of the pairs after a batch are keys of the pairs before or of
/// the batch.
proof fn lemma_after_keys(m: Map<Seq<u8>, Seq<u8>>, b: Seq<(&[u8], TreeOp)>, x: Seq<u8>)
    requires
        after_batch(m, b).contains_key(x),
    ensures
        m.contains_key(x) || exists|i: int| 0 <= i < b.len() && (#[trigger] b[i]).0@ == x,
{
    if batch_change(b, x) is Some {
        lemma_change_named(b, x);
    }
}

/// Splitting a sorted batch around a key `k` that lies between its two
/// outer parts: changing the pairs on either side of `k` by those parts
/// gives what the whole batch gives, when the root's own pair is already
/// as the batch leaves it.
proof fn lemma_split_sides(
    e: Map<Seq<u8>, Seq<u8>>,
    l: Map<Seq<u8>, Seq<u8>>,
    r: Map<Seq<u8>, Seq<u8>>,
    k: Seq<u8>,
    v: Seq<u8>,
    v2: Seq<u8>,
    b: Seq<(&[u8], TreeOp)>,
    i: int,
    j: int,
)
    requires
        batch_sorted(b),
        0 <= i <= j <= b.len(),
        j == i ==> v2 == v,
        j != i ==> j == i + 1 && b[i].0@ == k && change_of(b[i].1) == Some(v2),
        forall|x: int| 0 <= x < i ==> lex_lt((#[trigger] b[x]).0@, k),
        forall|x: int| j <= x < b.len() ==> lex_lt(k, (#[trigger] b[x]).0@),
        e == l.union_prefer_right(r).insert(k, v),
        forall|x: Seq<u8>| #[trigger] l.contains_key(x) ==> lex_lt(x, k),
        forall|x: Seq<u8>| #[trigger] r.contains_key(x) ==> lex_lt(k, x),
    ensures
        after_batch(l, b.subrange(0, i)).union_prefer_right(after_batch(r, b.subrange(j, b.len() as int))).insert(k, v2)
            == after_batch(e, b),
{
    lemma_lex_order();
    let lb = b.subrange(0, i);
    let rb = b.subrange(j, b.len() as int);
    let la = after_batch(l, lb);
    let ra = after_batch(r, rb);
    let a = la.union_prefer_right(ra).insert(k, v2);
    let t = after_batch(e, b);
    assert forall|x: Seq<u8>| #[trigger] a.contains_key(x) == t.contains_key(x) && (a.contains_key(x) ==> a[x]
        == t[x]) by {
        if x == k {
            if j == i {
                lemma_change_absent(b, k);
            } else {
                lemma_change_at(b, i);
            }
        } else if lex_lt(x, k) {
            lemma_change_sub(b, 0, i, x);
            assert forall|y: int| 0 <= y < rb.len() implies (#[trigger] rb[y]).0@ != x by {
                assert(rb[y] == b[j + y]);
            }
            lemma_change_absent(rb, x);
            assert(!r.contains_key(x));
        } else {
            assert(lex_lt(k, x));
            lemma_change_sub(b, j, b.len() as int, x);
            assert forall|y: int| 0 <= y < lb.len() implies (#[trigger] lb[y]).0@ != x by {
                assert(lb[y] == b[y]);
            }
            lemma_change_absent(lb, x);
            assert(!l.contains_key(x));
            if la.contains_key(x) {
                lemma_after_keys(l, lb, x);
                if l.contains_key(x) {
                } else {
                    let y = choose|y: int| 0 <= y < lb.len() && (#[trigger] lb[y]).0@ == x;
                    assert(lb[y] == b[y]);
                }
            }
        }
    }
    assert(a =~= t);
}

/// Changing the pairs by the two outer parts of a sorted batch, one after
/// the other, gives what the whole batch gives, when the entry between them
/// names `k` and the pairs at `k` are already as it leaves them.
proof fn lemma_split_seq(
    m0: Map<Seq<u8>, Seq<u8>>,
    e: Map<Seq<u8>, Seq<u8>>,
    k: Seq<u8>,
    b: Seq<(&[u8], TreeOp)>,
    i: int,
)
    requires
        batch_sorted(b),
        0 <= i < b.len(),
        b[i].0@ == k,
        forall|x: int| 0 <= x < i ==> lex_lt((#[trigger] b[x]).0@, k),
        forall|x: int| i < x < b.len() ==> lex_lt(k, (#[trigger] b[x]).0@),
        forall|x: Seq<u8>| x != k ==> #[trigger] m0.contains_key(x) == e.contains_key(x) && (m0.contains_key(x) ==> m0[x] == e[x]),
        change_of(b[i].1) matches Some(v) ==> m0.contains_key(k) && m0[k] == v,
        change_of(b[i].1) is None ==> !m0.contains_key(k),
    ensures
        after_batch(after_batch(m0, b.subrange(0, i)), b.subrange(i + 1, b.len() as int)) == after_batch(e, b),
{
    lemma_lex_order();
    let lb = b.subrange(0, i);
    let rb = b.subrange(i + 1, b.len() as int);
    let m1 = after_batch(m0, lb);
    let a = after_batch(m1, rb);
    let t = after_batch(e, b);
    assert forall|x: Seq<u8>| #[trigger] a.contains_key(x) == t.contains_key(x) && (a.contains_key(x) ==> a[x]
        == t[x]) by {
        assert forall|y: int| 0 <= y < rb.len() implies (#[trigger] rb[y]).0@ == b[i + 1 + y].0@ by {}
        assert forall|y: int| 0 <= y < lb.len() implies (#[trigger] lb[y]).0@ == b[y].0@ by {}
        if x == k {
            lemma_change_at(b, i);
            assert forall|y: int| 0 <= y < rb.len() implies (#[trigger] rb[y]).0@ != x by {
                assert(lex_lt(k, b[i + 1 + y].0@));
            }
            assert forall|y: int| 0 <= y < lb.len() implies (#[trigger] lb[y]).0@ != x by {
                assert(lex_lt(b[y].0@, k));
            }
            lemma_change_absent(rb, x);
            lemma_change_absent(lb, x);
        } else if lex_lt(x, k) {
            lemma_change_sub(b, 0, i, x);
            assert forall|y: int| 0 <= y < rb.len() implies (#[trigger] rb[y]).0@ != x by {
                assert(lex_lt(k, b[i + 1 + y].0@));
            }
            lemma_change_absent(rb, x);
        } else {
            assert(lex_lt(k, x));
            lemma_change_sub(b, i + 1, b.len() as int, x);
            assert forall|y: int| 0 <= y < lb.len() implies (#[trigger] lb[y]).0@ != x by {
                assert(lex_lt(b[y].0@, k));
            }
            lemma_change_absent(lb, x);
        }
    }
    assert(a =~= t);
}

/// Whether a single put of `k` into `t` needs no rotation: it replaces the
/// root's value in a balanced root, or it lands on an empty side of the
/// root whose other side is at most one node high.
pub open spec fn simple_put(t: SparseTree, k: Seq<u8>) -> bool {
    if k == t.node.key@ {
        node_balanced(t.node)
    } else if lex_lt(k, t.node.key@) {
        t.left is None && link_height(t.node.right) <= 1
    } else {
        t.right is None && link_height(t.node.left) <= 1
    }
}

/// The shape a simple put leaves: the same root; a new key sits alone on
/// its side, and the other side is untouched.
pub open spec fn simple_put_result(t: SparseTree, n: Option<Box<SparseTree>>, k: Seq<u8>) -> bool {
    n matches Some(u) && u.node.key == t.node.key && (k != t.node.key@ ==> {
        let s = lex_lt(k, t.node.key@);
        &&& u.child(!s) == t.child(!s)
        &&& u.node.link(!s) == t.node.link(!s)
        &&& link_height(u.node.link(s)) == 1
    })
}

/// Whether every entry of a batch is a put.
/// Whether every key the batch names is a key of the map.
pub open spec fn all_present(b: Seq<(&[u8], TreeOp)>, m: Map<Seq<u8>, Seq<u8>>) -> bool {
    forall|i: int| 0 <= i < b.len() ==> m.contains_key((#[trigger] b[i]).0@)
}

/// The height of the tree in a slot, as its root's links record it (0 for
/// an empty slot).
pub open spec fn slot_height(s: Option<Box<SparseTree>>) -> int {
    match s {
        Some(t) => t.node.height_spec(),
        None => 0,
    }
}

pub open spec fn all_puts(b: Seq<(&[u8], TreeOp)>) -> bool {
    forall|i: int| 0 <= i < b.len() ==> (#[trigger] b[i]).1 is Put
}

impl SparseTree {
    /// `from_batch`, nesting at most `depth` applications.
    #[verifier::rlimit(60)]
    #[verifier::spinoff_prover]
    fn from_batch_within<F: Fn(&Link) -> Node>(batch: &[(&[u8], TreeOp)], get_node: &F, depth: u64) -> (r: Result<Option<Box<SparseTree>>, Error>)
        requires
            fetches(get_node),
            batch_sorted(batch@),
        ensures
            r matches Err(e) ==> e is KeyDelete || e is Overflow || e is Tree,
            r matches Ok(x) ==> slot_ok(x) && slot_entries(x) == after_batch(Map::empty(), batch@) && slot_balanced(x),
            r matches Ok(x) ==> (batch@.len() > 0 ==> x is Some && root_balanced(x)),
            r matches Ok(x) ==> (batch@.len() == 0 ==> x is None),
            deletes_absent(Map::empty(), batch@) ==> r is Err,
            depth > 0 && batch@.len() == 1 && batch@[0].1 is Put ==> (r matches Ok(x) && x matches Some(t)
                && t.node.left is None && t.node.right is None),
            depth > 4 && batch@.len() <= 3 && all_puts(batch@) ==> r is Ok,
            r matches Ok(x) ==> (fetch_exact(get_node) ==> slot_full_ordered(x, get_node) && slot_full(x, get_node)
                == after_batch(Map::empty(), batch@)),
        decreases depth, 0int,
    {
        if depth == 0 {
            return Err(too_deep());
        }
        if batch.len() == 0 {
            proof {
                assert(after_batch(Map::empty(), batch@) =~= Map::empty());
            }
            return Ok(None);
        }
        let mid = batch.len() / 2;
        let mid_key = batch[mid].0;
        let mid_value = match &batch[mid].1 {
            TreeOp::Delete => return Err(Error::KeyDelete(crate::bytes::copy_bytes(mid_key))),
            TreeOp::Put(value) => *value,
        };
        let mut tree = Some(Box::new(SparseTree::new(Node::new(mid_key, mid_value))));
        let ghost m0 = slot_entries(tree);
        proof {
            lemma_lex_order();
            assert(m0 =~= Map::empty().insert(mid_key@, mid_value@));
            lemma_sorted_sub(batch@, 0, mid as int);
            lemma_sorted_sub(batch@, mid + 1, batch@.len() as int);
        }
        let (left_batch, rest) = batch.split_at(mid);
        let (_, right_batch) = rest.split_at(1);
        proof {
            assert(right_batch@ =~= batch@.subrange(mid + 1, batch@.len() as int));
        }
        let ghost t0 = tree;
        SparseTree::apply_within(&mut tree, get_node, left_batch, depth - 1)?;
        let ghost t1 = tree;
        SparseTree::apply_within(&mut tree, get_node, right_batch, depth - 1)?;
        proof {
            assert forall|x: int| 0 <= x < mid implies lex_lt((#[trigger] batch@[x]).0@, mid_key@) by {}
            assert forall|x: int| mid < x < batch@.len() implies lex_lt(mid_key@, (#[trigger] batch@[x]).0@) by {}
            lemma_split_seq(m0, Map::empty(), mid_key@, batch@, mid as int);
            lemma_change_at(batch@, mid as int);
            assert(slot_entries(tree).contains_key(mid_key@));
            if deletes_absent(Map::empty(), batch@) {
                let d = choose|d: int|
                    0 <= d < batch@.len() && (#[trigger] batch@[d]).1 is Delete && !Map::<Seq<u8>, Seq<u8>>::empty().contains_key(batch@[d].0@);
                let x = batch@[d].0@;
                if d < mid {
                    assert(left_batch@[d] == batch@[d]);
                    assert(deletes_absent(m0, left_batch@));
                } else {
                    assert(d > mid);
                    assert(right_batch@[d - mid - 1] == batch@[d]);
                    assert forall|y: int| 0 <= y < left_batch@.len() implies (#[trigger] left_batch@[y]).0@ != x by {
                        assert(left_batch@[y] == batch@[y]);
                        assert(lex_lt(batch@[y].0@, batch@[d].0@));
                    }
                    lemma_change_absent(left_batch@, x);
                    assert(!slot_entries(t1).contains_key(x));
                    assert(deletes_absent(slot_entries(t1), right_batch@));
                }
                assert(false);
            }
            if right_batch@.len() == 0 {
                assert(tree == t1);
                if left_batch@.len() == 0 {
                    assert(t1 == t0);
                    assert(root_balanced(t0));
                }
            }
        }
        Ok(tree)
    }

    /// Builds a tree from a sorted batch of puts: the middle entry is the
    /// root, and the entries before and after it are applied to it. A
    /// removal in the batch is an error, as there is nothing to remove.
    /// The fetch function is handed on to those applications; on the fresh
    /// tree they never call it.
    pub fn from_batch<F: Fn(&Link) -> Node>(batch: &[(&[u8], TreeOp)], get_node: &F) -> (r: Result<Option<Box<SparseTree>>, Error>)
        requires
            fetches(get_node),
            batch_sorted(batch@),
        ensures
            r matches Err(e) ==> e is KeyDelete || e is Overflow || e is Tree,
            r matches Ok(x) ==> slot_ok(x) && slot_entries(x) == after_batch(Map::empty(), batch@) && slot_balanced(x),
            r matches Ok(x) ==> (batch@.len() > 0 ==> x is Some && root_balanced(x)),
            r matches Ok(x) ==> (batch@.len() == 0 ==> x is None),
            deletes_absent(Map::empty(), batch@) ==> r is Err,
            batch@.len() == 1 && batch@[0].1 is Put ==> (r matches Ok(x) && x matches Some(t) && t.node.left is None
                && t.node.right is None),
            batch@.len() <= 3 && all_puts(batch@) ==> r is Ok,
            r matches Ok(x) ==> (fetch_exact(get_node) ==> slot_full_ordered(x, get_node) && slot_full(x, get_node)
                == after_batch(Map::empty(), batch@)),
    {
        SparseTree::from_batch_within(batch, get_node, u64::MAX)
    }

    /// Applies a sorted batch to the subtree on one side, fetching it first
    /// if needed, and updates the link to it.
    fn apply_child<F: Fn(&Link) -> Node>(&mut self, left: bool, get_node: &F, batch: &[(&[u8], TreeOp)], depth: u64) -> (r: Result<(), Error>)
        requires
            fetches(get_node),
            batch_sorted(batch@),
        ensures
            r matches Err(e) ==> e is KeyDelete || e is Overflow || e is Tree,
            final(self).node.key == old(self).node.key,
            final(self).node.value == old(self).node.value,
            final(self).node.kv_hash == old(self).node.kv_hash,
            final(self).node.link(!left) == old(self).node.link(!left),
            final(self).child(!left) == old(self).child(!left),
            batch@.len() == 0 ==> *final(self) == *old(self) && r is Ok,
            r is Ok && loaded(*old(self)) && wf(*old(self)) ==> {
                &&& slot_ok(final(self).child(left))
                &&& slot_entries(final(self).child(left)) == after_batch(slot_entries(old(self).child(left)), batch@)
                &&& match final(self).child(left) {
                    Some(c) => final(self).node.link(left) matches Some(l) && describes(l, *c),
                    None => final(self).node.link(left) is None,
                }
            },
            loaded(*old(self)) && wf(*old(self)) && deletes_absent(slot_entries(old(self).child(left)), batch@) ==> r is Err,
            fetch_exact(get_node) && full_ordered(*old(self), get_node) && deletes_absent(full_side(*old(self), left, get_node), batch@)
                ==> r is Err,
            r is Ok && loaded(*old(self)) && wf(*old(self)) && slot_balanced(old(self).child(left)) ==> slot_balanced(
                final(self).child(left),
            ),
            depth > 2 && loaded(*old(self)) && old(self).child(left) is None && batch@.len() == 1 && batch@[0].1 is Put
                ==> r is Ok && link_height(final(self).node.link(left)) == 1,
            depth > 2 * slot_height(old(self).child(left)) + 1 && loaded(*old(self)) && wf(*old(self)) && slot_balanced(
                old(self).child(left),
            ) && all_puts(batch@) && all_present(batch@, slot_entries(old(self).child(left))) ==> r is Ok && link_height(
                final(self).node.link(left),
            ) == link_height(old(self).node.link(left)),
            r is Ok && fetch_exact(get_node) && full_ordered(*old(self), get_node) ==> {
                &&& full_side(*final(self), left, get_node) == after_batch(full_side(*old(self), left, get_node), batch@)
                &&& side_ordered(*final(self), left, get_node)
                &&& (final(self).child(left) is Some ==> final(self).node.link(left) is Some)
            },
        decreases depth, 1int,
    {
        if batch.len() == 0 {
            proof {
                lemma_after_empty(slot_entries(old(self).child(left)), batch@);
                lemma_after_empty(full_side(*old(self), left, get_node), batch@);
            }
            return Ok(());
        }
        if depth == 0 {
            return Err(too_deep());
        }
        let ghost t0 = *self;
        self.maybe_get_child(left, get_node);
        let ghost ta = *self;
        let mut cs = if left {
            self.left.take()
        } else {
            self.right.take()
        };
        proof {
            if loaded(t0) && wf(t0) {
                assert(cs == t0.child(left));
                assert(slot_ok(cs));
            }
            if fetch_exact(get_node) && full_ordered(t0, get_node) {
                lemma_fetch_keeps_full(t0, ta, left, get_node);
                assert(cs == ta.child(left));
                assert(slot_full(cs, get_node) == full_side(t0, left, get_node));
                assert(slot_full_ordered(cs, get_node));
            }
        }
        match SparseTree::apply_within(&mut cs, get_node, batch, depth - 1) {
            Ok(()) => {},
            Err(e) => {
                if left {
                    self.left = cs;
                } else {
                    self.right = cs;
                }
                return Err(e);
            },
        }
        let cs_fits = match &cs {
            Some(c) => fits(c),
            None => true,
        };
        if left {
            self.left = cs;
        } else {
            self.right = cs;
        }
        if !cs_fits {
            return Err(overflow());
        }
        self.update_link(left);
        Ok(())
    }

    /// `apply`, going at most `depth` levels down.
    #[verifier::rlimit(60)]
    #[verifier::spinoff_prover]
    fn apply_within<F: Fn(&Link) -> Node>(slot: &mut Option<Box<SparseTree>>, get_node: &F, batch: &[(&[u8], TreeOp)], depth: u64) -> (r: Result<(), Error>)
        requires
            fetches(get_node),
            batch_sorted(batch@),
        ensures
            r matches Err(e) ==> e is KeyDelete || e is Overflow || e is Tree,
            batch@.len() == 0 ==> *final(slot) == *old(slot) && r is Ok,
            r is Ok && slot_ok(*old(slot)) ==> slot_ok(*final(slot)) && slot_entries(*final(slot)) == after_batch(
                slot_entries(*old(slot)),
                batch@,
            ),
            r is Ok && batch@.len() > 0 ==> root_balanced(*final(slot)),
            slot_ok(*old(slot)) && deletes_absent(slot_entries(*old(slot)), batch@) ==> r is Err,
            fetch_exact(get_node) && slot_full_ordered(*old(slot), get_node) && deletes_absent(slot_full(*old(slot), get_node), batch@)
                ==> r is Err,
            r is Ok && slot_ok(*old(slot)) && slot_balanced(*old(slot)) ==> slot_balanced(*final(slot)),
            depth > 1 && old(slot).is_none() && batch@.len() == 1 && batch@[0].1 is Put ==> r is Ok && (*final(slot) matches Some(
                t,
            ) && t.node.left is None && t.node.right is None),
            depth > 3 && slot_ok(*old(slot)) && old(slot).is_some() && batch@.len() == 1 && batch@[0].1 is Put && simple_put(
                *old(slot)->Some_0,
                batch@[0].0@,
            ) ==> r is Ok && simple_put_result(*old(slot)->Some_0, *final(slot), batch@[0].0@),
            r is Ok && fetch_exact(get_node) && slot_full_ordered(*old(slot), get_node) ==> slot_full_ordered(
                *final(slot),
                get_node,
            ) && slot_full(*final(slot), get_node) == after_batch(slot_full(*old(slot), get_node), batch@),
            depth > 5 && old(slot).is_none() && batch@.len() <= 3 && all_puts(batch@) ==> r is Ok,
            depth > 2 * slot_height(*old(slot)) && slot_ok(*old(slot)) && slot_balanced(*old(slot)) && all_puts(batch@)
                && all_present(batch@, slot_entries(*old(slot))) ==> r is Ok && slot_height(*final(slot)) == slot_height(
                *old(slot),
            ),
        decreases depth, 2int,
    {
        if batch.len() == 0 {
            proof {
                lemma_after_empty(slot_full(*old(slot), get_node), batch@);
            }
            return Ok(());
        }
        if depth == 0 {
            return Err(too_deep());
        }
        proof {
            lemma_lex_order();
        }
        let ghost o = *old(slot);
        let mut tree = match slot.take() {
            None => {
                let built = SparseTree::from_batch_within(batch, get_node, depth - 1)?;
                *slot = built;
                proof {
                    assert(slot_entries(o) =~= Map::empty());
                    assert(slot_full(o, get_node) =~= Map::empty());
                }
                return Ok(());
            },
            Some(t) => t,
        };
        let ghost t0 = *tree;
        let (found, index) = search(batch, tree.node.key.as_slice());
        let ghost k = t0.node.key@;
        let (left_batch, rest) = batch.split_at(index);
        let right_batch = if found {
            let (_, r) = rest.split_at(1);
            r
        } else {
            rest
        };
        let ghost j: int = if found { index + 1 } else { index as int };
        proof {
            lemma_sorted_sub(batch@, 0, index as int);
            lemma_sorted_sub(batch@, j, batch@.len() as int);
            assert(right_batch@ =~= batch@.subrange(j, batch@.len() as int));
        }
        if found {
            match &batch[index].1 {
                TreeOp::Put(value) => {
                    tree.node.set_value(value);
                },
                TreeOp::Delete => {
                    *slot = Some(tree);
                    SparseTree::remove(slot, get_node)?;
                    let ghost s1 = *slot;
                    SparseTree::apply_within(slot, get_node, left_batch, depth - 1)?;
                    let ghost s2 = *slot;
                    SparseTree::apply_within(slot, get_node, right_batch, depth - 1)?;
                    proof {
                        if fetch_exact(get_node) && slot_full_ordered(o, get_node) {
                            lemma_split_seq(slot_full(s1, get_node), slot_full(o, get_node), k, batch@, index as int);
                            let fo = slot_full(o, get_node);
                            if deletes_absent(fo, batch@) {
                                let d = choose|d: int|
                                    0 <= d < batch@.len() && (#[trigger] batch@[d]).1 is Delete && !fo.contains_key(batch@[d].0@);
                                let x = batch@[d].0@;
                                assert(full_entries(t0, get_node).contains_key(k));
                                if d < index {
                                    assert(left_batch@[d] == batch@[d]);
                                    assert(deletes_absent(slot_full(s1, get_node), left_batch@));
                                } else {
                                    assert(d > index);
                                    assert(right_batch@[d - index - 1] == batch@[d]);
                                    assert forall|y: int| 0 <= y < left_batch@.len() implies (#[trigger] left_batch@[y]).0@ != x by {
                                        assert(left_batch@[y] == batch@[y]);
                                        assert(lex_lt(batch@[y].0@, batch@[d].0@));
                                    }
                                    lemma_change_absent(left_batch@, x);
                                    assert(!slot_full(s2, get_node).contains_key(x));
                                    assert(deletes_absent(slot_full(s2, get_node), right_batch@));
                                }
                                assert(false);
                            }
                        }
                        if slot_ok(o) {
                            lemma_split_seq(slot_entries(s1), slot_entries(o), k, batch@, index as int);
                            if deletes_absent(slot_entries(o), batch@) {
                                let d = choose|d: int|
                                    0 <= d < batch@.len() && (#[trigger] batch@[d]).1 is Delete && !slot_entries(o).contains_key(batch@[d].0@);
                                let x = batch@[d].0@;
                                assert(entries(t0).contains_key(k));
                                if d < index {
                                    assert(left_batch@[d] == batch@[d]);
                                    assert(deletes_absent(slot_entries(s1), left_batch@));
                                } else {
                                    assert(d > index);
                                    assert(right_batch@[d - index - 1] == batch@[d]);
                                    assert forall|y: int| 0 <= y < left_batch@.len() implies (#[trigger] left_batch@[y]).0@ != x by {
                                        assert(left_batch@[y] == batch@[y]);
                                        assert(lex_lt(batch@[y].0@, batch@[d].0@));
                                    }
                                    lemma_change_absent(left_batch@, x);
                                    assert(!slot_entries(s2).contains_key(x));
                                    assert(deletes_absent(slot_entries(s2), right_batch@));
                                }
                                assert(false);
                            }
                        }
                    }
                    return Ok(());
                },
            }
        }
        let ghost t1 = *tree;
        proof {
            if slot_ok(o) {
                assert(t0 == *o->Some_0);
                assert(node_ok(t1.node));
                lemma_assemble(t1);
            }
            if fetch_exact(get_node) && slot_full_ordered(o, get_node) {
                assert(t0 == *o->Some_0);
                assert(full_side(t1, true, get_node) == full_side(t0, true, get_node));
                assert(full_side(t1, false, get_node) == full_side(t0, false, get_node));
                assert(side_ordered(t1, true, get_node) == side_ordered(t0, true, get_node));
                assert(side_ordered(t1, false, get_node) == side_ordered(t0, false, get_node));
                assert(full_ordered(t1, get_node));
            }
        }
        proof {
            if depth > 2 * slot_height(o) && slot_ok(o) && slot_balanced(o) && all_puts(batch@) && all_present(batch@, slot_entries(o)) {
                assert(t0 == *o->Some_0);
                assert(t1.left == t0.left && t1.right == t0.right);
                assert(t1.node.left == t0.node.left && t1.node.right == t0.node.right);
                assert(all_balanced(t0));
                assert(slot_balanced(t1.left));
                if let Some(c) = t0.left {
                    assert(describes(t0.node.left->Some_0, *c));
                }
                assert(2 * slot_height(t1.left) + 1 < depth - 1);
                assert forall|i: int| 0 <= i < left_batch@.len() implies (#[trigger] left_batch@[i]).1 is Put by {
                    assert(left_batch@[i] == batch@[i]);
                }
                assert forall|i: int| 0 <= i < left_batch@.len() implies slot_entries(t1.left).contains_key(
                    (#[trigger] left_batch@[i]).0@,
                ) by {
                    assert(left_batch@[i] == batch@[i]);
                    let x = batch@[i].0@;
                    assert(lex_lt(x, k));
                    assert(entries(t0).contains_key(x));
                    if !slot_entries(t0.left).contains_key(x) && slot_entries(t0.right).contains_key(x) {
                        assert(lex_lt(k, x));
                    }
                }
            }
        }
        match tree.apply_child(true, get_node, left_batch, depth - 1) {
            Ok(()) => {},
            Err(e) => {
                *slot = Some(tree);
                return Err(e);
            },
        }
        let ghost t2 = *tree;
        proof {
            if fetch_exact(get_node) && slot_full_ordered(o, get_node) {
                assert(full_side(t2, false, get_node) == full_side(t1, false, get_node));
                assert(side_ordered(t2, false, get_node) == side_ordered(t1, false, get_node));
                let nl = full_side(t2, true, get_node);
                assert forall|x: Seq<u8>| #[trigger] nl.contains_key(x) implies lex_lt(x, k) by {
                    lemma_after_keys(full_side(t1, true, get_node), left_batch@, x);
                    if !full_side(t1, true, get_node).contains_key(x) {
                        let y = choose|y: int| 0 <= y < left_batch@.len() && (#[trigger] left_batch@[y]).0@ == x;
                        assert(left_batch@[y] == batch@[y]);
                    }
                }
                assert(full_ordered(t2, get_node));
            }
            if slot_ok(o) {
                assert forall|x: Seq<u8>| #[trigger] slot_entries(t2.left).contains_key(x) implies lex_lt(x, k) by {
                    lemma_after_keys(slot_entries(t1.left), left_batch@, x);
                    if !slot_entries(t1.left).contains_key(x) {
                        let y = choose|y: int| 0 <= y < left_batch@.len() && (#[trigger] left_batch@[y]).0@ == x;
                        assert(left_batch@[y] == batch@[y]);
                    }
                }
                lemma_assemble(t2);
            }
        }
        proof {
            if depth > 2 * slot_height(o) && slot_ok(o) && slot_balanced(o) && all_puts(batch@) && all_present(batch@, slot_entries(o)) {
                assert(t0 == *o->Some_0);
                assert(t2.right == t0.right);
                assert(t2.node.right == t0.node.right);
                assert(all_balanced(t0));
                assert(slot_balanced(t2.right));
                if let Some(c) = t0.right {
                    assert(describes(t0.node.right->Some_0, *c));
                }
                assert(2 * slot_height(t2.right) + 1 < depth - 1);
                assert forall|i: int| 0 <= i < right_batch@.len() implies (#[trigger] right_batch@[i]).1 is Put by {
                    assert(right_batch@[i] == batch@[j + i]);
                }
                assert forall|i: int| 0 <= i < right_batch@.len() implies slot_entries(t2.right).contains_key(
                    (#[trigger] right_batch@[i]).0@,
                ) by {
                    assert(right_batch@[i] == batch@[j + i]);
                    let x = batch@[j + i].0@;
                    assert(lex_lt(k, x));
                    assert(entries(t0).contains_key(x));
                    if !slot_entries(t0.right).contains_key(x) && slot_entries(t0.left).contains_key(x) {
                        assert(lex_lt(x, k));
                    }
                }
            }
        }
        match tree.apply_child(false, get_node, right_batch, depth - 1) {
            Ok(()) => {},
            Err(e) => {
                *slot = Some(tree);
                return Err(e);
            },
        }
        let ghost t3 = *tree;
        proof {
            if fetch_exact(get_node) && slot_full_ordered(o, get_node) {
                assert(full_side(t3, true, get_node) == full_side(t2, true, get_node));
                assert(side_ordered(t3, true, get_node) == side_ordered(t2, true, get_node));
                let nr = full_side(t3, false, get_node);
                assert forall|x: Seq<u8>| #[trigger] nr.contains_key(x) implies lex_lt(k, x) by {
                    lemma_after_keys(full_side(t2, false, get_node), right_batch@, x);
                    if !full_side(t2, false, get_node).contains_key(x) {
                        let y = choose|y: int| 0 <= y < right_batch@.len() && (#[trigger] right_batch@[y]).0@ == x;
                        assert(right_batch@[y] == batch@[j + y]);
                    }
                }
                assert(full_ordered(t3, get_node));
                lemma_split_sides(
                    full_entries(t0, get_node),
                    full_side(t0, true, get_node),
                    full_side(t0, false, get_node),
                    k,
                    t0.node.value@,
                    t3.node.value@,
                    batch@,
                    index as int,
                    j,
                );
                assert(full_entries(t3, get_node) == after_batch(full_side(t0, true, get_node), left_batch@).union_prefer_right(
                    after_batch(full_side(t0, false, get_node), right_batch@),
                ).insert(k, t3.node.value@));
            }
            if slot_ok(o) {
                assert forall|x: Seq<u8>| #[trigger] slot_entries(t3.right).contains_key(x) implies lex_lt(k, x) by {
                    lemma_after_keys(slot_entries(t2.right), right_batch@, x);
                    if !slot_entries(t2.right).contains_key(x) {
                        let y = choose|y: int| 0 <= y < right_batch@.len() && (#[trigger] right_batch@[y]).0@ == x;
                        assert(right_batch@[y] == batch@[j + y]);
                    }
                }
                lemma_assemble(t3);
                lemma_split_sides(
                    entries(t0),
                    slot_entries(t0.left),
                    slot_entries(t0.right),
                    k,
                    t0.node.value@,
                    t3.node.value@,
                    batch@,
                    index as int,
                    j,
                );
            }
        }
        proof {
            if fetch_exact(get_node) && slot_full_ordered(o, get_node) && deletes_absent(slot_full(o, get_node), batch@) {
                let fo = slot_full(o, get_node);
                let d = choose|d: int|
                    0 <= d < batch@.len() && (#[trigger] batch@[d]).1 is Delete && !fo.contains_key(batch@[d].0@);
                assert(full_entries(t0, get_node).contains_key(k));
                if d < index {
                    assert(left_batch@[d] == batch@[d]);
                    assert(deletes_absent(full_side(t1, true, get_node), left_batch@));
                } else if d >= j {
                    assert(right_batch@[d - j] == batch@[d]);
                    assert(deletes_absent(full_side(t2, false, get_node), right_batch@));
                } else {
                    assert(d == index);
                }
                assert(false);
            }
            if slot_ok(o) && deletes_absent(slot_entries(o), batch@) {
                let d = choose|d: int|
                    0 <= d < batch@.len() && (#[trigger] batch@[d]).1 is Delete && !slot_entries(o).contains_key(batch@[d].0@);
                assert(entries(t0).contains_key(k));
                if d < index {
                    assert(left_batch@[d] == batch@[d]);
                    assert(deletes_absent(slot_entries(t1.left), left_batch@));
                } else if d >= j {
                    assert(right_batch@[d - j] == batch@[d]);
                    assert(t2.right == t1.right);
                    assert(deletes_absent(slot_entries(t2.right), right_batch@));
                } else {
                    assert(d == index);
                }
                assert(false);
            }
        }
        proof {
            if depth > 3 && slot_ok(o) && batch@.len() == 1 && batch@[0].1 is Put && simple_put(t0, batch@[0].0@) {
                let kk = batch@[0].0@;
                if kk == k {
                    assert(found);
                    assert(left_batch@.len() == 0 && right_batch@.len() == 0);
                    assert(t3 == t2 && t2 == t1);
                    assert(t1.node.left == t0.node.left && t1.node.right == t0.node.right);
                } else if lex_lt(kk, k) {
                    assert(!found);
                    assert(index == 1);
                    assert(right_batch@.len() == 0);
                    assert(t3 == t2);
                    assert(t1 == t0);
                } else {
                    assert(!found);
                    assert(index == 0);
                    assert(left_batch@.len() == 0);
                    assert(t2 == t1);
                    assert(t1 == t0);
                }
                assert(node_balanced(t3.node));
            }
        }
        proof {
            if depth > 2 * slot_height(o) && slot_ok(o) && slot_balanced(o) && all_puts(batch@) && all_present(batch@, slot_entries(o)) {
                assert(t0 == *o->Some_0);
                assert(link_height(t3.node.left) == link_height(t0.node.left));
                assert(link_height(t3.node.right) == link_height(t0.node.right));
                assert(node_balanced(t3.node));
            }
        }
        *slot = Some(tree);
        SparseTree::maybe_rebalance(slot, get_node, u64::MAX)
    }

    /// Applies a batch of puts and removals, whose keys must strictly
    /// increase, to the tree in `slot`: the batch is split around the
    /// root's key, the root takes its own change (a removal removes it),
    /// the two parts go down to the subtrees, fetched as needed, and each
    /// tree changed on the way is rebalanced, so that a tree whose nodes are
    /// all balanced stays so. An empty slot gets a tree built from the
    /// batch. Fails when a removal names a key that is not
    /// there, when a height no longer fits in a byte, or when rebalancing
    /// goes more than `u64::MAX` levels deep.
    pub fn apply<F: Fn(&Link) -> Node>(slot: &mut Option<Box<SparseTree>>, get_node: &F, batch: &[(&[u8], TreeOp)]) -> (r: Result<(), Error>)
        requires
            fetches(get_node),
            batch_sorted(batch@),
        ensures
            r matches Err(e) ==> e is KeyDelete || e is Overflow || e is Tree,
            batch@.len() == 0 ==> *final(slot) == *old(slot) && r is Ok,
            r is Ok && slot_ok(*old(slot)) ==> slot_ok(*final(slot)) && slot_entries(*final(slot)) == after_batch(
                slot_entries(*old(slot)),
                batch@,
            ),
            r is Ok && batch@.len() > 0 ==> root_balanced(*final(slot)),
            slot_ok(*old(slot)) && deletes_absent(slot_entries(*old(slot)), batch@) ==> r is Err,
            fetch_exact(get_node) && slot_full_ordered(*old(slot), get_node) && deletes_absent(slot_full(*old(slot), get_node), batch@)
                ==> r is Err,
            r is Ok && slot_ok(*old(slot)) && slot_balanced(*old(slot)) ==> slot_balanced(*final(slot)),
            old(slot).is_none() && batch@.len() == 1 && batch@[0].1 is Put ==> r is Ok && (*final(slot) matches Some(
                t,
            ) && t.node.left is None && t.node.right is None),
            slot_ok(*old(slot)) && old(slot).is_some() && batch@.len() == 1 && batch@[0].1 is Put && simple_put(
                *old(slot)->Some_0,
                batch@[0].0@,
            ) ==> r is Ok && simple_put_result(*old(slot)->Some_0, *final(slot), batch@[0].0@),
            old(slot).is_none() && batch@.len() <= 3 && all_puts(batch@) ==> r is Ok,
            r is Ok && fetch_exact(get_node) && slot_full_ordered(*old(slot), get_node) ==> slot_full_ordered(
                *final(slot),
                get_node,
            ) && slot_full(*final(slot), get_node) == after_batch(slot_full(*old(slot), get_node), batch@),
            slot_ok(*old(slot)) && slot_balanced(*old(slot)) && all_puts(batch@) && all_present(
                batch@,
                slot_entries(*old(slot)),
            ) ==> r is Ok && slot_height(*final(slot)) == slot_height(*old(slot)),
    {
        proof {
            if let Some(t) = *old(slot) {
                assert(link_height(t.node.left) <= u8::MAX);
                assert(link_height(t.node.right) <= u8::MAX);
            }
        }
        SparseTree::apply_within(slot, get_node, batch, u64::MAX)
    }
}

} // verus!
