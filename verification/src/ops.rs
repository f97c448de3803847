//! Batches of changes to the tree, and the tree of pending modifications
//! that applying a batch builds.
use vstd::prelude::*;

use crate::range_proof::{debug_bytes, debug_bytes_spec};
use crate::tree::{Link, Tree};
use vstd::string::StringExecFns;

verus! {

/// A change to the value under a key.
#[derive(Debug)]
pub enum Op {
    /// Sets the value.
    Put(Vec<u8>),
    /// Removes the key.
    Delete,
}

/// How a change reads, on a line of its own: `Put` with the value's bytes,
/// or `Delete`.
pub open spec fn op_line(op: Op) -> Seq<char> {
    match op {
        Op::Put(v) => seq!['P', 'u', 't', '('] + debug_bytes_spec(v@) + seq![')', '\n'],
        Op::Delete => seq!['D', 'e', 'l', 'e', 't', 'e', '\n'],
    }
}

impl Op {
    /// The change as a line of text.
    pub fn to_text(&self) -> (s: String)
        ensures
            s@ == op_line(*self),
    {
        let mut s = String::new();
        match self {
            Op::Put(v) => {
                s.append("Put(");
                s.append(debug_bytes(v.as_slice()).as_str());
                s.append(")\n");
                proof {
                    reveal_strlit("Put(");
                    reveal_strlit(")\n");
                }
            },
            Op::Delete => {
                s.append("Delete\n");
                proof {
                    reveal_strlit("Delete\n");
                }
            },
        }
        assert(s@ =~= op_line(*self));
        s
    }
}

/// A key and the change to make to it.
pub type BatchEntry = (Vec<u8>, Op);

/// A source of tree nodes that are not in memory.
pub trait Fetch {
    /// Fetches the tree a link points to.
    fn fetch(&self, link: &Link) -> Result<Tree, crate::error::Error>;
}

/// A source for trees that are entirely in memory, which is never asked to
/// fetch.
#[derive(Clone)]
pub struct PanicSource {}

/// A tree being changed, with the source its missing nodes come from.
pub struct Context<S: Fetch> {
    pub tree: Tree,
    pub source: S,
}

struct ModTreeInner {
    tree: Tree,
    left: Option<ModTree>,
    right: Option<ModTree>,
    pending_writes: usize,
    deleted_keys: Vec<Vec<u8>>,
}

/// A node with changes pending, above the subtrees that have changes
/// pending too. It counts the writes its changes will take: one for the
/// node, one for each deleted key, and those of its subtrees.
pub struct ModTree {
    inner: Box<ModTreeInner>,
}

impl ModTree {
    /// The writes pending in this subtree.
    pub closed spec fn pending(&self) -> nat {
        self.inner.pending_writes as nat
    }

    /// The keys deleted below this node.
    pub closed spec fn deleted(&self) -> Seq<Seq<u8>> {
        self.inner.deleted_keys@.map_values(|k: Vec<u8>| k@)
    }

    /// The modified subtree on the given side.
    pub closed spec fn slot(&self, left: bool) -> Option<ModTree> {
        if left {
            self.inner.left
        } else {
            self.inner.right
        }
    }

    /// The node whose changes are pending.
    pub closed spec fn node(&self) -> Tree {
        self.inner.tree
    }

    /// A modified node with no modified subtrees and nothing deleted.
    pub fn new(tree: Tree) -> (m: ModTree)
        ensures
            m.node() == tree,
            m.slot(true) is None,
            m.slot(false) is None,
            m.deleted() == Seq::<Seq<u8>>::empty(),
            m.pending() == 0,
    {
        let m = ModTree {
            inner: Box::new(
                ModTreeInner { tree, left: None, right: None, pending_writes: 0, deleted_keys: Vec::new() },
            ),
        };
        assert(m.deleted() =~= Seq::<Seq<u8>>::empty());
        m
    }

    /// The modified subtree on the given side, if any.
    pub fn child(&self, left: bool) -> (c: Option<&ModTree>)
        ensures
            match c {
                Some(t) => self.slot(left) == Some(*t),
                None => self.slot(left) is None,
            },
    {
        if left {
            self.inner.left.as_ref()
        } else {
            self.inner.right.as_ref()
        }
    }

    /// Puts a modified subtree (or none) in the empty slot on the given
    /// side, and recounts the pending writes: one for this node, one per
    /// deleted key, and those of both subtrees. The slot must be empty, and
    /// the node must have no child on that side.
    pub fn attach(self, left: bool, maybe_child: Option<ModTree>) -> (m: ModTree)
        requires
            self.slot(left) is None,
            self.node()@.link(left) is None,
            1 + self.deleted().len() + match maybe_child {
                Some(c) => c.pending(),
                None => 0,
            } + match self.slot(!left) {
                Some(c) => c.pending(),
                None => 0,
            } <= usize::MAX,
        ensures
            m.node() == self.node(),
            m.deleted() == self.deleted(),
            m.slot(left) == maybe_child,
            m.slot(!left) == self.slot(!left),
            m.pending() == 1 + self.deleted().len() + match maybe_child {
                Some(c) => c.pending(),
                None => 0,
            } + match self.slot(!left) {
                Some(c) => c.pending(),
                None => 0,
            },
    {
        let ModTree { inner } = self;
        let ModTreeInner { tree, left: l, right: r, pending_writes: _, deleted_keys } = *inner;
        let (l, r) = if left {
            (maybe_child, r)
        } else {
            (l, maybe_child)
        };
        let lp = match &l {
            Some(c) => c.inner.pending_writes,
            None => 0,
        };
        let rp = match &r {
            Some(c) => c.inner.pending_writes,
            None => 0,
        };
        let pending_writes = 1 + deleted_keys.len() + lp + rp;
        ModTree { inner: Box::new(ModTreeInner { tree, left: l, right: r, pending_writes, deleted_keys }) }
    }
}

} // verus!
