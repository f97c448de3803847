//! The tree a proof describes, and the stack machine that builds it from the
//! proof's operators.
use vstd::prelude::*;

use super::{Node, NodeV, Op, OpV};
use crate::bytes::{compare, copy_bytes, lemma_lex_order, lex_lt, Order};
use crate::error::{Error, Fault};
use crate::hash::{
    kv_hash, kv_hash_spec, kv_hashable, node_hash, node_hash_spec, null_hash, null_hash_spec,
};

verus! {

/// Contains a tree's child node and its hash. The hash can always be assumed
/// to be up-to-date.
pub struct Child {
    pub tree: Box<Tree>,
    pub hash: [u8; 32],
}

/// A binary tree data structure used to represent a select subset of a tree
/// when verifying Merkle proofs.
pub struct Tree {
    pub node: Node,
    pub left: Option<Child>,
    pub right: Option<Child>,
    pub height: usize,
}

/// The mathematical value of a `Child`.
pub struct ChildV {
    pub tree: Box<TreeV>,
    pub hash: Seq<u8>,
}

/// The mathematical value of a proof `Tree`.
pub struct TreeV {
    pub node: NodeV,
    pub left: Option<ChildV>,
    pub right: Option<ChildV>,
    pub height: nat,
}

/// The value of a proof tree.
pub open spec fn tree_view(t: Tree) -> TreeV
    decreases t,
{
    TreeV {
        node: t.node@,
        left: child_view(t.left),
        right: child_view(t.right),
        height: t.height as nat,
    }
}

/// The value of an optional child.
pub open spec fn child_view(c: Option<Child>) -> Option<ChildV>
    decreases c,
{
    match c {
        Some(ch) => Some(ChildV { tree: Box::new(tree_view(*ch.tree)), hash: ch.hash@ }),
        None => None,
    }
}

impl View for Tree {
    type V = TreeV;

    open spec fn view(&self) -> TreeV {
        tree_view(*self)
    }
}

/// A tree of one node.
pub open spec fn leaf(node: NodeV) -> TreeV {
    TreeV { node, left: None, right: None, height: 1 }
}

impl TreeV {
    /// The child on the given side.
    pub open spec fn child(self, left: bool) -> Option<ChildV> {
        if left {
            self.left
        } else {
            self.right
        }
    }
}

/// The hash stored for a child, or the null hash when there is none.
pub open spec fn child_hash_spec(c: Option<ChildV>) -> Seq<u8> {
    match c {
        Some(c) => c.hash,
        None => null_hash_spec(),
    }
}

/// The hash of a proof tree node, computed from its node and its children's
/// stored hashes; `None` when a key or value is too long to hash.
pub open spec fn tree_hash_spec(t: TreeV) -> Option<Seq<u8>> {
    match t.node {
        NodeV::Hash(h) => Some(h),
        NodeV::KVHash(kv) => Some(
            node_hash_spec(kv, child_hash_spec(t.left), child_hash_spec(t.right)),
        ),
        NodeV::KV(k, v) => if kv_hashable(k, v) {
            Some(
                node_hash_spec(kv_hash_spec(k, v), child_hash_spec(t.left), child_hash_spec(t.right)),
            )
        } else {
            None
        },
    }
}

/// Attaching `c` below `t` on the given side.
pub open spec fn attach_spec(t: TreeV, left: bool, c: TreeV) -> Result<TreeV, Fault> {
    if t.child(left) is Some {
        Err(Fault::Attach)
    } else {
        match tree_hash_spec(c) {
            None => Err(Fault::Overflow),
            Some(h) => {
                let ch = Some(ChildV { tree: Box::new(c), hash: h });
                Ok(
                    TreeV {
                        node: t.node,
                        left: if left {
                            ch
                        } else {
                            t.left
                        },
                        right: if left {
                            t.right
                        } else {
                            ch
                        },
                        height: if t.height >= c.height + 1 {
                            t.height
                        } else {
                            c.height + 1
                        },
                    },
                )
            },
        }
    }
}

/// Replacing a tree by a single `Hash` node carrying its hash.
pub open spec fn collapse_spec(t: TreeV) -> Result<TreeV, Fault> {
    match tree_hash_spec(t) {
        Some(h) => Ok(leaf(NodeV::Hash(h))),
        None => Err(Fault::Overflow),
    }
}

/// The nodes of a tree in key order (in-order traversal).
pub open spec fn in_order(t: TreeV) -> Seq<NodeV>
    decreases t,
{
    let l = match t.left {
        Some(c) => in_order(*c.tree),
        None => Seq::empty(),
    };
    let r = match t.right {
        Some(c) => in_order(*c.tree),
        None => Seq::empty(),
    };
    l + seq![t.node] + r
}

/// Whether every node less than `depth` levels down has two children.
pub open spec fn full_to(t: TreeV, depth: nat) -> bool
    decreases depth,
{
    if depth == 0 {
        true
    } else {
        match (t.left, t.right) {
            (Some(l), Some(r)) => full_to(*l.tree, (depth - 1) as nat) && full_to(
                *r.tree,
                (depth - 1) as nat,
            ),
            _ => false,
        }
    }
}

/// The nodes exactly `depth` levels down, left to right.
pub open spec fn layer_spec(t: TreeV, depth: nat) -> Seq<TreeV>
    decreases depth,
{
    if depth == 0 {
        seq![t]
    } else {
        match (t.left, t.right) {
            (Some(l), Some(r)) => layer_spec(*l.tree, (depth - 1) as nat) + layer_spec(
                *r.tree,
                (depth - 1) as nat,
            ),
            _ => Seq::empty(),
        }
    }
}

impl Tree {
    /// Creates a childless tree with the target node as the `node` field.
    pub fn from_node(node: Node) -> (t: Tree)
        ensures
            t@ == leaf(node@),
    {
        Tree { node, left: None, right: None, height: 1 }
    }

    /// Returns the already-computed hash for this tree node's child on the
    /// given side, if any; the null hash (zero-filled) if there is none.
    pub fn child_hash(&self, left: bool) -> (h: [u8; 32])
        ensures
            h@ == child_hash_spec(self@.child(left)),
    {
        let c = if left {
            &self.left
        } else {
            &self.right
        };
        match c {
            Some(c) => c.hash,
            None => null_hash(),
        }
    }

    /// Gets or computes the hash for this tree node. Fails when a key or
    /// value is too long to hash.
    pub fn hash(&self) -> (r: Result<[u8; 32], Error>)
        ensures
            match tree_hash_spec(self@) {
                Some(h) => r matches Ok(x) && x@ == h,
                None => r matches Err(e) && e.fault() == Fault::Overflow,
            },
    {
        match &self.node {
            Node::Hash(hash) => Ok(*hash),
            Node::KVHash(kv) => Ok(node_hash(kv, &self.child_hash(true), &self.child_hash(false))),
            Node::KV(key, value) => {
                let kv = kv_hash(key.as_slice(), value.as_slice())?;
                Ok(node_hash(&kv, &self.child_hash(true), &self.child_hash(false)))
            },
        }
    }

    /// Returns an immutable reference to the child on the given side, if any.
    pub fn child(&self, left: bool) -> (r: Option<&Child>)
        ensures
            match r {
                Some(c) => (if left {
                    self.left
                } else {
                    self.right
                }) == Some(*c),
                None => (if left {
                    self.left
                } else {
                    self.right
                }) is None,
            },
    {
        if left {
            self.left.as_ref()
        } else {
            self.right.as_ref()
        }
    }

    /// Attaches the child to the given side, which must be free. Fails if
    /// the child's hash cannot be computed.
    pub fn attach(&mut self, left: bool, child: Tree) -> (r: Result<(), Error>)
        requires
            child.height < usize::MAX,
            old(self)@.child(left) is None,
        ensures
            match attach_spec(old(self)@, left, child@) {
                Ok(t) => r is Ok && final(self)@ == t,
                Err(f) => r matches Err(e) && e.fault() == f && final(self)@ == old(self)@,
            },
    {
        let hash = child.hash()?;
        if self.height < child.height + 1 {
            self.height = child.height + 1;
        }
        let c = Some(Child { tree: Box::new(child), hash });
        if left {
            self.left = c;
        } else {
            self.right = c;
        }
        Ok(())
    }

    /// Consumes the tree node, calculates its hash, and returns a tree of a
    /// single `Node::Hash` carrying it.
    pub fn into_hash(self) -> (r: Result<Tree, Error>)
        ensures
            match collapse_spec(self@) {
                Ok(t) => r matches Ok(x) && x@ == t,
                Err(f) => r matches Err(e) && e.fault() == f,
            },
    {
        let h = self.hash()?;
        Ok(Tree::from_node(Node::Hash(h)))
    }

    /// The key of a tree whose node is a key/value pair.
    pub fn key(&self) -> (k: &[u8])
        requires
            self.node is KV,
        ensures
            self@.node matches NodeV::KV(key, _) && k@ == key,
    {
        match &self.node {
            Node::KV(key, _) => key.as_slice(),
            _ => {
                assert(false);
                &[]
            },
        }
    }

    /// Consumes the tree and returns its nodes in key order (an in-order
    /// traversal).
    pub fn visit_nodes(self) -> (r: Vec<Node>)
        ensures
            r@.map_values(|n: Node| n@) == in_order(self@),
        decreases self,
    {
        let Tree { node, left, right, height: _ } = self;
        let mut out: Vec<Node> = match left {
            Some(c) => (*c.tree).visit_nodes(),
            None => Vec::new(),
        };
        let ghost l = out@.map_values(|n: Node| n@);
        out.push(node);
        let mut rest: Vec<Node> = match right {
            Some(c) => (*c.tree).visit_nodes(),
            None => Vec::new(),
        };
        let ghost r = rest@.map_values(|n: Node| n@);
        let ghost mid = out@;
        out.append(&mut rest);
        assert(out@.map_values(|n: Node| n@) =~= l + seq![node@] + r);
        out
    }

    /// Returns references to all the subtrees' roots, in key order (an
    /// in-order traversal).
    pub fn visit_refs(&self) -> (r: Vec<&Tree>)
        ensures
            r@.map_values(|t: &Tree| t@.node) == in_order(self@),
        decreases self,
    {
        let mut out: Vec<&Tree> = match &self.left {
            Some(c) => c.tree.visit_refs(),
            None => Vec::new(),
        };
        let ghost l = out@.map_values(|t: &Tree| t@.node);
        out.push(self);
        let mut rest: Vec<&Tree> = match &self.right {
            Some(c) => c.tree.visit_refs(),
            None => Vec::new(),
        };
        let ghost r = rest@.map_values(|t: &Tree| t@.node);
        out.append(&mut rest);
        assert(out@.map_values(|t: &Tree| t@.node) =~= l + seq![self@.node] + r);
        out
    }

    /// Creates an iterator over the nodes at the given depth, in key order.
    /// Every node above that depth must have both children.
    pub fn layer(&self, depth: usize) -> (it: LayerIter<'_>)
        requires
            full_to(self@, depth as nat),
        ensures
            it.remaining() == layer_spec(self@, depth as nat),
    {
        LayerIter::new(self, depth)
    }
}

/// Collects the subtrees exactly `depth` levels down.
fn collect_layer<'a>(tree: &'a Tree, depth: usize, out: &mut Vec<&'a Tree>)
    requires
        full_to(tree@, depth as nat),
    ensures
        final(out)@.map_values(|t: &Tree| t@) == old(out)@.map_values(|t: &Tree| t@) + layer_spec(
            tree@,
            depth as nat,
        ),
    decreases depth,
{
    if depth == 0 {
        out.push(tree);
        assert(final(out)@.map_values(|t: &Tree| t@) =~= old(out)@.map_values(|t: &Tree| t@)
            + layer_spec(tree@, depth as nat));
    } else {
        match (&tree.left, &tree.right) {
            (Some(l), Some(r)) => {
                let ghost before = out@.map_values(|t: &Tree| t@);
                collect_layer(&l.tree, depth - 1, out);
                collect_layer(&r.tree, depth - 1, out);
                assert(final(out)@.map_values(|t: &Tree| t@) =~= before + layer_spec(
                    tree@,
                    depth as nat,
                ));
            },
            _ => {
                assert(false);
            },
        }
    }
}

/// `LayerIter` iterates over the nodes in a `Tree` at a given depth. Nodes
/// are visited in order.
pub struct LayerIter<'a> {
    items: Vec<&'a Tree>,
    pos: usize,
}

impl<'a> LayerIter<'a> {
    /// The subtrees still to be yielded.
    pub closed spec fn remaining(&self) -> Seq<TreeV> {
        self.items@.skip(self.pos as int).map_values(|t: &Tree| t@)
    }

    /// Whether the position is within the collected items.
    pub closed spec fn wf(&self) -> bool {
        self.pos <= self.items@.len()
    }

    fn new(tree: &'a Tree, depth: usize) -> (it: Self)
        requires
            full_to(tree@, depth as nat),
        ensures
            it.wf(),
            it.remaining() == layer_spec(tree@, depth as nat),
    {
        let mut items: Vec<&'a Tree> = Vec::new();
        collect_layer(tree, depth, &mut items);
        let it = LayerIter { items, pos: 0 };
        assert(it.items@.skip(0) =~= it.items@);
        assert(it.remaining() =~= layer_spec(tree@, depth as nat));
        it
    }

    /// Yields the next subtree of the layer, or `None` at the end.
    pub fn next(&mut self) -> (r: Option<&'a Tree>)
        requires
            old(self).wf(),
        ensures
            final(self).wf(),
            old(self).remaining().len() == 0 ==> r is None,
            old(self).remaining().len() > 0 ==> (r matches Some(t) && t@ == old(self).remaining()[0]
                && final(self).remaining() == old(self).remaining().drop_first()),
    {
        if self.pos >= self.items.len() {
            return None;
        }
        let t = self.items[self.pos];
        let ghost before = self.remaining();
        self.pos = self.pos + 1;
        assert(self.remaining() =~= before.drop_first());
        Some(t)
    }
}


/// The state of the proof stack machine: the stack of trees, and the last
/// key pushed.
pub struct ExecState {
    pub stack: Seq<TreeV>,
    pub last_key: Option<Seq<u8>>,
}

/// The state before any operator has run.
pub open spec fn init_state() -> ExecState {
    ExecState { stack: Seq::empty(), last_key: None }
}

/// Pops `child` and `parent` as the operator says and attaches them.
pub open spec fn exec_join(s: ExecState, left: bool, collapse: bool) -> Result<ExecState, Fault> {
    let n = s.stack.len();
    if n < 2 {
        Err(Fault::StackUnderflow)
    } else {
        let top = s.stack[n - 1];
        let below = s.stack[n - 2];
        let (parent, child) = if left {
            (top, below)
        } else {
            (below, top)
        };
        let c = if collapse {
            collapse_spec(child)
        } else {
            Ok(child)
        };
        match c {
            Err(f) => Err(f),
            Ok(c) => match attach_spec(parent, left, c) {
                Err(f) => Err(f),
                Ok(p) => Ok(ExecState { stack: s.stack.subrange(0, n - 2).push(p), last_key: s.last_key }),
            },
        }
    }
}

/// One step of the proof stack machine.
pub open spec fn exec_op(s: ExecState, op: OpV, collapse: bool) -> Result<ExecState, Fault> {
    match op {
        OpV::Parent => exec_join(s, true, collapse),
        OpV::Child => exec_join(s, false, collapse),
        OpV::Push(node) => match node {
            NodeV::KV(k, _) => match s.last_key {
                Some(lk) if !lex_lt(lk, k) => Err(Fault::Key),
                _ => Ok(ExecState { stack: s.stack.push(leaf(node)), last_key: Some(k) }),
            },
            _ => Ok(ExecState { stack: s.stack.push(leaf(node)), last_key: s.last_key }),
        },
    }
}

/// Running a sequence of operators from a state.
pub open spec fn run_ops(s: ExecState, ops: Seq<OpV>, collapse: bool) -> Result<ExecState, Fault>
    decreases ops.len(),
{
    if ops.len() == 0 {
        Ok(s)
    } else {
        match exec_op(s, ops[0], collapse) {
            Err(f) => Err(f),
            Ok(s2) => run_ops(s2, ops.drop_first(), collapse),
        }
    }
}

/// The tree left by a finished run: there must be exactly one.
pub open spec fn finish_spec(s: ExecState) -> Result<TreeV, Fault> {
    if s.stack.len() == 1 {
        Ok(s.stack[0])
    } else {
        Err(Fault::Proof)
    }
}

/// The result of executing a proof.
pub open spec fn execute_spec(ops: Seq<OpV>, collapse: bool) -> Result<TreeV, Fault> {
    match run_ops(init_state(), ops, collapse) {
        Err(f) => Err(f),
        Ok(s) => match finish_spec(s) {
            Err(f) => Err(f),
            Ok(t) => if collapse {
                collapse_spec(t)
            } else {
                Ok(t)
            },
        },
    }
}

/// Running `ops` then one more operator is running `ops.push(op)`.
pub proof fn lemma_run_ops_push(s: ExecState, ops: Seq<OpV>, op: OpV, collapse: bool)
    requires
        run_ops(s, ops, collapse) is Ok,
    ensures
        run_ops(s, ops.push(op), collapse) == exec_op(run_ops(s, ops, collapse)->Ok_0, op, collapse),
    decreases ops.len(),
{
    reveal_with_fuel(run_ops, 2);
    if ops.len() == 0 {
        assert(ops.push(op).drop_first() =~= Seq::<OpV>::empty());
    } else {
        let s2 = exec_op(s, ops[0], collapse)->Ok_0;
        lemma_run_ops_push(s2, ops.drop_first(), op, collapse);
        assert(ops.push(op).drop_first() =~= ops.drop_first().push(op));
    }
}

/// Running `a + b` is running `a`, then `b` from where `a` left off.
pub proof fn lemma_run_ops_concat(s: ExecState, a: Seq<OpV>, b: Seq<OpV>, collapse: bool)
    ensures
        run_ops(s, a + b, collapse) == match run_ops(s, a, collapse) {
            Ok(s2) => run_ops(s2, b, collapse),
            Err(f) => Err(f),
        },
    decreases a.len(),
{
    if a.len() == 0 {
        assert(a + b =~= b);
    } else {
        assert((a + b).drop_first() =~= a.drop_first() + b);
        assert((a + b)[0] == a[0]);
        match exec_op(s, a[0], collapse) {
            Ok(s2) => lemma_run_ops_concat(s2, a.drop_first(), b, collapse),
            Err(_) => {},
        }
    }
}

/// Once a run fails, running more operators fails the same way.
pub proof fn lemma_run_ops_push_err(s: ExecState, ops: Seq<OpV>, op: OpV, collapse: bool)
    requires
        run_ops(s, ops, collapse) is Err,
    ensures
        run_ops(s, ops.push(op), collapse) == run_ops(s, ops, collapse),
    decreases ops.len(),
{
    if ops.len() > 0 {
        match exec_op(s, ops[0], collapse) {
            Err(f) => {},
            Ok(s2) => {
                lemma_run_ops_push_err(s2, ops.drop_first(), op, collapse);
                assert(ops.push(op).drop_first() =~= ops.drop_first().push(op));
            },
        }
    }
}

/// The proof stack machine, run one operator at a time.
pub(crate) struct Executor {
    stack: Vec<Tree>,
    last_key: Option<Vec<u8>>,
    collapse: bool,
    steps: Ghost<nat>,
}

impl Executor {
    pub(crate) closed spec fn state(&self) -> ExecState {
        ExecState {
            stack: self.stack@.map_values(|t: Tree| t@),
            last_key: match self.last_key {
                Some(k) => Some(k@),
                None => None,
            },
        }
    }

    pub(crate) closed spec fn collapses(&self) -> bool {
        self.collapse
    }

    pub(crate) closed spec fn steps(&self) -> nat {
        self.steps@
    }

    pub(crate) closed spec fn inv(&self) -> bool {
        forall|i: int|
            0 <= i < self.stack@.len() ==> 1 <= #[trigger] self.stack@[i].height <= self.steps@
    }

    pub(crate) fn new(collapse: bool) -> (e: Executor)
        ensures
            e.state() == init_state(),
            e.collapses() == collapse,
            e.steps() == 0,
            e.inv(),
    {
        let e = Executor { stack: Vec::new(), last_key: None, collapse, steps: Ghost(0) };
        assert(e.state().stack =~= Seq::<TreeV>::empty());
        e
    }

    fn join(&mut self, left: bool) -> (r: Result<(), Error>)
        requires
            old(self).inv(),
            old(self).steps() < usize::MAX,
        ensures
            final(self).collapses() == old(self).collapses(),
            match exec_join(old(self).state(), left, old(self).collapses()) {
                Ok(s) => r is Ok && final(self).state() == s && final(self).inv() && final(self).steps()
                    == old(self).steps() + 1,
                Err(f) => r matches Err(e) && e.fault() == f,
            },
    {
        let ghost s0 = self.state();
        let n = self.stack.len();
        if n < 2 {
            return Err(Error::StackUnderflow);
        }
        assert(self.stack@[n - 1].height <= self.steps@);
        assert(self.stack@[n - 2].height <= self.steps@);
        let top = self.stack.pop().unwrap();
        let below = self.stack.pop().unwrap();
        assert(self.stack@.map_values(|t: Tree| t@) =~= s0.stack.subrange(0, n - 2));
        let (mut parent, child) = if left {
            (top, below)
        } else {
            (below, top)
        };
        let child = if self.collapse {
            child.into_hash()?
        } else {
            child
        };
        let ghost p0 = parent@;
        let ghost c0 = child@;
        assert(c0.height <= self.steps@);
        if parent.child(left).is_some() {
            return Err(Error::Attach("Tried to attach to child, but it is already Some".to_owned()));
        }
        parent.attach(left, child)?;
        let ghost p1 = parent@;
        assert(p1.height <= self.steps@ + 1);
        self.stack.push(parent);
        self.steps = Ghost(self.steps@ + 1);
        assert(self.state().stack =~= s0.stack.subrange(0, n - 2).push(p1));
        assert forall|i: int| 0 <= i < self.stack@.len() implies 1 <= #[trigger] self.stack@[i].height
            <= self.steps@ by {
            if i < n - 2 {
                assert(self.stack@[i] == old(self).stack@[i]);
            }
        }
        Ok(())
    }

    /// Runs one operator.
    pub(crate) fn apply(&mut self, op: Op) -> (r: Result<(), Error>)
        requires
            old(self).inv(),
            old(self).steps() < usize::MAX,
        ensures
            final(self).collapses() == old(self).collapses(),
            match exec_op(old(self).state(), op@, old(self).collapses()) {
                Ok(s) => r is Ok && final(self).state() == s && final(self).inv() && final(self).steps()
                    == old(self).steps() + 1,
                Err(f) => r matches Err(e) && e.fault() == f,
            },
    {
        proof {
            lemma_lex_order();
        }
        match op {
            Op::Parent => self.join(true),
            Op::Child => self.join(false),
            Op::Push(node) => {
                let ghost s0 = self.state();
                if let Node::KV(key, _) = &node {
                    if let Some(last) = &self.last_key {
                        if compare(key.as_slice(), last.as_slice()) != Order::Greater {
                            return Err(Error::Key("Incorrect key ordering".to_owned()));
                        }
                    }
                    self.last_key = Some(copy_bytes(key.as_slice()));
                }
                self.stack.push(Tree::from_node(node));
                self.steps = Ghost(self.steps@ + 1);
                assert(self.state().stack =~= s0.stack.push(leaf(node@)));
                Ok(())
            },
        }
    }

    /// Ends the run: the stack must hold exactly one tree, which is returned.
    pub(crate) fn finish(self) -> (r: Result<Tree, Error>)
        ensures
            match finish_spec(self.state()) {
                Ok(t) => r matches Ok(x) && x@ == t,
                Err(f) => r matches Err(e) && e.fault() == f,
            },
    {
        let mut stack = self.stack;
        if stack.len() != 1 {
            return Err(Error::Proof("Expected proof to result in exactly one stack item".to_owned()));
        }
        let ghost s = stack@;
        let t = stack.pop().unwrap();
        assert(t@ == s.map_values(|t: Tree| t@)[0]);
        Ok(t)
    }
}

/// Executes a proof by stepping through its operators, modifying the
/// verification stack as it goes. The resulting stack item is returned.
///
/// If `collapse` is set, nodes are hashed and pruned from memory during
/// execution, and the returned tree is a single `Node::Hash` holding the
/// root hash; otherwise the result contains the entire subtree contained in
/// the proof.
pub fn execute(ops: &[Op], collapse: bool) -> (r: Result<Tree, Error>)
    ensures
        match execute_spec(super::ops_view(ops@), collapse) {
            Ok(t) => r matches Ok(x) && x@ == t,
            Err(f) => r matches Err(e) && e.fault() == f,
        },
        collapse ==> (r matches Ok(x) ==> x@.node is Hash && x@.left is None && x@.right is None),
{
    let ghost all = super::ops_view(ops@);
    let mut exec = Executor::new(collapse);
    let mut i: usize = 0;
    while i < ops.len()
        invariant
            i <= ops@.len(),
            all == super::ops_view(ops@),
            exec.inv(),
            exec.steps() == i,
            exec.collapses() == collapse,
            run_ops(init_state(), all.subrange(0, i as int), collapse) == Ok::<ExecState, Fault>(
                exec.state(),
            ),
        decreases ops@.len() - i,
    {
        let op = ops[i].copy();
        proof {
            lemma_run_ops_push(init_state(), all.subrange(0, i as int), op@, collapse);
            assert(all.subrange(0, i + 1) =~= all.subrange(0, i as int).push(op@));
        }
        let r = exec.apply(op);
        match r {
            Ok(()) => {},
            Err(e) => {
                proof {
                    lemma_run_ops_prefix_err(init_state(), all, (i + 1) as int, collapse);
                }
                return Err(e);
            },
        }
        i = i + 1;
    }
    assert(all.subrange(0, i as int) =~= all);
    let root = exec.finish()?;
    if collapse {
        root.into_hash()
    } else {
        Ok(root)
    }
}

/// A run that fails on a prefix fails the same way on the whole sequence.
pub proof fn lemma_run_ops_prefix_err(s: ExecState, ops: Seq<OpV>, n: int, collapse: bool)
    requires
        0 <= n <= ops.len(),
        run_ops(s, ops.subrange(0, n), collapse) is Err,
    ensures
        run_ops(s, ops, collapse) == run_ops(s, ops.subrange(0, n), collapse),
    decreases ops.len() - n,
{
    if n < ops.len() {
        lemma_run_ops_push_err(s, ops.subrange(0, n), ops[n], collapse);
        assert(ops.subrange(0, n).push(ops[n]) =~= ops.subrange(0, n + 1));
        lemma_run_ops_prefix_err(s, ops, n + 1, collapse);
    } else {
        assert(ops.subrange(0, n) =~= ops);
    }
}

} // verus!
