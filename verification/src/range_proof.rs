//! Range proofs over stored nodes: the operators a proof is made of, and
//! the rebuilding of the proven part of a tree from them.
use vstd::prelude::*;

use crate::bytes::{lemma_lex_order, lex_lt};
use crate::node::{kv_hash_spec, Link};
use crate::sparse_tree::{describes, links_ok, loaded, node_ok, SparseTree};
use vstd::string::StringExecFns;

verus! {

/// The largest number of trees the stack may hold when a node is pushed.
pub const MAX_STACK_SIZE: usize = 50;

/// A proof operator.
#[derive(Debug)]
pub enum Op {
    /// Pushes a node on the stack.
    Push(Node),
    /// Pops a tree, then another, and attaches the second as the left child
    /// of the first.
    Parent,
    /// Pops a tree, then another, and attaches the first as the right child
    /// of the second.
    Child,
}

/// A piece of data about a node, held by a `Push` operator.
#[derive(Debug)]
pub enum Node {
    /// The hash of a node.
    Hash([u8; 20]),
    /// The hash of a node's key/value pair.
    KVHash([u8; 20]),
    /// A node's key and value.
    KV(Vec<u8>, Vec<u8>),
}

/// A tree described by a proof.
pub struct Tree {
    pub node: Node,
    pub left: Option<Box<Tree>>,
    pub right: Option<Box<Tree>>,
}

/// The keys and values of a tree, and its shape.
pub struct ShapeV {
    pub key: Seq<u8>,
    pub value: Seq<u8>,
    pub left: Option<Box<ShapeV>>,
    pub right: Option<Box<ShapeV>>,
}

/// The shape of the tree in memory.
pub open spec fn shape(t: SparseTree) -> ShapeV
    decreases t,
{
    ShapeV {
        key: t.node.key@,
        value: t.node.value@,
        left: match t.left {
            Some(c) => Some(Box::new(shape(*c))),
            None => None,
        },
        right: match t.right {
            Some(c) => Some(Box::new(shape(*c))),
            None => None,
        },
    }
}

/// The height of a shape: one more than its taller child's.
pub open spec fn shape_height(s: ShapeV) -> nat
    decreases s,
{
    let l = match s.left {
        Some(c) => shape_height(*c),
        None => 0,
    };
    let r = match s.right {
        Some(c) => shape_height(*c),
        None => 0,
    };
    1 + if l >= r {
        l
    } else {
        r
    }
}

/// Where rebuilding a tree from a proof stands: still running, with the
/// stack of trees and the last key pushed; failed with an error; or stopped
/// on a condition the proof must never meet.
pub enum Recon {
    Running(Seq<ShapeV>, Option<Seq<u8>>),
    Failed,
    Panicked,
}

/// The value of an operator's node: `None` for a hash, the key and value
/// for a `KV`.
pub open spec fn op_kv(op: Op) -> Option<(Seq<u8>, Seq<u8>)> {
    match op {
        Op::Push(Node::KV(k, v)) => Some((k@, v@)),
        _ => None,
    }
}

/// One step of rebuilding.
pub open spec fn recon_step(st: Recon, op: Op) -> Recon {
    match st {
        Recon::Running(stack, prev) => {
            let n = stack.len();
            match op {
                Op::Push(Node::KV(k, v)) => {
                    if n >= MAX_STACK_SIZE {
                        Recon::Failed
                    } else if prev matches Some(p) && !lex_lt(p, k@) {
                        Recon::Panicked
                    } else {
                        Recon::Running(
                            stack.push(ShapeV { key: k@, value: v@, left: None, right: None }),
                            Some(k@),
                        )
                    }
                },
                Op::Push(_) => Recon::Panicked,
                Op::Parent => {
                    if n == 0 {
                        Recon::Panicked
                    } else if stack[n - 1].left is Some {
                        Recon::Failed
                    } else if n < 2 {
                        Recon::Panicked
                    } else if shape_height(stack[n - 2]) > u8::MAX {
                        Recon::Panicked
                    } else {
                        let top = stack[n - 1];
                        Recon::Running(
                            stack.subrange(0, n - 2).push(
                                ShapeV { left: Some(Box::new(stack[n - 2])), ..top },
                            ),
                            prev,
                        )
                    }
                },
                Op::Child => {
                    if n < 2 {
                        Recon::Panicked
                    } else if stack[n - 2].right is Some {
                        Recon::Failed
                    } else if shape_height(stack[n - 1]) > u8::MAX {
                        Recon::Panicked
                    } else {
                        let top = stack[n - 2];
                        Recon::Running(
                            stack.subrange(0, n - 2).push(
                                ShapeV { right: Some(Box::new(stack[n - 1])), ..top },
                            ),
                            prev,
                        )
                    }
                },
            }
        },
        other => other,
    }
}

/// Rebuilding from a state through a sequence of operators.
pub open spec fn recon_run(st: Recon, ops: Seq<Op>) -> Recon
    decreases ops.len(),
{
    if ops.len() == 0 {
        st
    } else {
        recon_run(recon_step(st, ops[0]), ops.drop_first())
    }
}

/// The outcome of rebuilding a tree from a whole proof: `Running` with the
/// one tree left on the stack when it succeeds.
pub open spec fn reconstruct_spec(ops: Seq<Op>) -> Recon {
    match recon_run(Recon::Running(Seq::empty(), None), ops) {
        Recon::Running(stack, prev) => if stack.len() == 1 {
            Recon::Running(stack, prev)
        } else {
            Recon::Panicked
        },
        other => other,
    }
}

proof fn lemma_recon_run_push(st: Recon, ops: Seq<Op>, op: Op)
    ensures
        recon_run(st, ops.push(op)) == recon_step(recon_run(st, ops), op),
    decreases ops.len(),
{
    reveal_with_fuel(recon_run, 2);
    if ops.len() == 0 {
        assert(ops.push(op).drop_first() =~= Seq::<Op>::empty());
    } else {
        assert(ops.push(op).drop_first() =~= ops.drop_first().push(op));
        assert(ops.push(op)[0] == ops[0]);
        lemma_recon_run_push(recon_step(st, ops[0]), ops.drop_first(), op);
    }
}

proof fn lemma_recon_prefix(ops: Seq<Op>, n: int)
    requires
        0 <= n <= ops.len(),
        !(recon_run(Recon::Running(Seq::empty(), None), ops.take(n)) is Running),
    ensures
        reconstruct_spec(ops) == recon_run(Recon::Running(Seq::empty(), None), ops.take(n)),
{
    assert(ops =~= ops.take(n) + ops.skip(n));
    lemma_recon_concat(Recon::Running(Seq::empty(), None), ops.take(n), ops.skip(n));
    lemma_recon_halted(recon_run(Recon::Running(Seq::empty(), None), ops.take(n)), ops.skip(n));
}

proof fn lemma_recon_concat(st: Recon, a: Seq<Op>, b: Seq<Op>)
    ensures
        recon_run(st, a + b) == recon_run(recon_run(st, a), b),
    decreases a.len(),
{
    if a.len() > 0 {
        assert((a + b).drop_first() =~= a.drop_first() + b);
        assert((a + b)[0] == a[0]);
        lemma_recon_concat(recon_step(st, a[0]), a.drop_first(), b);
    } else {
        assert(a + b =~= b);
    }
}

/// The keys of a shape in key order (in-order traversal).
pub open spec fn shape_keys(s: ShapeV) -> Seq<Seq<u8>>
    decreases s,
{
    let l = match s.left {
        Some(c) => shape_keys(*c),
        None => Seq::empty(),
    };
    let r = match s.right {
        Some(c) => shape_keys(*c),
        None => Seq::empty(),
    };
    l + seq![s.key] + r
}

/// The keys of a stack of shapes, from the bottom up.
pub open spec fn stack_keys(st: Seq<ShapeV>) -> Seq<Seq<u8>>
    decreases st.len(),
{
    if st.len() == 0 {
        Seq::empty()
    } else {
        stack_keys(st.drop_last()) + shape_keys(st.last())
    }
}

/// The keys that the pushes of a sequence of operators carry, in order.
pub open spec fn pushed_keys(ops: Seq<Op>) -> Seq<Seq<u8>>
    decreases ops.len(),
{
    if ops.len() == 0 {
        Seq::empty()
    } else {
        pushed_keys(ops.drop_last()) + match ops.last() {
            Op::Push(Node::KV(k, _)) => seq![k@],
            _ => Seq::empty(),
        }
    }
}

/// While rebuilding runs, the stack's trees hold the pushed keys in push
/// order, each tree in key order.
proof fn lemma_recon_keys(ops: Seq<Op>)
    ensures
        recon_run(Recon::Running(Seq::empty(), None), ops) matches Recon::Running(stack, _) ==> stack_keys(stack)
            == pushed_keys(ops),
    decreases ops.len(),
{
    let init = Recon::Running(Seq::empty(), None);
    if ops.len() == 0 {
        assert(stack_keys(Seq::<ShapeV>::empty()) =~= Seq::<Seq<u8>>::empty());
    } else {
        let prev = ops.drop_last();
        let op = ops.last();
        assert(ops =~= prev.push(op));
        lemma_recon_keys(prev);
        lemma_recon_run_push(init, prev, op);
        let before = recon_run(init, prev);
        if let Recon::Running(stack, p) = before {
            let n = stack.len();
            match op {
                Op::Push(Node::KV(k, v)) => {
                    let leaf = ShapeV { key: k@, value: v@, left: None, right: None };
                    assert(stack.push(leaf).drop_last() =~= stack);
                    assert(shape_keys(leaf) =~= seq![k@]);
                },
                Op::Parent => {
                    if n >= 2 {
                        let top = stack[n - 1];
                        let below = stack[n - 2];
                        let base = stack.subrange(0, n - 2);
                        let nw = ShapeV { left: Some(Box::new(below)), ..top };
                        assert(stack.drop_last().drop_last() =~= base);
                        assert(stack.drop_last().last() == below);
                        assert(base.push(nw).drop_last() =~= base);
                        if top.left is None {
                            assert(shape_keys(nw) =~= shape_keys(below) + shape_keys(top));
                            assert(stack_keys(stack) == stack_keys(stack.drop_last()) + shape_keys(top));
                            assert(stack_keys(stack.drop_last()) == stack_keys(base) + shape_keys(below));
                            assert(stack_keys(base.push(nw)) == stack_keys(base) + shape_keys(nw));
                            assert(stack_keys(base.push(nw)) =~= stack_keys(stack));
                        }
                    }
                },
                Op::Child => {
                    if n >= 2 {
                        let top = stack[n - 1];
                        let below = stack[n - 2];
                        let base = stack.subrange(0, n - 2);
                        let nw = ShapeV { right: Some(Box::new(top)), ..below };
                        assert(stack.drop_last().drop_last() =~= base);
                        assert(stack.drop_last().last() == below);
                        assert(base.push(nw).drop_last() =~= base);
                        if below.right is None {
                            assert(shape_keys(nw) =~= shape_keys(below) + shape_keys(top));
                            assert(stack_keys(stack) == stack_keys(stack.drop_last()) + shape_keys(top));
                            assert(stack_keys(stack.drop_last()) == stack_keys(base) + shape_keys(below));
                            assert(stack_keys(base.push(nw)) == stack_keys(base) + shape_keys(nw));
                            assert(stack_keys(base.push(nw)) =~= stack_keys(stack));
                        }
                    }
                },
                _ => {},
            }
        }
    }
}

/// The tree rebuilt from a proof holds the pushed keys, in push order, in
/// key order.
pub proof fn lemma_reconstruct_in_order(ops: Seq<Op>)
    ensures
        reconstruct_spec(ops) matches Recon::Running(stack, _) ==> shape_keys(stack[0]) == pushed_keys(ops),
{
    lemma_recon_keys(ops);
    if let Recon::Running(stack, _) = reconstruct_spec(ops) {
        assert(stack.drop_last() =~= Seq::<ShapeV>::empty());
        assert(stack_keys(stack.drop_last()) =~= Seq::<Seq<u8>>::empty());
        assert(stack.last() == stack[0]);
        assert(stack_keys(stack) =~= shape_keys(stack[0]));
    }
}

proof fn lemma_recon_halted(st: Recon, ops: Seq<Op>)
    requires
        !(st is Running),
    ensures
        recon_run(st, ops) == st,
    decreases ops.len(),
{
    if ops.len() > 0 {
        lemma_recon_halted(recon_step(st, ops[0]), ops.drop_first());
    }
}

/// The view of an optional key.
pub open spec fn opt_view(k: Option<Vec<u8>>) -> Option<Seq<u8>> {
    match k {
        Some(k) => Some(k@),
        None => None,
    }
}

/// Whether the trees on the stack match their shapes, have right links, are
/// fully in memory, and their roots' keys increase up the stack, below the
/// last key pushed.
pub open spec fn stack_ok(trees: Seq<SparseTree>, shapes: Seq<ShapeV>, prev: Option<Seq<u8>>) -> bool {
    &&& trees.len() == shapes.len()
    &&& forall|i: int| 0 <= i < trees.len() ==> shape(#[trigger] trees[i]) == shapes[i]
    &&& forall|i: int| 0 <= i < trees.len() ==> links_ok(#[trigger] trees[i]) && loaded(trees[i])
    &&& forall|i: int, j: int| 0 <= i < j < trees.len() ==> lex_lt(#[trigger] trees[i].node.key@, #[trigger] trees[j].node.key@)
    &&& forall|i: int| 0 <= i < trees.len() ==> (prev matches Some(p) && (#[trigger] trees[i].node.key@ == p || lex_lt(trees[i].node.key@, p)))
}

proof fn lemma_height_shape(t: SparseTree)
    requires
        links_ok(t),
        loaded(t),
    ensures
        t.node.height_spec() == shape_height(shape(t)),
    decreases t,
{
    if let Some(c) = t.left {
        lemma_height_shape(*c);
    }
    if let Some(c) = t.right {
        lemma_height_shape(*c);
    }
}

/// Rebuilds the proven part of a tree from a proof of `KV` pushes (hash
/// pushes are not handled), checking that keys increase. Fails when more
/// than `MAX_STACK_SIZE` trees would be on the stack, or when a node gets a
/// second child on one side.
pub fn reconstruct(ops: &[Op]) -> (r: Result<SparseTree, crate::error::Error>)
    requires
        !(reconstruct_spec(ops@) is Panicked),
    ensures
        r is Ok <==> reconstruct_spec(ops@) is Running,
        r matches Err(e) ==> e is Proof,
        r matches Ok(t) ==> shape_keys(shape(t)) == pushed_keys(ops@),
        r matches Ok(t) ==> {
            &&& reconstruct_spec(ops@) matches Recon::Running(stack, _) && shape(t) == stack[0]
            &&& links_ok(t)
            &&& loaded(t)
        },
{
    let mut stack: Vec<SparseTree> = Vec::new();
    let mut prev_key: Option<Vec<u8>> = None;
    let ghost mut shapes: Seq<ShapeV> = Seq::empty();
    let mut i: usize = 0;
    while i < ops.len()
        invariant
            0 <= i <= ops@.len(),
            !(reconstruct_spec(ops@) is Panicked),
            recon_run(Recon::Running(Seq::empty(), None), ops@.take(i as int)) == Recon::Running(
                shapes,
                opt_view(prev_key),
            ),
            stack_ok(
                stack@,
                shapes,
                opt_view(prev_key),
            ),
        decreases ops@.len() - i,
    {
        assert(ops@.take(i + 1) =~= ops@.take(i as int).push(ops@[i as int]));
        proof {
            lemma_recon_run_push(Recon::Running(Seq::empty(), None), ops@.take(i as int), ops@[i as int]);
            lemma_lex_order();
        }
        let ghost before = recon_run(Recon::Running(Seq::empty(), None), ops@.take(i + 1));
        match &ops[i] {
            Op::Push(node) => match node {
                Node::KV(key, value) => {
                    if stack.len() >= MAX_STACK_SIZE {
                        proof {
                            lemma_recon_prefix(ops@, i + 1);
                        }
                        return Err(crate::error::Error::Proof("Stack exceeded maximum size".to_owned()));
                    }
                    // the pushed keys must increase, and fit in a node
                    assert(before is Running) by {
                        if !(before is Running) {
                            lemma_recon_prefix(ops@, i + 1);
                        }
                    }
                    let tree = SparseTree::new(crate::node::Node::new(key.as_slice(), value.as_slice()));
                    proof {
                        assert(shape(tree) == (ShapeV { key: key@, value: value@, left: None, right: None }));
                    }
                    stack.push(tree);
                    prev_key = Some(crate::bytes::copy_bytes(key.as_slice()));
                    proof {
                        shapes = shapes.push(ShapeV { key: key@, value: value@, left: None, right: None });
                    }
                },
                _ => {
                    proof {
                        assert(before is Panicked);
                        lemma_recon_prefix(ops@, i + 1);
                    }
                    return Err(crate::error::Error::Proof("hash nodes are not handled".to_owned()));
                },
            },
            Op::Parent => {
                assert(stack.len() > 0) by {
                    if stack.len() == 0 {
                        lemma_recon_prefix(ops@, i + 1);
                    }
                }
                let mut top = stack.pop().unwrap();
                if top.left.is_some() {
                    proof {
                        lemma_recon_prefix(ops@, i + 1);
                    }
                    return Err(crate::error::Error::Proof("Got PARENT op for node that already has left child".to_owned()));
                }
                assert(stack.len() > 0) by {
                    if stack.len() == 0 {
                        lemma_recon_prefix(ops@, i + 1);
                    }
                }
                let bottom = stack.pop().unwrap();
                proof {
                    lemma_height_shape(bottom);
                    if bottom.node.height_spec() > u8::MAX {
                        lemma_recon_prefix(ops@, i + 1);
                    }
                }
                top.left = Some(Box::new(bottom));
                top.update_link(true);
                stack.push(top);
                proof {
                    let n = shapes.len();
                    shapes = shapes.subrange(0, n - 2).push(ShapeV { left: Some(Box::new(shapes[n - 2])), ..shapes[n - 1] });
                }
            },
            Op::Child => {
                assert(stack.len() >= 2) by {
                    if stack.len() < 2 {
                        lemma_recon_prefix(ops@, i + 1);
                    }
                }
                let bottom = stack.pop().unwrap();
                let mut top = stack.pop().unwrap();
                if top.right.is_some() {
                    proof {
                        lemma_recon_prefix(ops@, i + 1);
                    }
                    return Err(crate::error::Error::Proof("Got CHILD op for node that already has right child".to_owned()));
                }
                proof {
                    lemma_height_shape(bottom);
                    if bottom.node.height_spec() > u8::MAX {
                        lemma_recon_prefix(ops@, i + 1);
                    }
                }
                top.right = Some(Box::new(bottom));
                top.update_link(false);
                stack.push(top);
                proof {
                    let n = shapes.len();
                    shapes = shapes.subrange(0, n - 2).push(ShapeV { right: Some(Box::new(shapes[n - 1])), ..shapes[n - 2] });
                }
            },
        }
        i = i + 1;
    }
    assert(ops@.take(i as int) =~= ops@);
    assert(stack.len() == 1);
    proof {
        lemma_reconstruct_in_order(ops@);
    }
    Ok(stack.pop().unwrap())
}


/// The digit for a value below 16, in lowercase hexadecimal.
pub open spec fn hex_digit(n: u8) -> char {
    if n < 10 {
        (48 + n) as char
    } else {
        (87 + n) as char
    }
}

/// Bytes in hexadecimal: two lowercase digits per byte.
pub open spec fn hex_spec(b: Seq<u8>) -> Seq<char>
    decreases b.len(),
{
    if b.len() == 0 {
        Seq::empty()
    } else {
        seq![hex_digit(b[0] / 16), hex_digit(b[0] % 16)] + hex_spec(b.drop_first())
    }
}

/// Encodes bytes in lowercase hexadecimal with `hex::encode`. Trusted: the
/// result is two lowercase hexadecimal digits per byte, in order.
#[verifier::external_body]
fn hex_encode(data: &[u8]) -> (s: String)
    ensures
        s@ == hex_spec(data@),
{
    hex::encode(data)
}

/// The decimal digit for a value below 10.
pub open spec fn dec_digit(n: u8) -> char {
    (48 + n) as char
}

/// A byte in decimal, without leading zeros.
pub open spec fn dec_spec(n: u8) -> Seq<char> {
    if n >= 100 {
        seq![dec_digit(n / 100), dec_digit((n / 10) % 10), dec_digit(n % 10)]
    } else if n >= 10 {
        seq![dec_digit(n / 10), dec_digit(n % 10)]
    } else {
        seq![dec_digit(n)]
    }
}

/// Bytes in decimal, separated by a comma and a space.
pub open spec fn dec_list(b: Seq<u8>) -> Seq<char>
    decreases b.len(),
{
    if b.len() == 0 {
        Seq::empty()
    } else if b.len() == 1 {
        dec_spec(b[0])
    } else {
        dec_spec(b[0]) + seq![',', ' '] + dec_list(b.drop_first())
    }
}

/// Bytes as a list literal: `[1, 2, 3]`.
pub open spec fn debug_bytes_spec(b: Seq<u8>) -> Seq<char> {
    seq!['['] + dec_list(b) + seq![']']
}

/// Appends the decimal digit for a value below 10.
fn append_digit(s: &mut String, d: u8)
    requires
        d < 10,
    ensures
        final(s)@ == old(s)@.push(dec_digit(d)),
{
    match d {
        0 => {
            s.append("0");
            proof {
                reveal_strlit("0");
            }
        },
        1 => {
            s.append("1");
            proof {
                reveal_strlit("1");
            }
        },
        2 => {
            s.append("2");
            proof {
                reveal_strlit("2");
            }
        },
        3 => {
            s.append("3");
            proof {
                reveal_strlit("3");
            }
        },
        4 => {
            s.append("4");
            proof {
                reveal_strlit("4");
            }
        },
        5 => {
            s.append("5");
            proof {
                reveal_strlit("5");
            }
        },
        6 => {
            s.append("6");
            proof {
                reveal_strlit("6");
            }
        },
        7 => {
            s.append("7");
            proof {
                reveal_strlit("7");
            }
        },
        8 => {
            s.append("8");
            proof {
                reveal_strlit("8");
            }
        },
        9 => {
            s.append("9");
            proof {
                reveal_strlit("9");
            }
        },
        _ => {},
    }
    assert(s@ =~= old(s)@.push(dec_digit(d)));
}

/// Appends a byte in decimal, without leading zeros.
fn append_dec(s: &mut String, n: u8)
    ensures
        final(s)@ == old(s)@ + dec_spec(n),
{
    if n >= 100 {
        append_digit(s, n / 100);
        append_digit(s, (n / 10) % 10);
    } else if n >= 10 {
        append_digit(s, n / 10);
    }
    append_digit(s, n % 10);
    assert(s@ =~= old(s)@ + dec_spec(n));
}

/// Formats bytes as a list literal, the way `Debug` shows a byte slice:
/// the bytes in decimal, separated by ", ", between square brackets.
pub(crate) fn debug_bytes(data: &[u8]) -> (s: String)
    ensures
        s@ == debug_bytes_spec(data@),
{
    let mut s = String::new();
    s.append("[");
    proof {
        reveal_strlit("[");
        reveal_strlit(", ");
        reveal_strlit("]");
    }
    let mut i: usize = 0;
    while i < data.len()
        invariant
            i <= data@.len(),
            s@ == seq!['['] + dec_list(data@.take(i as int)),
        decreases data@.len() - i,
    {
        proof {
            reveal_strlit(", ");
            lemma_dec_list_push(data@.take(i as int), data@[i as int]);
            assert(data@.take(i + 1) =~= data@.take(i as int).push(data@[i as int]));
        }
        if i > 0 {
            s.append(", ");
        }
        append_dec(&mut s, data[i]);
        i = i + 1;
        assert(s@ =~= seq!['['] + dec_list(data@.take(i as int)));
    }
    s.append("]");
    assert(data@.take(i as int) =~= data@);
    assert(s@ =~= debug_bytes_spec(data@));
    s
}

/// Listing one more byte adds a separator (unless it is the first) and the
/// byte in decimal.
proof fn lemma_dec_list_push(b: Seq<u8>, x: u8)
    ensures
        dec_list(b.push(x)) == (if b.len() == 0 {
            dec_spec(x)
        } else {
            dec_list(b) + seq![',', ' '] + dec_spec(x)
        }),
    decreases b.len(),
{
    if b.len() == 0 {
    } else if b.len() == 1 {
        assert(b.push(x).drop_first() =~= seq![x]);
        assert(dec_list(seq![x]) == dec_spec(x));
    } else {
        lemma_dec_list_push(b.drop_first(), x);
        assert(b.push(x).drop_first() =~= b.drop_first().push(x));
        assert(dec_list(b.push(x)) =~= dec_list(b) + seq![',', ' '] + dec_spec(x));
    }
}

/// The text that bytes hold as UTF-8, or `None` where they are not valid
/// UTF-8.
pub uninterp spec fn utf8_decode(b: Seq<u8>) -> Option<Seq<char>>;

/// Decodes bytes as UTF-8 with `String::from_utf8`. Trusted: the result is
/// the decoding, named `utf8_decode`, or `None` exactly where it fails.
#[verifier::external_body]
fn utf8(data: &[u8]) -> (r: Option<String>)
    ensures
        match r {
            Some(s) => utf8_decode(data@) == Some(s@),
            None => utf8_decode(data@) is None,
        },
{
    String::from_utf8(data.to_vec()).ok()
}

/// Bytes as text where they are valid UTF-8, otherwise as a list.
pub open spec fn text_spec(b: Seq<u8>) -> Seq<char> {
    match utf8_decode(b) {
        Some(s) => s,
        None => debug_bytes_spec(b),
    }
}

fn text(b: &[u8]) -> (s: String)
    ensures
        s@ == text_spec(b@),
{
    match utf8(b) {
        Some(s) => s,
        None => debug_bytes(b),
    }
}

/// How a node reads: its first six hash bytes in hexadecimal, or its key
/// and value as text.
pub open spec fn node_text(n: Node) -> Seq<char> {
    match n {
        Node::Hash(h) => seq!['(', 'h', 'a', 's', 'h', '='] + hex_spec(h@.take(6)) + seq![')'],
        Node::KVHash(h) => seq!['(', 'k', 'v', '_', 'h', 'a', 's', 'h', '='] + hex_spec(h@.take(6)) + seq![')'],
        Node::KV(k, v) => seq!['('] + text_spec(k@) + seq![':', ' '] + text_spec(v@) + seq![')'],
    }
}

/// How an operator reads.
pub open spec fn op_text(op: Op) -> Seq<char> {
    match op {
        Op::Push(n) => seq!['P', 'U', 'S', 'H'] + node_text(n),
        Op::Parent => seq!['P', 'A', 'R', 'E', 'N', 'T'],
        Op::Child => seq!['C', 'H', 'I', 'L', 'D'],
    }
}

/// The operators' texts, separated by a comma and a space.
pub open spec fn ops_text_body(ops: Seq<Op>) -> Seq<char>
    decreases ops.len(),
{
    if ops.len() == 0 {
        Seq::empty()
    } else if ops.len() == 1 {
        op_text(ops[0])
    } else {
        op_text(ops[0]) + seq![',', ' '] + ops_text_body(ops.drop_first())
    }
}

/// How a list of operators reads: their texts in square brackets.
pub open spec fn ops_text(ops: Seq<Op>) -> Seq<char> {
    seq!['['] + ops_text_body(ops) + seq![']']
}

impl Node {
    /// The node as text: its first six hash bytes in hexadecimal, or its key
    /// and value.
    pub fn to_text(&self) -> (s: String)
        ensures
            s@ == node_text(*self),
    {
        let mut s = String::new();
        match self {
            Node::Hash(h) => {
                let (prefix, _) = h.as_slice().split_at(6);
                s.append("(hash=");
                s.append(hex_encode(prefix).as_str());
                s.append(")");
                proof {
                    reveal_strlit("(hash=");
                    reveal_strlit(")");
                }
                assert(s@ =~= node_text(*self));
            },
            Node::KVHash(h) => {
                let (prefix, _) = h.as_slice().split_at(6);
                s.append("(kv_hash=");
                s.append(hex_encode(prefix).as_str());
                s.append(")");
                proof {
                    reveal_strlit("(kv_hash=");
                    reveal_strlit(")");
                }
                assert(s@ =~= node_text(*self));
            },
            Node::KV(k, v) => {
                s.append("(");
                s.append(text(k.as_slice()).as_str());
                s.append(": ");
                s.append(text(v.as_slice()).as_str());
                s.append(")");
                proof {
                    reveal_strlit("(");
                    reveal_strlit(": ");
                    reveal_strlit(")");
                }
                assert(s@ =~= node_text(*self));
            },
        }
        s
    }
}

impl Op {
    /// The operator as text: `PUSH` and its node, `PARENT` or `CHILD`.
    pub fn to_text(&self) -> (s: String)
        ensures
            s@ == op_text(*self),
    {
        let mut s = String::new();
        match self {
            Op::Push(n) => {
                s.append("PUSH");
                s.append(n.to_text().as_str());
                proof {
                    reveal_strlit("PUSH");
                }
            },
            Op::Parent => {
                s.append("PARENT");
                proof {
                    reveal_strlit("PARENT");
                }
            },
            Op::Child => {
                s.append("CHILD");
                proof {
                    reveal_strlit("CHILD");
                }
            },
        }
        assert(s@ =~= op_text(*self));
        s
    }
}

proof fn lemma_ops_text_push(ops: Seq<Op>, op: Op)
    ensures
        ops_text_body(ops.push(op)) == if ops.len() == 0 {
            op_text(op)
        } else {
            ops_text_body(ops) + seq![',', ' '] + op_text(op)
        },
    decreases ops.len(),
{
    reveal_with_fuel(ops_text_body, 2);
    if ops.len() == 0 {
        assert(ops.push(op) =~= seq![op]);
    } else if ops.len() == 1 {
        assert(ops.push(op).drop_first() =~= seq![op]);
        assert(ops.push(op)[0] == ops[0]);
        assert(ops_text_body(seq![op]) == op_text(op));
        assert(ops_text_body(ops) == op_text(ops[0]));
    } else {
        assert(ops.push(op).drop_first() =~= ops.drop_first().push(op));
        assert(ops.push(op)[0] == ops[0]);
        lemma_ops_text_push(ops.drop_first(), op);
        assert(ops_text_body(ops.push(op)) =~= ops_text_body(ops) + seq![',', ' '] + op_text(op));
    }
}

/// A list of operators as text: `[PUSH(a: b), PARENT, ...]`.
pub fn ops_to_text(ops: &[Op]) -> (s: String)
    ensures
        s@ == ops_text(ops@),
{
    let mut body = String::new();
    let mut i: usize = 0;
    while i < ops.len()
        invariant
            0 <= i <= ops@.len(),
            body@ == ops_text_body(ops@.take(i as int)),
        decreases ops@.len() - i,
    {
        proof {
            lemma_ops_text_push(ops@.take(i as int), ops@[i as int]);
            assert(ops@.take(i + 1) =~= ops@.take(i as int).push(ops@[i as int]));
            reveal_strlit(", ");
        }
        if i > 0 {
            body.append(", ");
        }
        body.append(ops[i].to_text().as_str());
        i = i + 1;
    }
    assert(ops@.take(i as int) =~= ops@);
    let mut s = String::new();
    s.append("[");
    s.append(body.as_str());
    s.append("]");
    proof {
        reveal_strlit("[");
        reveal_strlit("]");
    }
    assert(s@ =~= ops_text(ops@));
    s
}

/// The value of a proof operator.
pub enum OpV {
    PushHash(Seq<u8>),
    PushKVHash(Seq<u8>),
    PushKV(Seq<u8>, Seq<u8>),
    Parent,
    Child,
}

impl View for Op {
    type V = OpV;

    open spec fn view(&self) -> OpV {
        match self {
            Op::Push(Node::Hash(h)) => OpV::PushHash(h@),
            Op::Push(Node::KVHash(h)) => OpV::PushKVHash(h@),
            Op::Push(Node::KV(k, v)) => OpV::PushKV(k@, v@),
            Op::Parent => OpV::Parent,
            Op::Child => OpV::Child,
        }
    }
}

/// Where building a proof from the nodes of a range stands: the operators
/// so far, the key of the last subtree completed, and the right children
/// still awaited with the parents they complete.
pub struct CreateState {
    pub ops: Seq<OpV>,
    pub prev: Option<Seq<u8>>,
    pub children: Seq<Seq<u8>>,
    pub parents: Seq<Seq<u8>>,
}

/// After a node with key `key`: while it is the right child awaited last,
/// close that child's parent with a `Child` operator and go on with the
/// parent's key. Returns the operators, the key reached, and the stacks
/// left.
pub open spec fn close_children(
    key: Seq<u8>,
    ops: Seq<OpV>,
    children: Seq<Seq<u8>>,
    parents: Seq<Seq<u8>>,
) -> (Seq<OpV>, Seq<u8>, Seq<Seq<u8>>, Seq<Seq<u8>>)
    decreases children.len(),
{
    if children.len() > 0 && children.last() == key && parents.len() > 0 {
        close_children(parents.last(), ops.push(OpV::Child), children.drop_last(), parents.drop_last())
    } else {
        (ops, key, children, parents)
    }
}

/// One node of the range: push it, close the subtrees it completes, attach
/// the subtree before it as its left child, and await its right child.
/// `None` where the node's left child is not the subtree completed last.
pub open spec fn create_step(st: CreateState, n: crate::node::Node) -> Option<CreateState> {
    let ops1 = st.ops.push(OpV::PushKV(n.key@, n.value@));
    let (ops2, key, children, parents) = close_children(n.key@, ops1, st.children, st.parents);
    match (st.prev, n.left) {
        (Some(p), Some(l)) if l.key@ != p => None,
        _ => {
            let ops3 = if st.prev is Some && n.left is Some {
                ops2.push(OpV::Parent)
            } else {
                ops2
            };
            let (c, ps) = match n.right {
                Some(r) => (children.push(r.key@), parents.push(n.key@)),
                None => (children, parents),
            };
            Some(CreateState { ops: ops3, prev: Some(key), children: c, parents: ps })
        },
    }
}

/// Building a proof from a sequence of nodes.
pub open spec fn create_run(nodes: Seq<crate::node::Node>) -> Option<CreateState>
    decreases nodes.len(),
{
    if nodes.len() == 0 {
        Some(CreateState { ops: Seq::empty(), prev: None, children: Seq::empty(), parents: Seq::empty() })
    } else {
        match create_run(nodes.drop_last()) {
            Some(st) => create_step(st, nodes.last()),
            None => None,
        }
    }
}

proof fn lemma_close_children_len(key: Seq<u8>, ops: Seq<OpV>, children: Seq<Seq<u8>>, parents: Seq<Seq<u8>>)
    requires
        children.len() == parents.len(),
    ensures
        close_children(key, ops, children, parents).2.len() == close_children(key, ops, children, parents).3.len(),
    decreases children.len(),
{
    if children.len() > 0 && children.last() == key && parents.len() > 0 {
        lemma_close_children_len(parents.last(), ops.push(OpV::Child), children.drop_last(), parents.drop_last());
    }
}

/// The value of each operator.
pub open spec fn ops_view(ops: Seq<Op>) -> Seq<OpV> {
    ops.map_values(|op: Op| op@)
}

fn keys_eq(a: &Vec<u8>, b: &Vec<u8>) -> (r: bool)
    ensures
        r == (a@ == b@),
{
    crate::bytes::bytes_eq(a.as_slice(), b.as_slice())
}

/// Builds the proof of a range from its nodes, in key order: each node is
/// pushed with its key and value; a node closes the subtrees whose awaited
/// right child it is, takes the subtree completed before it as its left
/// child, and awaits its own right child. A node's left child must be the
/// subtree completed just before it.
pub fn create(nodes: &[crate::node::Node]) -> (r: Vec<Op>)
    requires
        create_run(nodes@) is Some,
    ensures
        ops_view(r@) == create_run(nodes@)->Some_0.ops,
{
    let mut ops: Vec<Op> = Vec::new();
    let mut prev_key: Option<Vec<u8>> = None;
    let mut child_stack: Vec<Vec<u8>> = Vec::new();
    let mut parent_stack: Vec<Vec<u8>> = Vec::new();
    let mut i: usize = 0;
    assert(nodes@.take(0) =~= Seq::<crate::node::Node>::empty());
    assert(ops_view(ops@) =~= Seq::<OpV>::empty());
    assert(child_stack@.map_values(|k: Vec<u8>| k@) =~= Seq::<Seq<u8>>::empty());
    assert(parent_stack@.map_values(|k: Vec<u8>| k@) =~= Seq::<Seq<u8>>::empty());
    while i < nodes.len()
        invariant
            0 <= i <= nodes@.len(),
            create_run(nodes@) is Some,
            child_stack@.len() == parent_stack@.len(),
            create_run(nodes@.take(i as int)) == Some(
                CreateState {
                    ops: ops_view(ops@),
                    prev: opt_view(prev_key),
                    children: child_stack@.map_values(|k: Vec<u8>| k@),
                    parents: parent_stack@.map_values(|k: Vec<u8>| k@),
                },
            ),
        decreases nodes@.len() - i,
    {
        let node = &nodes[i];
        let ghost st = create_run(nodes@.take(i as int))->Some_0;
        proof {
            assert(nodes@.take(i + 1).drop_last() =~= nodes@.take(i as int));
            assert(nodes@.take(i + 1).last() == nodes@[i as int]);
            assert(create_run(nodes@.take(i + 1)) is Some) by {
                assert(nodes@ =~= nodes@.take(i + 1) + nodes@.skip(i + 1));
                lemma_create_prefix(nodes@, i + 1);
            }
        }
        let ghost old_ops = ops@;
        ops.push(Op::Push(Node::KV(crate::bytes::copy_bytes(node.key.as_slice()), crate::bytes::copy_bytes(node.value.as_slice()))));
        assert(ops_view(ops@) =~= ops_view(old_ops).push(OpV::PushKV(node.key@, node.value@)));
        let mut key = crate::bytes::copy_bytes(node.key.as_slice());
        loop
            invariant
                child_stack@.len() == parent_stack@.len(),
                close_children(node.key@, st.ops.push(OpV::PushKV(node.key@, node.value@)), st.children, st.parents)
                    == close_children(
                    key@,
                    ops_view(ops@),
                    child_stack@.map_values(|k: Vec<u8>| k@),
                    parent_stack@.map_values(|k: Vec<u8>| k@),
                ),
            ensures
                child_stack@.len() == parent_stack@.len(),
                close_children(node.key@, st.ops.push(OpV::PushKV(node.key@, node.value@)), st.children, st.parents)
                    == (
                    ops_view(ops@),
                    key@,
                    child_stack@.map_values(|k: Vec<u8>| k@),
                    parent_stack@.map_values(|k: Vec<u8>| k@),
                ),
            decreases child_stack@.len(),
        {
            let n = child_stack.len();
            if n == 0 {
                break;
            }
            if !keys_eq(&key, &child_stack[n - 1]) {
                assert(child_stack@.map_values(|k: Vec<u8>| k@).last() == child_stack@[n - 1]@);
                break;
            }
            let ghost before_ops = ops@;
            let ghost before_children = child_stack@;
            let ghost before_parents = parent_stack@;
            ops.push(Op::Child);
            child_stack.pop();
            key = parent_stack.pop().unwrap();
            proof {
                assert(ops_view(ops@) =~= ops_view(before_ops).push(OpV::Child));
                assert(child_stack@.map_values(|k: Vec<u8>| k@) =~= before_children.map_values(|k: Vec<u8>| k@).drop_last());
                assert(parent_stack@.map_values(|k: Vec<u8>| k@) =~= before_parents.map_values(|k: Vec<u8>| k@).drop_last());
            }
        }
        proof {
            lemma_close_children_len(node.key@, st.ops.push(OpV::PushKV(node.key@, node.value@)), st.children, st.parents);
        }
        match (&prev_key, &node.left) {
            (Some(p), Some(l)) => {
                // the node's left child is the subtree completed last
                assert(l.key@ == p@);
                let ghost before_ops = ops@;
                ops.push(Op::Parent);
                assert(ops_view(ops@) =~= ops_view(before_ops).push(OpV::Parent));
            },
            _ => {},
        }
        match &node.right {
            Some(r) => {
                let ghost bc = child_stack@;
                let ghost bp = parent_stack@;
                child_stack.push(crate::bytes::copy_bytes(r.key.as_slice()));
                parent_stack.push(crate::bytes::copy_bytes(node.key.as_slice()));
                proof {
                    assert(child_stack@.map_values(|k: Vec<u8>| k@) =~= bc.map_values(|k: Vec<u8>| k@).push(r.key@));
                    assert(parent_stack@.map_values(|k: Vec<u8>| k@) =~= bp.map_values(|k: Vec<u8>| k@).push(node.key@));
                }
            },
            None => {},
        }
        let ghost key_v = key@;
        prev_key = Some(key);
        proof {
            assert(create_run(nodes@.take(i + 1)) == create_step(st, nodes@[i as int]));
            assert(opt_view(prev_key) == Some(key_v));
        }
        i = i + 1;
    }
    assert(nodes@.take(i as int) =~= nodes@);
    ops
}

proof fn lemma_create_prefix(nodes: Seq<crate::node::Node>, n: int)
    requires
        0 <= n <= nodes.len(),
        create_run(nodes) is Some,
    ensures
        create_run(nodes.take(n)) is Some,
    decreases nodes.len() - n,
{
    if n < nodes.len() {
        assert(nodes.take(n + 1).drop_last() =~= nodes.take(n));
        lemma_create_prefix(nodes, n + 1);
    } else {
        assert(nodes.take(n) =~= nodes);
    }
}
} // verus!
