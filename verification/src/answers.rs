//! What a verified proof answers for a queried key: the tree's value where
//! the key is in the tree, and a proven absence where it is not.
use vstd::prelude::*;

use crate::bytes::{lemma_lex_order, lex_le, lex_lt, Order};
use crate::proofs::query::{
    covered, item_contains, item_order, item_wf, items_wf, key_item_v, lemma_less_trans, lemma_order_flip,
    sorted_items, QueryItemV,
};
use crate::error::Fault;
use crate::proofs::query::map::{first_ge, keys_increasing, map_get_spec, MapV};
use crate::proofs::query::{lemma_verify_run_prefix_err, lemma_verify_run_push, verify_init, verify_run, VerifyState};
use crate::proofs::query::{
    query_init, query_kv_loop, query_run, query_step, query_visit, verify_query_spec, CursorV, QueryState,
};
use crate::proofs::{NodeV, OpV};
use crate::proofs::encoding::{lemma_decode_stream_ops_bytes, ops_bytes};
use crate::proofs::query::verify_spec;
use crate::proofs::tree::{exec_op, run_ops};
use crate::proofs::verify::{
    keys_init, keys_kv_loop, keys_run, keys_step, keys_view, keys_visit, verify_keys_spec, KeysCursorV, KeysState,
};
use crate::tree::{
    child_proof_spec, consistent, has_key, join_proof, lemma_proof_encodable, lemma_proof_verifies, lens_ok,
    keys_items, node_op, ordered, proof_spec, provable, search_spec, split_query, tree_hash, LinkS, TreeS,
};

verus! {

/// Where a sorted query stands against the key item of `key`: every item
/// before the search result lies below the key, the item found collides
/// with it, and every later item lies above it.
proof fn lemma_search_props(q: Seq<QueryItemV>, key: Seq<u8>)
    requires
        sorted_items(q),
        items_wf(q),
    ensures
        match search_spec(q, key) {
            Ok(j) => {
                &&& 0 <= j < q.len()
                &&& item_order(q[j], key_item_v(key)) == Order::Equal
                &&& forall|x: int| 0 <= x < j ==> item_order(#[trigger] q[x], key_item_v(key)) == Order::Less
                &&& forall|x: int| j < x < q.len() ==> item_order(#[trigger] q[x], key_item_v(key)) == Order::Greater
            },
            Err(j) => {
                &&& 0 <= j <= q.len()
                &&& forall|x: int| 0 <= x < j ==> item_order(#[trigger] q[x], key_item_v(key)) == Order::Less
                &&& forall|x: int| j <= x < q.len() ==> item_order(#[trigger] q[x], key_item_v(key)) == Order::Greater
            },
        },
    decreases q.len(),
{
    lemma_lex_order();
    let kv = key_item_v(key);
    assert(item_wf(kv));
    if q.len() > 0 {
        let rest = q.drop_first();
        assert(sorted_items(rest)) by {
            assert forall|i: int, j: int| 0 <= i < j < rest.len() implies item_order(#[trigger] rest[i], #[trigger] rest[j]) == Order::Less by {
                assert(rest[i] == q[i + 1] && rest[j] == q[j + 1]);
            }
        }
        assert(items_wf(rest)) by {
            assert forall|i: int| 0 <= i < rest.len() implies item_wf(#[trigger] rest[i]) by {
                assert(rest[i] == q[i + 1]);
            }
        }
        lemma_search_props(rest, key);
        assert(item_wf(q[0]));
        match item_order(q[0], kv) {
            Order::Less => {
                assert forall|x: int| 0 < x < q.len() implies q[x] == rest[x - 1] by {}
            },
            Order::Equal => {
                assert forall|x: int| 0 < x < q.len() implies item_order(#[trigger] q[x], kv) == Order::Greater by {
                    assert(item_order(q[0], q[x]) == Order::Less);
                    assert(item_wf(q[x]));
                    lemma_order_flip(q[x], kv);
                    lemma_order_flip(q[0], kv);
                    if item_order(q[x], kv) == Order::Less {
                        lemma_less_trans(q[0], q[x], kv);
                    } else if item_order(q[x], kv) == Order::Equal {
                        // q[0] collides with the key item and lies before q[x]
                        assert(item_order(kv, q[x]) == Order::Equal);
                    }
                }
            },
            Order::Greater => {
                assert forall|x: int| 0 < x < q.len() implies item_order(#[trigger] q[x], kv) == Order::Greater by {
                    assert(item_order(q[0], q[x]) == Order::Less);
                    assert(item_wf(q[x]));
                    lemma_order_flip(q[x], kv);
                    lemma_order_flip(q[0], kv);
                    if item_order(q[x], kv) == Order::Less {
                        lemma_less_trans(q[0], q[x], kv);
                    } else if item_order(q[x], kv) == Order::Equal {
                        assert(item_order(kv, q[x]) == Order::Equal);
                    }
                }
            },
        }
    }
}


proof fn lemma_sub_sorted(q: Seq<QueryItemV>, a: int, b: int)
    requires
        sorted_items(q),
        items_wf(q),
        0 <= a <= b <= q.len(),
    ensures
        sorted_items(q.subrange(a, b)),
        items_wf(q.subrange(a, b)),
        forall|k: Seq<u8>| covered(q.subrange(a, b), k) ==> covered(q, k),
{
    let s = q.subrange(a, b);
    assert forall|i: int, j: int| 0 <= i < j < s.len() implies item_order(#[trigger] s[i], #[trigger] s[j]) == Order::Less by {
        assert(s[i] == q[a + i] && s[j] == q[a + j]);
    }
    assert forall|i: int| 0 <= i < s.len() implies item_wf(#[trigger] s[i]) by {
        assert(s[i] == q[a + i]);
    }
    assert forall|k: Seq<u8>| covered(s, k) implies covered(q, k) by {
        let i = choose|i: int| 0 <= i < s.len() && item_contains(#[trigger] s[i], k);
        assert(s[i] == q[a + i]);
    }
}

proof fn lemma_item_vs_key(item: QueryItemV, key: Seq<u8>, k: Seq<u8>)
    requires
        item_wf(item),
    ensures
        item_order(item, key_item_v(key)) == Order::Equal <==> item_contains(item, key),
        item_contains(item, k) && lex_lt(k, key) ==> item_order(item, key_item_v(key)) != Order::Greater,
        item_contains(item, k) && lex_lt(k, key) && item_order(item, key_item_v(key)) == Order::Equal ==> lex_lt(
            item.lower,
            key,
        ),
        item_contains(item, k) && lex_lt(key, k) ==> item_order(item, key_item_v(key)) != Order::Less,
        item_contains(item, k) && lex_lt(key, k) && item_order(item, key_item_v(key)) == Order::Equal ==> lex_lt(
            key,
            item.upper,
        ),
{
    lemma_lex_order();
}

/// Where `split_query` cuts: the left part ends at `le`, the right part
/// starts at `rs`; every item covering a key below the node's key comes
/// before `le`, every one covering a key above it at `rs` or later.
proof fn lemma_split_bounds(q: Seq<QueryItemV>, key: Seq<u8>) -> (r: (int, int))
    requires
        sorted_items(q),
        items_wf(q),
    ensures
        0 <= r.0 <= q.len(),
        0 <= r.1 <= q.len(),
        split_query(q, key) == (q.subrange(0, r.0), q.subrange(r.1, q.len() as int)),
        forall|i: int, k: Seq<u8>|
            0 <= i < q.len() && #[trigger] item_contains(q[i], k) && lex_lt(k, key) ==> i < r.0,
        forall|i: int, k: Seq<u8>|
            0 <= i < q.len() && #[trigger] item_contains(q[i], k) && lex_lt(key, k) ==> i >= r.1,
{
    lemma_search_props(q, key);
    let r = match search_spec(q, key) {
        Ok(j) => (
            if lex_lt(q[j].lower, key) { j + 1 } else { j },
            if lex_lt(key, q[j].upper) { j } else { j + 1 },
        ),
        Err(j) => (j, j),
    };
    assert forall|i: int, k: Seq<u8>|
        0 <= i < q.len() && #[trigger] item_contains(q[i], k) && lex_lt(k, key) implies i < r.0 by {
        lemma_item_vs_key(q[i], key, k);
    }
    assert forall|i: int, k: Seq<u8>|
        0 <= i < q.len() && #[trigger] item_contains(q[i], k) && lex_lt(key, k) implies i >= r.1 by {
        lemma_item_vs_key(q[i], key, k);
    }
    r
}

proof fn lemma_key_covered(q: Seq<QueryItemV>, key: Seq<u8>)
    requires
        sorted_items(q),
        items_wf(q),
    ensures
        covered(q, key) <==> search_spec(q, key) is Ok,
{
    lemma_search_props(q, key);
    if covered(q, key) {
        let i = choose|i: int| 0 <= i < q.len() && item_contains(#[trigger] q[i], key);
        lemma_item_vs_key(q[i], key, key);
    }
    if let Ok(j) = search_spec(q, key) {
        lemma_item_vs_key(q[j], key, key);
    }
}

/// Splitting a sorted query at a node's key: the parts are sorted, cover
/// only keys the query covers, and every covered key below the node's key
/// is covered by the left part, every one above by the right part. The
/// node's key is covered exactly when an item collides with its key item.
pub proof fn lemma_split_query(q: Seq<QueryItemV>, key: Seq<u8>)
    requires
        sorted_items(q),
        items_wf(q),
    ensures
        sorted_items(split_query(q, key).0),
        items_wf(split_query(q, key).0),
        sorted_items(split_query(q, key).1),
        items_wf(split_query(q, key).1),
        forall|k: Seq<u8>| covered(split_query(q, key).0, k) ==> covered(q, k),
        forall|k: Seq<u8>| covered(split_query(q, key).1, k) ==> covered(q, k),
        forall|k: Seq<u8>| covered(q, k) && lex_lt(k, key) ==> covered(split_query(q, key).0, k),
        forall|k: Seq<u8>| covered(q, k) && lex_lt(key, k) ==> covered(split_query(q, key).1, k),
        covered(q, key) <==> search_spec(q, key) is Ok,
{
    let (le, rs) = lemma_split_bounds(q, key);
    let (lq, rq) = split_query(q, key);
    lemma_sub_sorted(q, 0, le);
    lemma_sub_sorted(q, rs, q.len() as int);
    assert forall|k: Seq<u8>| covered(q, k) && lex_lt(k, key) implies covered(lq, k) by {
        let i = choose|i: int| 0 <= i < q.len() && item_contains(#[trigger] q[i], k);
        assert(lq[i] == q[i]);
    }
    assert forall|k: Seq<u8>| covered(q, k) && lex_lt(key, k) implies covered(rq, k) by {
        let i = choose|i: int| 0 <= i < q.len() && item_contains(#[trigger] q[i], k);
        assert(rq[i - rs] == q[i]);
    }
    lemma_key_covered(q, key);
}


/// The value under `k` in the tree, if the key is there.
pub open spec fn tree_get(t: TreeS, k: Seq<u8>) -> Option<Seq<u8>>
    decreases t,
{
    if t.key == k {
        Some(t.value)
    } else {
        match t.left {
            Some(l) if has_key(*l.tree, k) => tree_get(*l.tree, k),
            _ => match t.right {
                Some(r) => tree_get(*r.tree, k),
                None => None,
            },
        }
    }
}

/// The smallest key of the tree.
pub open spec fn min_key(t: TreeS) -> Seq<u8>
    decreases t,
{
    match t.left {
        Some(l) => min_key(*l.tree),
        None => t.key,
    }
}

/// The largest key of the tree.
pub open spec fn max_key(t: TreeS) -> Seq<u8>
    decreases t,
{
    match t.right {
        Some(r) => max_key(*r.tree),
        None => t.key,
    }
}

proof fn lemma_get_has(t: TreeS, k: Seq<u8>)
    ensures
        tree_get(t, k) is Some <==> has_key(t, k),
    decreases t,
{
    if let Some(l) = t.left {
        lemma_get_has(*l.tree, k);
    }
    if let Some(r) = t.right {
        lemma_get_has(*r.tree, k);
    }
}

proof fn lemma_min_max(t: TreeS)
    requires
        ordered(t),
    ensures
        has_key(t, min_key(t)),
        has_key(t, max_key(t)),
        forall|k: Seq<u8>| has_key(t, k) ==> lex_le(min_key(t), k) && lex_le(k, max_key(t)),
    decreases t,
{
    lemma_lex_order();
    if let Some(l) = t.left {
        lemma_min_max(*l.tree);
    }
    if let Some(r) = t.right {
        lemma_min_max(*r.tree);
    }
    // the node's key lies between the two extremes
    assert(lex_le(min_key(t), t.key) && lex_le(t.key, max_key(t))) by {
        if let Some(l) = t.left {
            assert(has_key(*l.tree, min_key(*l.tree)));
        }
        if let Some(r) = t.right {
            assert(has_key(*r.tree, max_key(*r.tree)));
        }
    }
    assert forall|k: Seq<u8>| has_key(t, k) implies lex_le(min_key(t), k) && lex_le(k, max_key(t)) by {
        lemma_lex_order();
        if k != t.key {
            if t.left matches Some(l) && has_key(*l.tree, k) {
                assert(lex_lt(k, t.key));
            } else {
                let r = t.right->Some_0;
                assert(has_key(*r.tree, k));
                assert(lex_lt(t.key, k));
            }
        }
    }
}

/// The nodes a sequence of operators pushes, in order.
pub open spec fn pushes(ops: Seq<OpV>) -> Seq<NodeV>
    decreases ops.len(),
{
    if ops.len() == 0 {
        Seq::empty()
    } else {
        match ops[0] {
            OpV::Push(n) => seq![n] + pushes(ops.drop_first()),
            _ => pushes(ops.drop_first()),
        }
    }
}

proof fn lemma_pushes_concat(a: Seq<OpV>, b: Seq<OpV>)
    ensures
        pushes(a + b) == pushes(a) + pushes(b),
    decreases a.len(),
{
    if a.len() == 0 {
        assert(a + b =~= b);
        assert(pushes(a) + pushes(b) =~= pushes(b));
    } else {
        assert((a + b).drop_first() =~= a.drop_first() + b);
        assert((a + b)[0] == a[0]);
        lemma_pushes_concat(a.drop_first(), b);
        match a[0] {
            OpV::Push(n) => {
                assert(seq![n] + (pushes(a.drop_first()) + pushes(b)) =~= (seq![n] + pushes(a.drop_first()))
                    + pushes(b));
            },
            _ => {},
        }
    }
}

proof fn lemma_pushes_join(lp: Seq<OpV>, n: NodeV, rp: Seq<OpV>)
    ensures
        pushes(join_proof(lp, OpV::Push(n), rp)) == pushes(lp) + seq![n] + pushes(rp),
{
    reveal_with_fuel(pushes, 3);
    let node = OpV::Push(n);
    let with_left = if lp.len() > 0 {
        lp.push(node).push(OpV::Parent)
    } else {
        seq![node]
    };
    assert(pushes(seq![node]) =~= seq![n]) by {
        assert(seq![node].drop_first() =~= Seq::<OpV>::empty());
    }
    assert(pushes(seq![node, OpV::Parent]) =~= seq![n]) by {
        assert(seq![node, OpV::Parent].drop_first() =~= seq![OpV::Parent]);
        assert(seq![OpV::Parent].drop_first() =~= Seq::<OpV>::empty());
    }
    assert(pushes(seq![OpV::Child]) =~= Seq::<NodeV>::empty()) by {
        assert(seq![OpV::Child].drop_first() =~= Seq::<OpV>::empty());
    }
    assert(pushes(with_left) =~= pushes(lp) + seq![n]) by {
        if lp.len() > 0 {
            assert(with_left =~= lp + seq![node, OpV::Parent]);
            lemma_pushes_concat(lp, seq![node, OpV::Parent]);
        } else {
            assert(pushes(lp) =~= Seq::<NodeV>::empty());
        }
    }
    if rp.len() > 0 {
        assert(join_proof(lp, node, rp) =~= with_left + (rp + seq![OpV::Child]));
        lemma_pushes_concat(with_left, rp + seq![OpV::Child]);
        lemma_pushes_concat(rp, seq![OpV::Child]);
        assert(pushes(rp + seq![OpV::Child]) =~= pushes(rp));
    } else {
        assert(pushes(rp) =~= Seq::<NodeV>::empty()) by {
            assert(rp =~= Seq::<OpV>::empty());
        }
    }
    assert(pushes(join_proof(lp, node, rp)) =~= pushes(lp) + seq![n] + pushes(rp));
}

/// The key and value of a pushed `KV` node.
pub open spec fn kv_of(n: NodeV) -> Option<(Seq<u8>, Seq<u8>)> {
    match n {
        NodeV::KV(k, v) => Some((k, v)),
        _ => None,
    }
}

/// Every key/value pair pushed is the tree's.
pub open spec fn kv_sound(t: TreeS, ns: Seq<NodeV>) -> bool {
    forall|i: int| 0 <= i < ns.len() ==> (#[trigger] kv_of(ns[i]) matches Some(p) ==> tree_get(t, p.0) == Some(p.1))
}

/// Whether the pair is pushed.
pub open spec fn shows(ns: Seq<NodeV>, k: Seq<u8>, v: Seq<u8>) -> bool {
    exists|i: int| 0 <= i < ns.len() && #[trigger] ns[i] == NodeV::KV(k, v)
}

/// Every queried key of the tree is pushed with its value.
pub open spec fn present(q: Seq<QueryItemV>, t: TreeS, ns: Seq<NodeV>) -> bool {
    forall|k: Seq<u8>| covered(q, k) && has_key(t, k) ==> shows(ns, k, tree_get(t, k)->Some_0)
}

/// Whether two `KV` pushes next to each other, at `p - 1` and `p`, enclose
/// `k`.
pub open spec fn gap_at(ns: Seq<NodeV>, k: Seq<u8>, p: int) -> bool {
    &&& 1 <= p < ns.len()
    &&& kv_of(ns[p - 1]) matches Some(a) && lex_lt(a.0, k)
    &&& kv_of(ns[p]) matches Some(b) && lex_lt(k, b.0)
}

/// Whether the pushes prove `k` absent between two neighbouring pairs.
pub open spec fn gap(ns: Seq<NodeV>, k: Seq<u8>) -> bool {
    exists|p: int| #[trigger] gap_at(ns, k, p)
}

/// Every queried key missing from the tree, inside its range of keys, is
/// proven absent.
pub open spec fn inner_absent(q: Seq<QueryItemV>, t: TreeS, ns: Seq<NodeV>) -> bool {
    forall|k: Seq<u8>|
        covered(q, k) && !has_key(t, k) && lex_lt(min_key(t), k) && lex_lt(k, max_key(t)) ==> gap(ns, k)
}

/// Where the query reaches below the tree's smallest key, the proof says so
/// and starts with the smallest pair.
pub open spec fn left_edge_ok(q: Seq<QueryItemV>, t: TreeS, ns: Seq<NodeV>, flag: bool) -> bool {
    (exists|k: Seq<u8>| covered(q, k) && lex_lt(k, min_key(t))) ==> {
        &&& flag
        &&& ns.len() > 0
        &&& ns[0] == NodeV::KV(min_key(t), tree_get(t, min_key(t))->Some_0)
    }
}

/// Where the query reaches above the tree's largest key, the proof says so
/// and ends with the largest pair.
pub open spec fn right_edge_ok(q: Seq<QueryItemV>, t: TreeS, ns: Seq<NodeV>, flag: bool) -> bool {
    (exists|k: Seq<u8>| covered(q, k) && lex_lt(max_key(t), k)) ==> {
        &&& flag
        &&& ns.len() > 0
        &&& ns.last() == NodeV::KV(max_key(t), tree_get(t, max_key(t))->Some_0)
    }
}

/// What the proof of a tree answers for a query.
pub open spec fn answers_ok(t: TreeS, q: Seq<QueryItemV>) -> bool {
    let ns = pushes(proof_spec(t, q).0);
    let fl = proof_spec(t, q).1;
    &&& kv_sound(t, ns)
    &&& present(q, t, ns)
    &&& inner_absent(q, t, ns)
    &&& left_edge_ok(q, t, ns, fl.0)
    &&& right_edge_ok(q, t, ns, fl.1)
}

/// `answers_ok` for the subtree on one side, where the query there is not
/// empty.
pub open spec fn child_ok(l: Option<LinkS>, q: Seq<QueryItemV>) -> bool {
    match l {
        Some(x) => q.len() > 0 ==> answers_ok(*x.tree, q),
        None => true,
    }
}

proof fn lemma_child_pushes(l: Option<LinkS>, q: Seq<QueryItemV>)
    ensures
        q.len() == 0 ==> forall|i: int|
            0 <= i < pushes(child_proof_spec(l, q).0).len() ==> #[trigger] kv_of(
                pushes(child_proof_spec(l, q).0)[i],
            ) is None,
        q.len() == 0 ==> child_proof_spec(l, q).1 == (false, false),
        l is None ==> pushes(child_proof_spec(l, q).0) == Seq::<NodeV>::empty(),
        l is None && q.len() > 0 ==> child_proof_spec(l, q).1 == (true, true),
        q.len() > 0 ==> (l matches Some(x) ==> child_proof_spec(l, q) == proof_spec(*x.tree, q)),
{
    reveal_with_fuel(pushes, 2);
    if q.len() == 0 {
        if let Some(x) = l {
            let ops = seq![OpV::Push(NodeV::Hash(x.hash))];
            assert(ops.drop_first() =~= Seq::<OpV>::empty());
            assert(pushes(ops) =~= seq![NodeV::Hash(x.hash)]);
        }
    }
}

/// The pushes of a node's proof: those of its left part, its own, and
/// those of its right part.
proof fn lemma_node_pushes(t: TreeS, q: Seq<QueryItemV>)
    ensures
        node_op(t, q) is Push,
        pushes(proof_spec(t, q).0) == pushes(child_proof_spec(t.left, split_query(q, t.key).0).0) + seq![
            node_op(t, q)->Push_0,
        ] + pushes(child_proof_spec(t.right, split_query(q, t.key).1).0),
        proof_spec(t, q).1 == (
            child_proof_spec(t.left, split_query(q, t.key).0).1.0,
            child_proof_spec(t.right, split_query(q, t.key).1).1.1,
        ),
        (search_spec(q, t.key) is Ok || child_proof_spec(t.left, split_query(q, t.key).0).1.1
            || child_proof_spec(t.right, split_query(q, t.key).1).1.0) ==> node_op(t, q)->Push_0
            == NodeV::KV(t.key, t.value),
        kv_of(node_op(t, q)->Push_0) matches Some(p) ==> p == (t.key, t.value),
{
    let (lq, rq) = split_query(q, t.key);
    lemma_pushes_join(child_proof_spec(t.left, lq).0, node_op(t, q)->Push_0, child_proof_spec(t.right, rq).0);
}

proof fn lemma_key_sides(t: TreeS, k: Seq<u8>)
    requires
        ordered(t),
    ensures
        t.left matches Some(l) ==> has_key(*l.tree, k) ==> lex_lt(k, t.key) && tree_get(t, k) == tree_get(
            *l.tree,
            k,
        ),
        t.right matches Some(r) ==> has_key(*r.tree, k) ==> lex_lt(t.key, k) && tree_get(t, k) == tree_get(
            *r.tree,
            k,
        ),
        has_key(t, k) ==> k == t.key || (t.left matches Some(l) && has_key(*l.tree, k)) || (t.right matches Some(
            r,
        ) && has_key(*r.tree, k)),
        tree_get(t, t.key) == Some(t.value),
{
    lemma_lex_order();
    if let Some(r) = t.right {
        if has_key(*r.tree, k) {
            if let Some(l) = t.left {
                if has_key(*l.tree, k) {
                    assert(lex_lt(k, t.key));
                }
            }
        }
    }
}

proof fn lemma_step_sound(t: TreeS, q: Seq<QueryItemV>)
    requires
        ordered(t),
        child_ok(t.left, split_query(q, t.key).0),
        child_ok(t.right, split_query(q, t.key).1),
    ensures
        kv_sound(t, pushes(proof_spec(t, q).0)),
{
    let (lq, rq) = split_query(q, t.key);
    lemma_node_pushes(t, q);
    lemma_child_pushes(t.left, lq);
    lemma_child_pushes(t.right, rq);
    let lpush = pushes(child_proof_spec(t.left, lq).0);
    let rpush = pushes(child_proof_spec(t.right, rq).0);
    let nd = node_op(t, q)->Push_0;
    let ns = pushes(proof_spec(t, q).0);
    assert forall|i: int| 0 <= i < ns.len() implies (#[trigger] kv_of(ns[i]) matches Some(p) ==> tree_get(t, p.0)
        == Some(p.1)) by {
        if let Some(p) = kv_of(ns[i]) {
            lemma_key_sides(t, p.0);
            if i < lpush.len() {
                assert(ns[i] == lpush[i]);
                let l = t.left->Some_0;
                assert(kv_of(lpush[i]) is Some);
                assert(lq.len() > 0);
                assert(tree_get(*l.tree, p.0) == Some(p.1));
                lemma_get_has(*l.tree, p.0);
            } else if i == lpush.len() {
                assert(ns[i] == nd);
            } else {
                assert(ns[i] == rpush[i - lpush.len() - 1]);
                let r = t.right->Some_0;
                assert(kv_of(rpush[i - lpush.len() - 1]) is Some);
                assert(rq.len() > 0);
                assert(tree_get(*r.tree, p.0) == Some(p.1));
                lemma_get_has(*r.tree, p.0);
            }
        }
    }
}

proof fn lemma_covered_nonempty(q: Seq<QueryItemV>, k: Seq<u8>)
    requires
        covered(q, k),
    ensures
        q.len() > 0,
{
}

proof fn lemma_step_present(t: TreeS, q: Seq<QueryItemV>)
    requires
        ordered(t),
        sorted_items(q),
        items_wf(q),
        child_ok(t.left, split_query(q, t.key).0),
        child_ok(t.right, split_query(q, t.key).1),
    ensures
        present(q, t, pushes(proof_spec(t, q).0)),
{
    let (lq, rq) = split_query(q, t.key);
    lemma_node_pushes(t, q);
    lemma_child_pushes(t.left, lq);
    lemma_child_pushes(t.right, rq);
    lemma_split_query(q, t.key);
    let lpush = pushes(child_proof_spec(t.left, lq).0);
    let rpush = pushes(child_proof_spec(t.right, rq).0);
    let ns = pushes(proof_spec(t, q).0);
    assert forall|k: Seq<u8>| covered(q, k) && has_key(t, k) implies shows(ns, k, tree_get(t, k)->Some_0) by {
        lemma_key_sides(t, k);
        if k == t.key {
            assert(ns[lpush.len() as int] == NodeV::KV(t.key, t.value));
        } else if t.left is Some && has_key(*t.left->Some_0.tree, k) {
            let l = t.left->Some_0;
            assert(covered(lq, k));
            lemma_covered_nonempty(lq, k);
            assert(shows(lpush, k, tree_get(*l.tree, k)->Some_0));
            let i = choose|i: int| 0 <= i < lpush.len() && #[trigger] lpush[i] == NodeV::KV(k, tree_get(*l.tree, k)->Some_0);
            assert(ns[i] == lpush[i]);
        } else {
            let r = t.right->Some_0;
            assert(covered(rq, k));
            lemma_covered_nonempty(rq, k);
            assert(shows(rpush, k, tree_get(*r.tree, k)->Some_0));
            let i = choose|i: int| 0 <= i < rpush.len() && #[trigger] rpush[i] == NodeV::KV(k, tree_get(*r.tree, k)->Some_0);
            assert(ns[lpush.len() + 1 + i] == rpush[i]);
        }
    }
}

proof fn lemma_step_left_edge(t: TreeS, q: Seq<QueryItemV>)
    requires
        ordered(t),
        sorted_items(q),
        items_wf(q),
        child_ok(t.left, split_query(q, t.key).0),
        child_ok(t.right, split_query(q, t.key).1),
    ensures
        left_edge_ok(q, t, pushes(proof_spec(t, q).0), proof_spec(t, q).1.0),
{
    let (lq, rq) = split_query(q, t.key);
    lemma_node_pushes(t, q);
    lemma_child_pushes(t.left, lq);
    lemma_child_pushes(t.right, rq);
    lemma_split_query(q, t.key);
    lemma_min_max(t);
    let lpush = pushes(child_proof_spec(t.left, lq).0);
    let ns = pushes(proof_spec(t, q).0);
    if exists|k: Seq<u8>| covered(q, k) && lex_lt(k, min_key(t)) {
        let k = choose|k: Seq<u8>| covered(q, k) && lex_lt(k, min_key(t));
        assert(has_key(t, t.key));
        assert(lex_le(min_key(t), t.key));
        assert(lex_lt(k, t.key)) by {
            lemma_lex_order();
        }
        assert(covered(lq, k));
        lemma_covered_nonempty(lq, k);
        match t.left {
            Some(l) => {
                assert(min_key(t) == min_key(*l.tree));
                assert(exists|k: Seq<u8>| covered(lq, k) && lex_lt(k, min_key(*l.tree)));
                lemma_min_max(*l.tree);
                lemma_key_sides(t, min_key(t));
                assert(ns[0] == lpush[0]);
            },
            None => {
                assert(ns[0] == node_op(t, q)->Push_0);
                lemma_key_sides(t, t.key);
            },
        }
    }
}

proof fn lemma_step_right_edge(t: TreeS, q: Seq<QueryItemV>)
    requires
        ordered(t),
        sorted_items(q),
        items_wf(q),
        child_ok(t.left, split_query(q, t.key).0),
        child_ok(t.right, split_query(q, t.key).1),
    ensures
        right_edge_ok(q, t, pushes(proof_spec(t, q).0), proof_spec(t, q).1.1),
{
    let (lq, rq) = split_query(q, t.key);
    lemma_node_pushes(t, q);
    lemma_child_pushes(t.left, lq);
    lemma_child_pushes(t.right, rq);
    lemma_split_query(q, t.key);
    lemma_min_max(t);
    let rpush = pushes(child_proof_spec(t.right, rq).0);
    let ns = pushes(proof_spec(t, q).0);
    if exists|k: Seq<u8>| covered(q, k) && lex_lt(max_key(t), k) {
        let k = choose|k: Seq<u8>| covered(q, k) && lex_lt(max_key(t), k);
        assert(has_key(t, t.key));
        assert(lex_le(t.key, max_key(t)));
        assert(lex_lt(t.key, k)) by {
            lemma_lex_order();
        }
        assert(covered(rq, k));
        lemma_covered_nonempty(rq, k);
        match t.right {
            Some(r) => {
                assert(max_key(t) == max_key(*r.tree));
                assert(exists|k: Seq<u8>| covered(rq, k) && lex_lt(max_key(*r.tree), k));
                lemma_min_max(*r.tree);
                lemma_key_sides(t, max_key(t));
                assert(ns.last() == rpush.last());
            },
            None => {
                assert(ns.last() == node_op(t, q)->Push_0);
                lemma_key_sides(t, t.key);
            },
        }
    }
}

proof fn lemma_inner_left(t: TreeS, q: Seq<QueryItemV>, k: Seq<u8>)
    requires
        ordered(t),
        sorted_items(q),
        items_wf(q),
        child_ok(t.left, split_query(q, t.key).0),
        covered(q, k),
        !has_key(t, k),
        lex_lt(min_key(t), k),
        lex_lt(k, t.key),
    ensures
        gap(pushes(proof_spec(t, q).0), k),
{
    let (lq, rq) = split_query(q, t.key);
    lemma_node_pushes(t, q);
    lemma_child_pushes(t.left, lq);
    lemma_split_query(q, t.key);
    let lpush = pushes(child_proof_spec(t.left, lq).0);
    let ns = pushes(proof_spec(t, q).0);
    assert(t.left is Some) by {
        if t.left is None {
            assert(min_key(t) == t.key);
            lemma_lex_order();
        }
    }
    let l = t.left->Some_0;
    assert(min_key(t) == min_key(*l.tree));
    assert(covered(lq, k));
    lemma_covered_nonempty(lq, k);
    assert(answers_ok(*l.tree, lq));
    lemma_min_max(*l.tree);
    assert(!has_key(*l.tree, k));
    assert(k != max_key(*l.tree));
    if lex_lt(k, max_key(*l.tree)) {
        assert(gap(lpush, k));
        let p = choose|p: int| #[trigger] gap_at(lpush, k, p);
        assert(ns[p - 1] == lpush[p - 1] && ns[p] == lpush[p]);
        assert(gap_at(ns, k, p));
    } else {
        assert(lex_lt(max_key(*l.tree), k)) by {
            lemma_lex_order();
        }
        assert(exists|k2: Seq<u8>| covered(lq, k2) && lex_lt(max_key(*l.tree), k2));
        let p = lpush.len() as int;
        assert(ns[p - 1] == lpush.last());
        assert(ns[p] == NodeV::KV(t.key, t.value));
        assert(gap_at(ns, k, p));
    }
}

proof fn lemma_inner_right(t: TreeS, q: Seq<QueryItemV>, k: Seq<u8>)
    requires
        ordered(t),
        sorted_items(q),
        items_wf(q),
        child_ok(t.right, split_query(q, t.key).1),
        covered(q, k),
        !has_key(t, k),
        lex_lt(k, max_key(t)),
        lex_lt(t.key, k),
    ensures
        gap(pushes(proof_spec(t, q).0), k),
{
    let (lq, rq) = split_query(q, t.key);
    lemma_node_pushes(t, q);
    lemma_child_pushes(t.right, rq);
    lemma_split_query(q, t.key);
    let lpush = pushes(child_proof_spec(t.left, lq).0);
    let rpush = pushes(child_proof_spec(t.right, rq).0);
    let ns = pushes(proof_spec(t, q).0);
    assert(t.right is Some) by {
        if t.right is None {
            assert(max_key(t) == t.key);
            lemma_lex_order();
        }
    }
    let r = t.right->Some_0;
    assert(max_key(t) == max_key(*r.tree));
    assert(covered(rq, k));
    lemma_covered_nonempty(rq, k);
    assert(answers_ok(*r.tree, rq));
    lemma_min_max(*r.tree);
    assert(!has_key(*r.tree, k));
    assert(k != min_key(*r.tree));
    let base: int = lpush.len() as int + 1;
    if lex_lt(min_key(*r.tree), k) {
        assert(gap(rpush, k));
        let p = choose|p: int| #[trigger] gap_at(rpush, k, p);
        assert(ns[base + p - 1] == rpush[p - 1] && ns[base + p] == rpush[p]);
        assert(gap_at(ns, k, base + p));
    } else {
        assert(lex_lt(k, min_key(*r.tree))) by {
            lemma_lex_order();
        }
        assert(exists|k2: Seq<u8>| covered(rq, k2) && lex_lt(k2, min_key(*r.tree)));
        assert(ns[base - 1] == NodeV::KV(t.key, t.value));
        assert(ns[base] == rpush[0]);
        assert(gap_at(ns, k, base));
    }
}

proof fn lemma_step_inner(t: TreeS, q: Seq<QueryItemV>)
    requires
        ordered(t),
        sorted_items(q),
        items_wf(q),
        child_ok(t.left, split_query(q, t.key).0),
        child_ok(t.right, split_query(q, t.key).1),
    ensures
        inner_absent(q, t, pushes(proof_spec(t, q).0)),
{
    assert forall|k: Seq<u8>|
        covered(q, k) && !has_key(t, k) && lex_lt(min_key(t), k) && lex_lt(k, max_key(t)) implies gap(
        pushes(proof_spec(t, q).0),
        k,
    ) by {
        assert(k != t.key);
        if lex_lt(k, t.key) {
            lemma_inner_left(t, q, k);
        } else {
            assert(lex_lt(t.key, k)) by {
                lemma_lex_order();
            }
            lemma_inner_right(t, q, k);
        }
    }
}

/// What the proof of a tree answers for a sorted query: the pairs pushed are
/// the tree's; every queried key of the tree is pushed; a queried key that
/// is missing is enclosed by neighbouring pairs, or lies beyond an edge that
/// the proof reaches with the tree's smallest or largest pair.
pub proof fn lemma_answers(t: TreeS, q: Seq<QueryItemV>)
    requires
        ordered(t),
        sorted_items(q),
        items_wf(q),
    ensures
        answers_ok(t, q),
    decreases t,
{
    let (lq, rq) = split_query(q, t.key);
    lemma_split_query(q, t.key);
    if let Some(l) = t.left {
        if lq.len() > 0 {
            lemma_answers(*l.tree, lq);
        }
    }
    if let Some(r) = t.right {
        if rq.len() > 0 {
            lemma_answers(*r.tree, rq);
        }
    }
    lemma_step_sound(t, q);
    lemma_step_present(t, q);
    lemma_step_inner(t, q);
    lemma_step_left_edge(t, q);
    lemma_step_right_edge(t, q);
}

/// Whether the map built from the pushes so far is still contiguous at its
/// right end: nothing pushed yet, or a pair pushed last.
pub open spec fn edge_flag(ns: Seq<NodeV>) -> bool {
    ns.len() == 0 || kv_of(ns.last()) is Some
}

/// The entries a map builder makes of the pushes: each pair, with whether
/// the push before it was a pair too (or there was none).
pub open spec fn kv_entries(ns: Seq<NodeV>) -> Seq<(Seq<u8>, bool, Seq<u8>)>
    decreases ns.len(),
{
    if ns.len() == 0 {
        Seq::empty()
    } else {
        let prev = kv_entries(ns.drop_last());
        match kv_of(ns.last()) {
            Some(p) => prev.push((p.0, edge_flag(ns.drop_last()), p.1)),
            None => prev,
        }
    }
}

proof fn lemma_pushes_push(ops: Seq<OpV>, op: OpV)
    ensures
        pushes(ops.push(op)) == match op {
            OpV::Push(n) => pushes(ops).push(n),
            _ => pushes(ops),
        },
{
    lemma_pushes_concat(ops, seq![op]);
    assert(ops.push(op) =~= ops + seq![op]);
    reveal_with_fuel(pushes, 2);
    assert(seq![op].drop_first() =~= Seq::<OpV>::empty());
    match op {
        OpV::Push(n) => {
            assert(pushes(seq![op]) =~= seq![n]);
            assert(pushes(ops) + seq![n] =~= pushes(ops).push(n));
        },
        _ => {
            assert(pushes(seq![op]) =~= Seq::<NodeV>::empty());
            assert(pushes(ops) + Seq::<NodeV>::empty() =~= pushes(ops));
        },
    }
}

/// The map `verify` builds is made of the pushes, and its keys increase.
proof fn lemma_verify_map(ops: Seq<OpV>)
    requires
        verify_run(verify_init(), ops) is Ok,
    ensures
        verify_run(verify_init(), ops)->Ok_0.map == (MapV {
            entries: kv_entries(pushes(ops)),
            right_edge: edge_flag(pushes(ops)),
        }),
        keys_increasing(kv_entries(pushes(ops))),
    decreases ops.len(), 1nat,
{
    if ops.len() == 0 {
        assert(verify_run(verify_init(), ops) == Ok::<VerifyState, Fault>(verify_init()));
    } else {
        let pre = ops.drop_last();
        let op = ops.last();
        assert(pre.push(op) =~= ops);
        assert(verify_run(verify_init(), pre) is Ok) by {
            if verify_run(verify_init(), pre) is Err {
                assert(ops.subrange(0, pre.len() as int) =~= pre);
                lemma_verify_run_prefix_err(verify_init(), ops, pre.len() as int);
            }
        }
        lemma_verify_run_map_step(pre, op);
    }
}

proof fn lemma_verify_run_map_step(pre: Seq<OpV>, op: OpV)
    requires
        verify_run(verify_init(), pre) is Ok,
        verify_run(verify_init(), pre.push(op)) is Ok,
    ensures
        verify_run(verify_init(), pre.push(op))->Ok_0.map == (MapV {
            entries: kv_entries(pushes(pre.push(op))),
            right_edge: edge_flag(pushes(pre.push(op))),
        }),
        keys_increasing(kv_entries(pushes(pre.push(op)))),
    decreases pre.len() + 1, 0nat,
{
    lemma_verify_map(pre);
    lemma_verify_run_push(verify_init(), pre, op);
    lemma_pushes_push(pre, op);
    let ns = pushes(pre);
    let st = verify_run(verify_init(), pre)->Ok_0;
    match op {
        OpV::Push(n) => {
            let ns2 = ns.push(n);
            assert(ns2.drop_last() =~= ns);
            assert(ns2.last() == n);
            let es = kv_entries(ns);
            match n {
                NodeV::KV(k, v) => {
                    let es2 = es.push((k, edge_flag(ns), v));
                    assert(kv_entries(ns2) == es2);
                    assert forall|i: int, j: int| 0 <= i < j < es2.len() implies lex_lt(#[trigger] es2[i].0, #[trigger] es2[j].0) by {
                        lemma_lex_order();
                        if j == es2.len() - 1 {
                            if i < es.len() - 1 {
                                assert(lex_lt(es[i].0, es.last().0));
                            }
                        }
                    }
                },
                _ => {
                    assert(kv_entries(ns2) == es);
                },
            }
        },
        _ => {},
    }
}

proof fn lemma_kv_prefix(ns: Seq<NodeV>, m: int)
    requires
        0 <= m <= ns.len(),
    ensures
        kv_entries(ns.take(m)).len() <= kv_entries(ns).len(),
        kv_entries(ns.take(m)) == kv_entries(ns).take(kv_entries(ns.take(m)).len() as int),
    decreases ns.len() - m,
{
    if m == ns.len() {
        assert(ns.take(m) =~= ns);
    } else {
        lemma_kv_prefix(ns, m + 1);
        let a = ns.take(m + 1);
        assert(a.drop_last() =~= ns.take(m));
        assert(a.last() == ns[m]);
        let ea = kv_entries(a);
        let e = kv_entries(ns.take(m));
        match kv_of(ns[m]) {
            Some(p) => {
                assert(ea == e.push((p.0, edge_flag(ns.take(m)), p.1)));
                assert(e =~= ea.take(e.len() as int));
                assert(e =~= kv_entries(ns).take(e.len() as int));
            },
            None => {
                assert(ea == e);
            },
        }
    }
}

proof fn lemma_kv_at(ns: Seq<NodeV>, p: int)
    requires
        0 <= p < ns.len(),
        kv_of(ns[p]) is Some,
    ensures
        kv_entries(ns.take(p)).len() < kv_entries(ns).len(),
        kv_entries(ns)[kv_entries(ns.take(p)).len() as int] == (
            kv_of(ns[p])->Some_0.0,
            edge_flag(ns.take(p)),
            kv_of(ns[p])->Some_0.1,
        ),
        kv_entries(ns.take(p + 1)).len() == kv_entries(ns.take(p)).len() + 1,
{
    lemma_kv_prefix(ns, p + 1);
    let a = ns.take(p + 1);
    assert(a.drop_last() =~= ns.take(p));
    assert(a.last() == ns[p]);
    let e = kv_entries(ns.take(p));
    let pr = kv_of(ns[p])->Some_0;
    assert(kv_entries(a) == e.push((pr.0, edge_flag(ns.take(p)), pr.1)));
    assert(kv_entries(a)[e.len() as int] == kv_entries(ns)[e.len() as int]);
}

proof fn lemma_first_ge_at(es: Seq<(Seq<u8>, bool, Seq<u8>)>, k: Seq<u8>, j: int)
    requires
        0 <= j <= es.len(),
        forall|i: int| 0 <= i < j ==> lex_lt(#[trigger] es[i].0, k),
        j < es.len() ==> lex_le(k, es[j].0),
    ensures
        first_ge(es, k) == j,
    decreases es.len(),
{
    lemma_lex_order();
    if es.len() > 0 && j > 0 {
        assert(lex_lt(es[0].0, k));
        lemma_first_ge_at(es.drop_first(), k, j - 1);
    }
}

/// A pushed pair is what the map gives for its key.
proof fn lemma_read_present(ns: Seq<NodeV>, k: Seq<u8>, v: Seq<u8>)
    requires
        keys_increasing(kv_entries(ns)),
        shows(ns, k, v),
    ensures
        map_get_spec(MapV { entries: kv_entries(ns), right_edge: edge_flag(ns) }, k) == Ok::<Option<Seq<u8>>, Fault>(Some(v)),
{
    let i = choose|i: int| 0 <= i < ns.len() && #[trigger] ns[i] == NodeV::KV(k, v);
    lemma_kv_at(ns, i);
    let es = kv_entries(ns);
    let j = kv_entries(ns.take(i)).len() as int;
    assert(es[j].0 == k);
    lemma_lex_order();
    lemma_first_ge_at(es, k, j);
}

/// Two neighbouring pairs around a key make the map show it absent.
proof fn lemma_read_gap(ns: Seq<NodeV>, k: Seq<u8>, p: int)
    requires
        keys_increasing(kv_entries(ns)),
        gap_at(ns, k, p),
    ensures
        map_get_spec(MapV { entries: kv_entries(ns), right_edge: edge_flag(ns) }, k) == Ok::<Option<Seq<u8>>, Fault>(None),
{
    lemma_kv_at(ns, p);
    lemma_kv_at(ns, p - 1);
    assert(ns.take(p).drop_last() =~= ns.take(p - 1));
    assert(ns.take(p).last() == ns[p - 1]);
    let es = kv_entries(ns);
    let j = kv_entries(ns.take(p)).len() as int;
    assert(kv_entries(ns.take(p - 1)).len() == j - 1) by {
        assert(ns.take(p) =~= ns.take(p - 1 + 1));
    }
    lemma_lex_order();
    assert forall|i: int| 0 <= i < j implies lex_lt(#[trigger] es[i].0, k) by {
        if i < j - 1 {
            assert(lex_lt(es[i].0, es[j - 1].0));
        }
    }
    lemma_first_ge_at(es, k, j);
    assert(es[j].1);
}

/// A first pair above a key makes the map show it absent.
proof fn lemma_read_first(ns: Seq<NodeV>, k: Seq<u8>)
    requires
        keys_increasing(kv_entries(ns)),
        ns.len() > 0,
        kv_of(ns[0]) matches Some(p) && lex_lt(k, p.0),
    ensures
        map_get_spec(MapV { entries: kv_entries(ns), right_edge: edge_flag(ns) }, k) == Ok::<Option<Seq<u8>>, Fault>(None),
{
    lemma_kv_at(ns, 0);
    assert(ns.take(0) =~= Seq::<NodeV>::empty());
    assert(kv_entries(ns.take(0)).len() == 0);
    lemma_lex_order();
    lemma_first_ge_at(kv_entries(ns), k, 0);
}

/// A last pair below a key makes the map show it absent.
proof fn lemma_read_last(ns: Seq<NodeV>, k: Seq<u8>)
    requires
        keys_increasing(kv_entries(ns)),
        ns.len() > 0,
        kv_of(ns.last()) matches Some(p) && lex_lt(p.0, k),
    ensures
        map_get_spec(MapV { entries: kv_entries(ns), right_edge: edge_flag(ns) }, k) == Ok::<Option<Seq<u8>>, Fault>(None),
{
    let n = ns.len() as int;
    lemma_kv_at(ns, n - 1);
    assert(ns.take(n) =~= ns);
    let es = kv_entries(ns);
    let j = kv_entries(ns.take(n - 1)).len() as int;
    assert(j == es.len() - 1);
    lemma_lex_order();
    assert forall|i: int| 0 <= i < es.len() implies lex_lt(#[trigger] es[i].0, k) by {
        if i < j {
            assert(lex_lt(es[i].0, es[j].0));
        }
    }
    lemma_first_ge_at(es, k, es.len() as int);
}

/// What a proof answers for a queried key: a proof that `create_proof`
/// builds for a consistent, ordered tree and a sorted query, once encoded
/// and verified against the tree's root hash, gives for every key the query
/// covers the tree's value where the key is in the tree, and a proven
/// absence where it is not.
pub proof fn lemma_proof_answers(t: TreeS, q: Seq<QueryItemV>, k: Seq<u8>)
    requires
        consistent(t),
        ordered(t),
        provable(t, q),
        lens_ok(t),
        sorted_items(q),
        items_wf(q),
        covered(q, k),
    ensures
        verify_spec(ops_bytes(proof_spec(t, q).0), tree_hash(t)) is Ok,
        map_get_spec(verify_spec(ops_bytes(proof_spec(t, q).0), tree_hash(t))->Ok_0, k) == Ok::<
            Option<Seq<u8>>,
            Fault,
        >(tree_get(t, k)),
{
    let ops = proof_spec(t, q).0;
    lemma_proof_verifies(t, q);
    lemma_proof_encodable(t, q);
    lemma_decode_stream_ops_bytes(ops);
    assert(verify_run(verify_init(), ops) is Ok);
    lemma_verify_map(ops);
    let ns = pushes(ops);
    assert(verify_spec(ops_bytes(ops), tree_hash(t))->Ok_0 == (MapV { entries: kv_entries(ns), right_edge: edge_flag(ns) }));
    lemma_answers(t, q);
    lemma_min_max(t);
    lemma_get_has(t, k);
    lemma_lex_order();
    if has_key(t, k) {
        lemma_read_present(ns, k, tree_get(t, k)->Some_0);
    } else if lex_lt(k, min_key(t)) {
        lemma_get_has(t, min_key(t));
        lemma_read_first(ns, k);
    } else if lex_lt(max_key(t), k) {
        lemma_get_has(t, max_key(t));
        lemma_read_last(ns, k);
    } else {
        assert(k != min_key(t) && k != max_key(t));
        assert(gap(ns, k));
        let p = choose|p: int| #[trigger] gap_at(ns, k, p);
        lemma_read_gap(ns, k, p);
    }
}

/// The key verifier's checks over a sequence of pushed nodes, in order.
pub open spec fn keys_nodes(keys: Seq<Seq<u8>>, c: KeysCursorV, ns: Seq<NodeV>) -> Result<KeysCursorV, Fault>
    decreases ns.len(),
{
    if ns.len() == 0 {
        Ok(c)
    } else {
        match keys_visit(keys, c, ns[0]) {
            Err(f) => Err(f),
            Ok(c2) => keys_nodes(keys, c2, ns.drop_first()),
        }
    }
}

/// A run of the key verifier is a run of the stack machine beside a run of
/// the key checks over the pushed nodes.
proof fn lemma_keys_run_split(keys: Seq<Seq<u8>>, st: KeysState, ops: Seq<OpV>)
    requires
        run_ops(st.machine, ops, true) is Ok,
        keys_nodes(keys, st.cursor, pushes(ops)) is Ok,
    ensures
        keys_run(keys, st, ops) == Ok::<KeysState, Fault>(
            KeysState {
                machine: run_ops(st.machine, ops, true)->Ok_0,
                cursor: keys_nodes(keys, st.cursor, pushes(ops))->Ok_0,
            },
        ),
    decreases ops.len(),
{
    if ops.len() > 0 {
        let m2 = exec_op(st.machine, ops[0], true)->Ok_0;
        match ops[0] {
            OpV::Push(n) => {
                let rest = pushes(ops.drop_first());
                assert(pushes(ops) == seq![n] + rest);
                assert((seq![n] + rest)[0] == n);
                assert((seq![n] + rest).drop_first() =~= rest);
                let c2 = keys_visit(keys, st.cursor, n)->Ok_0;
                lemma_keys_run_split(keys, KeysState { machine: m2, cursor: c2 }, ops.drop_first());
            },
            _ => {
                assert(pushes(ops) == pushes(ops.drop_first()));
                lemma_keys_run_split(keys, KeysState { machine: m2, cursor: st.cursor }, ops.drop_first());
            },
        }
    }
}

proof fn lemma_keys_nodes_push(keys: Seq<Seq<u8>>, c: KeysCursorV, ns: Seq<NodeV>, n: NodeV)
    requires
        keys_nodes(keys, c, ns) is Ok,
    ensures
        keys_nodes(keys, c, ns.push(n)) == keys_visit(keys, keys_nodes(keys, c, ns)->Ok_0, n),
    decreases ns.len(),
{
    reveal_with_fuel(keys_nodes, 2);
    if ns.len() > 0 {
        let c2 = keys_visit(keys, c, ns[0])->Ok_0;
        lemma_keys_nodes_push(keys, c2, ns.drop_first(), n);
        assert(ns.push(n).drop_first() =~= ns.drop_first().push(n));
    } else {
        assert(ns.push(n).drop_first() =~= Seq::<NodeV>::empty());
    }
}

/// A successful run of `verify` is a successful run of the stack machine.
proof fn lemma_verify_run_ops(st: VerifyState, ops: Seq<OpV>)
    requires
        verify_run(st, ops) is Ok,
    ensures
        run_ops(st.machine, ops, true) == Ok::<crate::proofs::tree::ExecState, Fault>(verify_run(st, ops)->Ok_0.machine),
    decreases ops.len(),
{
    if ops.len() > 0 {
        let s2 = crate::proofs::query::verify_step(st, ops[0])->Ok_0;
        lemma_verify_run_ops(s2, ops.drop_first());
    }
}

/// The pushed pairs' keys increase along the pushes.
proof fn lemma_kv_increasing_at(ns: Seq<NodeV>, p: int, q: int)
    requires
        keys_increasing(kv_entries(ns)),
        0 <= p < q < ns.len(),
        kv_of(ns[p]) is Some,
        kv_of(ns[q]) is Some,
    ensures
        lex_lt(kv_of(ns[p])->Some_0.0, kv_of(ns[q])->Some_0.0),
{
    lemma_kv_at(ns, p);
    lemma_kv_at(ns, q);
    lemma_kv_prefix(ns.take(q), p + 1);
    assert(ns.take(q).take(p + 1) =~= ns.take(p + 1));
    let es = kv_entries(ns);
    let a = kv_entries(ns.take(p)).len() as int;
    let b = kv_entries(ns.take(q)).len() as int;
    assert(a < b);
    assert(lex_lt(es[a].0, es[b].0));
}


/// The index of the last pair among the first `m` nodes, or -1 if none.
pub open spec fn last_kv_index(ns: Seq<NodeV>, m: int) -> int
    decreases m,
{
    if m <= 0 {
        -1
    } else if kv_of(ns[m - 1]) is Some {
        m - 1
    } else {
        last_kv_index(ns, m - 1)
    }
}

proof fn lemma_last_kv_index(ns: Seq<NodeV>, m: int)
    requires
        0 <= m <= ns.len(),
    ensures
        -1 <= last_kv_index(ns, m) < m,
        last_kv_index(ns, m) >= 0 ==> kv_of(ns[last_kv_index(ns, m)]) is Some,
        forall|p: int| last_kv_index(ns, m) < p < m ==> kv_of(#[trigger] ns[p]) is None,
    decreases m,
{
    if m > 0 && kv_of(ns[m - 1]) is None {
        lemma_last_kv_index(ns, m - 1);
    }
}

/// The index of the first key from `i` on that lies above `x` (the length
/// if there is none).
pub open spec fn first_above(keys: Seq<Seq<u8>>, x: Seq<u8>, i: int) -> int
    decreases keys.len() - i,
{
    if i < 0 || i >= keys.len() || lex_lt(x, keys[i]) {
        i
    } else {
        first_above(keys, x, i + 1)
    }
}

/// Whether the keys strictly increase.
pub open spec fn keys_strictly_increasing(keys: Seq<Seq<u8>>) -> bool {
    forall|i: int, j: int| 0 <= i < j < keys.len() ==> lex_lt(#[trigger] keys[i], #[trigger] keys[j])
}

proof fn lemma_first_above(keys: Seq<Seq<u8>>, x: Seq<u8>, i: int)
    requires
        0 <= i <= keys.len(),
        keys_strictly_increasing(keys),
    ensures
        i <= first_above(keys, x, i) <= keys.len(),
        forall|m: int| i <= m < first_above(keys, x, i) ==> lex_le(#[trigger] keys[m], x),
        forall|m: int| first_above(keys, x, i) <= m < keys.len() ==> lex_lt(x, #[trigger] keys[m]),
    decreases keys.len() - i,
{
    lemma_lex_order();
    if i < keys.len() && !lex_lt(x, keys[i]) {
        lemma_first_above(keys, x, i + 1);
    } else if i < keys.len() {
        assert forall|m: int| i <= m < keys.len() implies lex_lt(x, #[trigger] keys[m]) by {
            if m > i {
                assert(lex_lt(keys[i], keys[m]));
            }
        }
    }
}

/// The answers to the first `ki` keys.
pub open spec fn gets(t: TreeS, keys: Seq<Seq<u8>>, ki: int) -> Seq<Option<Seq<u8>>> {
    Seq::new(ki as nat, |i: int| tree_get(t, keys[i]))
}

/// Answering the keys a pushed pair settles gives the tree's answers, as
/// long as each key it settles has the answer the check gives.
proof fn lemma_keys_kv_loop(t: TreeS, keys: Seq<Seq<u8>>, c: KeysCursorV, key: Seq<u8>, v: Seq<u8>)
    requires
        0 <= c.ki <= keys.len(),
        keys_strictly_increasing(keys),
        c.output == gets(t, keys, c.ki),
        forall|i: int|
            c.ki <= i < keys.len() && lex_le(#[trigger] keys[i], key) ==> {
                &&& keys[i] == key ==> tree_get(t, keys[i]) == Some(v)
                &&& keys[i] != key ==> tree_get(t, keys[i]) is None && (c.last_push is None
                    || c.last_push matches Some(NodeV::KV(_, _)))
            },
    ensures
        keys_kv_loop(keys, c, key, v) == Ok::<KeysCursorV, Fault>(
            KeysCursorV {
                output: gets(t, keys, first_above(keys, key, c.ki)),
                ki: first_above(keys, key, c.ki),
                last_push: c.last_push,
            },
        ),
    decreases keys.len() - c.ki,
{
    lemma_lex_order();
    if c.ki < keys.len() && !lex_lt(key, keys[c.ki]) {
        let k = keys[c.ki];
        assert(lex_le(k, key));
        let a = if k == key {
            Some(v)
        } else {
            None::<Seq<u8>>
        };
        assert(a == tree_get(t, keys[c.ki]));
        let c2 = KeysCursorV { output: c.output.push(a), ki: c.ki + 1, ..c };
        assert(c2.output =~= gets(t, keys, c.ki + 1));
        lemma_keys_kv_loop(t, keys, c2, key, v);
    }
}


/// What the key verifier relies on from the pushes of a proof for a list of
/// keys.
pub open spec fn keys_facts(t: TreeS, keys: Seq<Seq<u8>>, ns: Seq<NodeV>) -> bool {
    &&& ordered(t)
    &&& keys_strictly_increasing(keys)
    &&& kv_sound(t, ns)
    &&& keys_increasing(kv_entries(ns))
    &&& forall|i: int|
        0 <= i < keys.len() && has_key(t, #[trigger] keys[i]) ==> shows(ns, keys[i], tree_get(t, keys[i])->Some_0)
    &&& forall|i: int|
        0 <= i < keys.len() && !has_key(t, #[trigger] keys[i]) && lex_lt(min_key(t), keys[i]) && lex_lt(
            keys[i],
            max_key(t),
        ) ==> gap(ns, keys[i])
    &&& forall|i: int|
        0 <= i < keys.len() && lex_lt(#[trigger] keys[i], min_key(t)) ==> ns.len() > 0 && ns[0] == NodeV::KV(
            min_key(t),
            tree_get(t, min_key(t))->Some_0,
        )
    &&& forall|i: int|
        0 <= i < keys.len() && lex_lt(max_key(t), #[trigger] keys[i]) ==> ns.len() > 0 && ns.last() == NodeV::KV(
            max_key(t),
            tree_get(t, max_key(t))->Some_0,
        )
}

/// A key above every pair pushed before position `m` and below the pair
/// pushed at `m` is not in the tree, and the push before `m`, if any, is a
/// pair.
proof fn lemma_absent_between(t: TreeS, keys: Seq<Seq<u8>>, ns: Seq<NodeV>, i: int, m: int)
    requires
        keys_facts(t, keys, ns),
        0 <= i < keys.len(),
        0 <= m < ns.len(),
        kv_of(ns[m]) matches Some(p) && lex_lt(keys[i], p.0),
        forall|p: int| 0 <= p < m && kv_of(#[trigger] ns[p]) is Some ==> lex_lt(kv_of(ns[p])->Some_0.0, keys[i]),
    ensures
        tree_get(t, keys[i]) is None,
        m == 0 || kv_of(ns[m - 1]) is Some,
{
    let k = keys[i];
    let km = kv_of(ns[m])->Some_0.0;
    lemma_lex_order();
    lemma_min_max(t);
    lemma_get_has(t, k);
    assert(tree_get(t, km) is Some);
    lemma_get_has(t, km);
    if has_key(t, k) {
        let p = choose|p: int| 0 <= p < ns.len() && #[trigger] ns[p] == NodeV::KV(k, tree_get(t, k)->Some_0);
        assert(kv_of(ns[p]) is Some);
        if p > m {
            lemma_kv_increasing_at(ns, m, p);
        }
        assert(false);
    }
    if lex_lt(k, min_key(t)) {
        if m > 0 {
            assert(kv_of(ns[0]) is Some);
            assert(false);
        }
    } else if lex_lt(max_key(t), k) {
        assert(false);
    } else {
        assert(k != min_key(t) && k != max_key(t));
        assert(gap(ns, k));
        let p = choose|p: int| #[trigger] gap_at(ns, k, p);
        if p < m {
            assert(kv_of(ns[p]) is Some);
            assert(false);
        } else if p > m {
            if p - 1 > m {
                lemma_kv_increasing_at(ns, m, p - 1);
            }
            assert(false);
        }
    }
}

/// A key above every pushed pair is not in the tree, and the proof ends
/// with a pair.
proof fn lemma_absent_after(t: TreeS, keys: Seq<Seq<u8>>, ns: Seq<NodeV>, i: int)
    requires
        keys_facts(t, keys, ns),
        0 <= i < keys.len(),
        forall|p: int| 0 <= p < ns.len() && kv_of(#[trigger] ns[p]) is Some ==> lex_lt(kv_of(ns[p])->Some_0.0, keys[i]),
    ensures
        tree_get(t, keys[i]) is None,
        ns.len() > 0 && kv_of(ns.last()) is Some,
{
    let k = keys[i];
    lemma_lex_order();
    lemma_min_max(t);
    lemma_get_has(t, k);
    if has_key(t, k) {
        let p = choose|p: int| 0 <= p < ns.len() && #[trigger] ns[p] == NodeV::KV(k, tree_get(t, k)->Some_0);
        assert(kv_of(ns[p]) is Some);
        assert(false);
    }
    if lex_lt(k, min_key(t)) {
        assert(kv_of(ns[0]) is Some);
        assert(false);
    } else if lex_lt(max_key(t), k) {
        assert(kv_of(ns[ns.len() - 1]) is Some);
    } else {
        assert(k != min_key(t) && k != max_key(t));
        assert(gap(ns, k));
        let p = choose|p: int| #[trigger] gap_at(ns, k, p);
        assert(kv_of(ns[p]) is Some);
        assert(false);
    }
}

/// The key checks over the first `j` pushes: the keys up to the last pair
/// pushed are answered with the tree's values, and every key left lies
/// above every pair pushed so far.
proof fn lemma_keys_prefix(t: TreeS, keys: Seq<Seq<u8>>, ns: Seq<NodeV>, j: int) -> (ki: int)
    requires
        keys_facts(t, keys, ns),
        0 <= j <= ns.len(),
    ensures
        0 <= ki <= keys.len(),
        forall|i: int, p: int|
            ki <= i < keys.len() && 0 <= p < j && kv_of(#[trigger] ns[p]) is Some ==> lex_lt(
                kv_of(ns[p])->Some_0.0,
                #[trigger] keys[i],
            ),
        keys_nodes(keys, keys_init().cursor, ns.take(j)) == Ok::<KeysCursorV, Fault>(
            KeysCursorV {
                output: gets(t, keys, ki),
                last_push: if j == 0 {
                    None
                } else {
                    Some(ns[j - 1])
                },
                ki: ki,
            },
        ),
    decreases j,
{
    lemma_lex_order();
    if j == 0 {
        assert(ns.take(0) =~= Seq::<NodeV>::empty());
        assert(keys_init().cursor.output =~= gets(t, keys, 0));
        0
    } else {
        let ki0 = lemma_keys_prefix(t, keys, ns, j - 1);
        let prefix = ns.take(j - 1);
        let n = ns[j - 1];
        assert(ns.take(j) =~= prefix.push(n));
        lemma_keys_nodes_push(keys, keys_init().cursor, prefix, n);
        let c = KeysCursorV {
            output: gets(t, keys, ki0),
            last_push: if j - 1 == 0 {
                None
            } else {
                Some(ns[j - 2])
            },
            ki: ki0,
        };
        match n {
            NodeV::KV(key, v) => {
                assert(kv_of(ns[j - 1]) == Some((key, v)));
                assert forall|i: int|
                    c.ki <= i < keys.len() && lex_le(#[trigger] keys[i], key) implies {
                        &&& keys[i] == key ==> tree_get(t, keys[i]) == Some(v)
                        &&& keys[i] != key ==> tree_get(t, keys[i]) is None && (c.last_push is None
                            || c.last_push matches Some(NodeV::KV(_, _)))
                    } by {
                    if keys[i] != key {
                        assert forall|p: int| 0 <= p < j - 1 && kv_of(#[trigger] ns[p]) is Some implies lex_lt(
                            kv_of(ns[p])->Some_0.0,
                            keys[i],
                        ) by {
                            assert(lex_lt(kv_of(ns[p])->Some_0.0, keys[i]));
                        }
                        lemma_absent_between(t, keys, ns, i, j - 1);
                    }
                }
                lemma_keys_kv_loop(t, keys, c, key, v);
                let ki = first_above(keys, key, ki0);
                lemma_first_above(keys, key, ki0);
                assert forall|i: int, p: int|
                    ki <= i < keys.len() && 0 <= p < j && kv_of(#[trigger] ns[p]) is Some implies lex_lt(
                        kv_of(ns[p])->Some_0.0,
                        #[trigger] keys[i],
                    ) by {
                    if p < j - 1 {
                        assert(lex_lt(kv_of(ns[p])->Some_0.0, keys[i]));
                    } else {
                        assert(lex_lt(key, keys[i]));
                    }
                }
                ki
            },
            _ => {
                assert forall|i: int, p: int|
                    ki0 <= i < keys.len() && 0 <= p < j && kv_of(#[trigger] ns[p]) is Some implies lex_lt(
                        kv_of(ns[p])->Some_0.0,
                        #[trigger] keys[i],
                    ) by {
                    assert(p < j - 1);
                }
                ki0
            },
        }
    }
}


/// What the key verifier answers: a proof that `create_key_proof` builds
/// for a consistent, ordered tree and strictly increasing keys, once
/// encoded and checked against the tree's root hash, answers every key with
/// the tree's value under it, or with `None` where the key is not in the
/// tree.
pub proof fn lemma_key_proof_answers(t: TreeS, keys: Seq<Vec<u8>>)
    requires
        consistent(t),
        ordered(t),
        lens_ok(t),
        provable(t, keys_items(keys)),
        keys_strictly_increasing(keys_view(keys)),
    ensures
        verify_keys_spec(ops_bytes(proof_spec(t, keys_items(keys)).0), keys_view(keys), tree_hash(t)) == Ok::<
            Seq<Option<Seq<u8>>>,
            Fault,
        >(keys_view(keys).map_values(|k: Seq<u8>| tree_get(t, k))),
{
    let kk = keys_view(keys);
    let q = keys_items(keys);
    let ops = proof_spec(t, q).0;
    let ns = pushes(ops);
    lemma_lex_order();
    assert forall|i: int| 0 <= i < q.len() implies #[trigger] q[i] == key_item_v(kk[i]) by {}
    assert(items_wf(q));
    assert(sorted_items(q)) by {
        assert forall|i: int, j: int| 0 <= i < j < q.len() implies item_order(#[trigger] q[i], #[trigger] q[j])
            == Order::Less by {
            assert(lex_lt(kk[i], kk[j]));
        }
    }
    lemma_answers(t, q);
    lemma_proof_verifies(t, q);
    lemma_proof_encodable(t, q);
    lemma_decode_stream_ops_bytes(ops);
    assert(verify_run(verify_init(), ops) is Ok);
    lemma_verify_map(ops);
    lemma_verify_run_ops(verify_init(), ops);
    assert forall|i: int| 0 <= i < kk.len() implies covered(q, #[trigger] kk[i]) by {
        assert(item_contains(q[i], kk[i]));
    }
    assert(keys_facts(t, kk, ns)) by {
        assert forall|i: int| 0 <= i < kk.len() && lex_lt(#[trigger] kk[i], min_key(t)) implies ns.len() > 0
            && ns[0] == NodeV::KV(min_key(t), tree_get(t, min_key(t))->Some_0) by {
            assert(covered(q, kk[i]));
        }
        assert forall|i: int| 0 <= i < kk.len() && lex_lt(max_key(t), #[trigger] kk[i]) implies ns.len() > 0
            && ns.last() == NodeV::KV(max_key(t), tree_get(t, max_key(t))->Some_0) by {
            assert(covered(q, kk[i]));
        }
    }
    let n = ns.len() as int;
    let ki = lemma_keys_prefix(t, kk, ns, n);
    assert(ns.take(n) =~= ns);
    let c = keys_nodes(kk, keys_init().cursor, ns)->Ok_0;
    lemma_keys_run_split(kk, keys_init(), ops);
    let expected = kk.map_values(|k: Seq<u8>| tree_get(t, k));
    if ki < kk.len() {
        lemma_absent_after(t, kk, ns, ki);
        assert forall|i: int| ki <= i < kk.len() implies tree_get(t, #[trigger] kk[i]) is None by {
            lemma_absent_after(t, kk, ns, i);
        }
    }
    assert(c.output + Seq::new((kk.len() - c.ki) as nat, |i: int| None::<Seq<u8>>) =~= expected);
}


/// Whether some item reaches above `k`.
pub open spec fn reaches_above(q: Seq<QueryItemV>, k: Seq<u8>) -> bool {
    exists|i: int| 0 <= i < q.len() && lex_lt(k, #[trigger] q[i].upper)
}

/// Where an item reaches above the tree's largest key, the proof says so
/// and ends with the largest pair.
pub open spec fn right_reach_ok(q: Seq<QueryItemV>, t: TreeS, ns: Seq<NodeV>, flag: bool) -> bool {
    reaches_above(q, max_key(t)) ==> {
        &&& flag
        &&& ns.len() > 0
        &&& ns.last() == NodeV::KV(max_key(t), tree_get(t, max_key(t))->Some_0)
    }
}

/// Where `split_query` cuts, by the items' bounds: an item reaching below
/// the node's key is in the left part, one reaching above it in the right.
proof fn lemma_split_reach(q: Seq<QueryItemV>, key: Seq<u8>) -> (r: (int, int))
    requires
        sorted_items(q),
        items_wf(q),
    ensures
        0 <= r.0 <= q.len(),
        0 <= r.1 <= q.len(),
        split_query(q, key) == (q.subrange(0, r.0), q.subrange(r.1, q.len() as int)),
        forall|i: int| 0 <= i < q.len() && lex_lt(#[trigger] q[i].lower, key) ==> i < r.0,
        forall|i: int| 0 <= i < q.len() && lex_lt(key, #[trigger] q[i].upper) ==> i >= r.1,
        forall|i: int, k: Seq<u8>|
            0 <= i < q.len() && #[trigger] item_contains(q[i], k) && lex_lt(k, key) ==> i < r.0,
        forall|i: int, k: Seq<u8>|
            0 <= i < q.len() && #[trigger] item_contains(q[i], k) && lex_lt(key, k) ==> i >= r.1,
{
    lemma_search_props(q, key);
    let r = match search_spec(q, key) {
        Ok(j) => (
            if lex_lt(q[j].lower, key) { j + 1 } else { j },
            if lex_lt(key, q[j].upper) { j } else { j + 1 },
        ),
        Err(j) => (j, j),
    };
    assert(split_query(q, key).0 =~= q.subrange(0, r.0));
    assert(split_query(q, key).1 =~= q.subrange(r.1, q.len() as int));
    assert forall|i: int| 0 <= i < q.len() && lex_lt(#[trigger] q[i].lower, key) implies i < r.0 by {
        lemma_lex_order();
    }
    assert forall|i: int| 0 <= i < q.len() && lex_lt(key, #[trigger] q[i].upper) implies i >= r.1 by {
        lemma_lex_order();
    }
    assert forall|i: int, k: Seq<u8>|
        0 <= i < q.len() && #[trigger] item_contains(q[i], k) && lex_lt(k, key) implies i < r.0 by {
        lemma_item_vs_key(q[i], key, k);
    }
    assert forall|i: int, k: Seq<u8>|
        0 <= i < q.len() && #[trigger] item_contains(q[i], k) && lex_lt(key, k) implies i >= r.1 by {
        lemma_item_vs_key(q[i], key, k);
    }
    r
}

/// The proof's reach past the right edge, by the items' upper bounds.
#[verifier::rlimit(40)]
proof fn lemma_right_reach(t: TreeS, q: Seq<QueryItemV>)
    requires
        ordered(t),
        sorted_items(q),
        items_wf(q),
    ensures
        right_reach_ok(q, t, pushes(proof_spec(t, q).0), proof_spec(t, q).1.1),
    decreases t,
{
    let (lq, rq) = split_query(q, t.key);
    if reaches_above(q, max_key(t)) {
        let i = choose|i: int| 0 <= i < q.len() && lex_lt(max_key(t), #[trigger] q[i].upper);
        let r0 = lemma_split_reach(q, t.key);
        assert(lex_lt(t.key, q[i].upper)) by {
            lemma_min_max(t);
            lemma_lex_order();
            assert(has_key(t, t.key));
        }
        assert(rq[i - r0.1] == q[i]);
        lemma_node_pushes(t, q);
        lemma_child_pushes(t.right, rq);
        let rpush = pushes(child_proof_spec(t.right, rq).0);
        let ns = pushes(proof_spec(t, q).0);
        match t.right {
            Some(r) => {
                lemma_split_query(q, t.key);
                assert(max_key(t) == max_key(*r.tree));
                assert(lex_lt(max_key(*r.tree), rq[i - r0.1].upper));
                assert(reaches_above(rq, max_key(*r.tree)));
                lemma_right_reach(*r.tree, rq);
                lemma_min_max(*r.tree);
                lemma_key_sides(t, max_key(t));
                assert(ns.last() == rpush.last());
            },
            None => {
                assert(ns.last() == node_op(t, q)->Push_0);
                lemma_key_sides(t, t.key);
            },
        }
    }
}

/// A proof is never empty, and where it ends with a pair, that pair is
/// the tree's largest.
proof fn lemma_last_push(t: TreeS, q: Seq<QueryItemV>)
    requires
        ordered(t),
    ensures
        pushes(proof_spec(t, q).0).len() > 0,
        kv_of(pushes(proof_spec(t, q).0).last()) is Some ==> pushes(proof_spec(t, q).0).last() == NodeV::KV(
            max_key(t),
            tree_get(t, max_key(t))->Some_0,
        ),
    decreases t,
{
    let (lq, rq) = split_query(q, t.key);
    lemma_node_pushes(t, q);
    lemma_child_pushes(t.right, rq);
    let rpush = pushes(child_proof_spec(t.right, rq).0);
    let ns = pushes(proof_spec(t, q).0);
    match t.right {
        Some(r) => {
            if rq.len() > 0 {
                lemma_last_push(*r.tree, rq);
                assert(ns.last() == rpush.last());
                if kv_of(ns.last()) is Some {
                    lemma_min_max(*r.tree);
                    lemma_key_sides(t, max_key(t));
                }
            } else {
                reveal_with_fuel(pushes, 2);
                let ops = seq![OpV::Push(NodeV::Hash(r.hash))];
                assert(ops.drop_first() =~= Seq::<OpV>::empty());
                assert(rpush =~= seq![NodeV::Hash(r.hash)]);
                assert(ns.last() == rpush.last());
            }
        },
        None => {
            assert(ns.last() == node_op(t, q)->Push_0);
            lemma_key_sides(t, t.key);
        },
    }
}


/// Whether no abridged node directly follows a pushed pair whose key an
/// item covers and reaches above.
pub open spec fn no_hole(q: Seq<QueryItemV>, ns: Seq<NodeV>) -> bool {
    forall|x: int, i: int|
        0 <= x < ns.len() - 1 && 0 <= i < q.len() && kv_of(#[trigger] ns[x]) is Some && kv_of(ns[x + 1]) is None
            && item_contains(#[trigger] q[i], kv_of(ns[x])->Some_0.0) ==> !lex_lt(kv_of(ns[x])->Some_0.0, q[i].upper)
}

/// A hole after a pair pushed on the left of a node would leave one in the
/// left child's proof, or make the node's push abridged where the query
/// reaches past the left child's right edge.
proof fn lemma_hole_left(t: TreeS, q: Seq<QueryItemV>, x: int, i: int)
    requires
        ordered(t),
        sorted_items(q),
        items_wf(q),
        t.left is Some,
        split_query(q, t.key).0.len() > 0,
        ({
            let l = t.left->Some_0;
            let lq = split_query(q, t.key).0;
            let lpush = pushes(proof_spec(*l.tree, lq).0);
            &&& no_hole(lq, lpush)
            &&& kv_sound(*l.tree, lpush)
            &&& (kv_of(lpush.last()) is Some ==> lpush.last() == NodeV::KV(
                max_key(*l.tree),
                tree_get(*l.tree, max_key(*l.tree))->Some_0,
            ))
            &&& right_reach_ok(lq, *l.tree, lpush, proof_spec(*l.tree, lq).1.1)
            &&& 0 <= x < lpush.len()
            &&& pushes(proof_spec(t, q).0) == lpush + seq![node_op(t, q)->Push_0] + pushes(
                child_proof_spec(t.right, split_query(q, t.key).1).0,
            )
            &&& (proof_spec(*l.tree, lq).1.1 ==> node_op(t, q)->Push_0 == NodeV::KV(t.key, t.value))
        }),
        0 <= i < q.len(),
        kv_of(pushes(proof_spec(t, q).0)[x]) is Some,
        kv_of(pushes(proof_spec(t, q).0)[x + 1]) is None,
        item_contains(q[i], kv_of(pushes(proof_spec(t, q).0)[x])->Some_0.0),
    ensures
        !lex_lt(kv_of(pushes(proof_spec(t, q).0)[x])->Some_0.0, q[i].upper),
{
    let l = t.left->Some_0;
    let lq = split_query(q, t.key).0;
    let lpush = pushes(proof_spec(*l.tree, lq).0);
    let ns = pushes(proof_spec(t, q).0);
    let k = kv_of(ns[x])->Some_0.0;
    assert(ns[x] == lpush[x]);
    assert(tree_get(*l.tree, k) is Some);
    lemma_get_has(*l.tree, k);
    assert(lex_lt(k, t.key));
    let r0 = lemma_split_reach(q, t.key);
    assert(i < r0.0);
    assert(lq[i] == q[i]);
    if lex_lt(k, q[i].upper) {
        if x + 1 < lpush.len() {
            assert(ns[x + 1] == lpush[x + 1]);
        } else {
            assert(ns[x + 1] == node_op(t, q)->Push_0);
            assert(lpush.last() == lpush[x]);
            assert(k == max_key(*l.tree));
            assert(reaches_above(lq, max_key(*l.tree)));
        }
    }
}

/// A hole right after the node's own pair would need the right child's
/// proof to start abridged though the query reaches below its left edge.
proof fn lemma_hole_mid(t: TreeS, q: Seq<QueryItemV>, x: int, i: int)
    requires
        ordered(t),
        sorted_items(q),
        items_wf(q),
        ({
            let lpush = pushes(child_proof_spec(t.left, split_query(q, t.key).0).0);
            let rq = split_query(q, t.key).1;
            let rpush = pushes(child_proof_spec(t.right, rq).0);
            &&& pushes(proof_spec(t, q).0) == lpush + seq![node_op(t, q)->Push_0] + rpush
            &&& x == lpush.len()
            &&& (kv_of(node_op(t, q)->Push_0) matches Some(p) ==> p == (t.key, t.value))
            &&& (t.right is None ==> rpush.len() == 0)
            &&& (t.right is Some && rq.len() > 0 ==> rpush == pushes(proof_spec(*t.right->Some_0.tree, rq).0)
                && left_edge_ok(rq, *t.right->Some_0.tree, rpush, proof_spec(*t.right->Some_0.tree, rq).1.0))
        }),
        0 <= i < q.len(),
        x + 1 < pushes(proof_spec(t, q).0).len(),
        kv_of(pushes(proof_spec(t, q).0)[x]) is Some,
        kv_of(pushes(proof_spec(t, q).0)[x + 1]) is None,
        item_contains(q[i], kv_of(pushes(proof_spec(t, q).0)[x])->Some_0.0),
    ensures
        !lex_lt(kv_of(pushes(proof_spec(t, q).0)[x])->Some_0.0, q[i].upper),
{
    let rq = split_query(q, t.key).1;
    let rpush = pushes(child_proof_spec(t.right, rq).0);
    let ns = pushes(proof_spec(t, q).0);
    let k = kv_of(ns[x])->Some_0.0;
    assert(k == t.key);
    if lex_lt(k, q[i].upper) {
        let r0 = lemma_split_reach(q, t.key);
        assert(i >= r0.1);
        assert(rq[i - r0.1] == q[i]);
        assert(ns[x + 1] == rpush[0]);
        let r = t.right->Some_0;
        let lo = q[i].lower;
        assert(item_wf(q[i]));
        lemma_lex_order();
        assert(item_contains(rq[i - r0.1], lo));
        assert(covered(rq, lo));
        lemma_min_max(*r.tree);
        assert(has_key(*r.tree, min_key(*r.tree)));
        assert(lex_lt(t.key, min_key(*r.tree)));
        assert(lex_lt(lo, min_key(*r.tree)));
    }
}

/// A hole after a pair pushed on the right of a node would leave one in the
/// right child's proof.
proof fn lemma_hole_right(t: TreeS, q: Seq<QueryItemV>, x: int, i: int)
    requires
        ordered(t),
        sorted_items(q),
        items_wf(q),
        t.right is Some,
        split_query(q, t.key).1.len() > 0,
        ({
            let r = t.right->Some_0;
            let rq = split_query(q, t.key).1;
            let lpush = pushes(child_proof_spec(t.left, split_query(q, t.key).0).0);
            let rpush = pushes(proof_spec(*r.tree, rq).0);
            &&& no_hole(rq, rpush)
            &&& kv_sound(*r.tree, rpush)
            &&& pushes(proof_spec(t, q).0) == lpush + seq![node_op(t, q)->Push_0] + rpush
            &&& lpush.len() < x
        }),
        0 <= i < q.len(),
        x + 1 < pushes(proof_spec(t, q).0).len(),
        kv_of(pushes(proof_spec(t, q).0)[x]) is Some,
        kv_of(pushes(proof_spec(t, q).0)[x + 1]) is None,
        item_contains(q[i], kv_of(pushes(proof_spec(t, q).0)[x])->Some_0.0),
    ensures
        !lex_lt(kv_of(pushes(proof_spec(t, q).0)[x])->Some_0.0, q[i].upper),
{
    let r = t.right->Some_0;
    let rq = split_query(q, t.key).1;
    let lpush = pushes(child_proof_spec(t.left, split_query(q, t.key).0).0);
    let rpush = pushes(proof_spec(*r.tree, rq).0);
    let ns = pushes(proof_spec(t, q).0);
    let a = lpush.len() as int;
    let k = kv_of(ns[x])->Some_0.0;
    assert(ns[x] == rpush[x - a - 1]);
    assert(ns[x + 1] == rpush[x - a]);
    assert(tree_get(*r.tree, k) is Some);
    lemma_get_has(*r.tree, k);
    assert(lex_lt(t.key, k));
    let r0 = lemma_split_reach(q, t.key);
    assert(i >= r0.1);
    assert(rq[i - r0.1] == q[i]);
}

/// The proof of a tree has no hole inside a queried range.
proof fn lemma_no_hole(t: TreeS, q: Seq<QueryItemV>)
    requires
        ordered(t),
        sorted_items(q),
        items_wf(q),
    ensures
        no_hole(q, pushes(proof_spec(t, q).0)),
    decreases t,
{
    let (lq, rq) = split_query(q, t.key);
    lemma_node_pushes(t, q);
    lemma_child_pushes(t.left, lq);
    lemma_child_pushes(t.right, rq);
    lemma_split_query(q, t.key);
    let lpush = pushes(child_proof_spec(t.left, lq).0);
    let rpush = pushes(child_proof_spec(t.right, rq).0);
    let ns = pushes(proof_spec(t, q).0);
    let a = lpush.len() as int;
    if let Some(l) = t.left {
        if lq.len() > 0 {
            lemma_no_hole(*l.tree, lq);
            lemma_answers(*l.tree, lq);
            lemma_last_push(*l.tree, lq);
            lemma_right_reach(*l.tree, lq);
        }
    }
    if let Some(r) = t.right {
        if rq.len() > 0 {
            lemma_no_hole(*r.tree, rq);
            lemma_answers(*r.tree, rq);
        }
    }
    assert forall|x: int, i: int|
        0 <= x < ns.len() - 1 && 0 <= i < q.len() && kv_of(#[trigger] ns[x]) is Some && kv_of(ns[x + 1]) is None
            && item_contains(#[trigger] q[i], kv_of(ns[x])->Some_0.0) implies !lex_lt(
        kv_of(ns[x])->Some_0.0,
        q[i].upper,
    ) by {
        if x < a {
            assert(ns[x] == lpush[x]);
            assert(lq.len() > 0);
            lemma_hole_left(t, q, x, i);
        } else if x == a {
            lemma_hole_mid(t, q, x, i);
        } else {
            assert(rpush.len() > 0);
            assert(t.right is Some);
            assert(rq.len() > 0);
            lemma_hole_right(t, q, x, i);
        }
    }
}


/// The query verifier's checks over a sequence of pushed nodes, in order.
pub open spec fn query_nodes(q: Seq<QueryItemV>, c: CursorV, ns: Seq<NodeV>) -> Result<CursorV, Fault>
    decreases ns.len(),
{
    if ns.len() == 0 {
        Ok(c)
    } else {
        match query_visit(q, c, ns[0]) {
            Err(f) => Err(f),
            Ok(c2) => query_nodes(q, c2, ns.drop_first()),
        }
    }
}

/// A run of the query verifier is a run of the stack machine beside a run
/// of the query checks over the pushed nodes.
proof fn lemma_query_run_split(q: Seq<QueryItemV>, st: QueryState, ops: Seq<OpV>)
    requires
        run_ops(st.machine, ops, true) is Ok,
        query_nodes(q, st.cursor, pushes(ops)) is Ok,
    ensures
        query_run(q, st, ops) == Ok::<QueryState, Fault>(
            QueryState {
                machine: run_ops(st.machine, ops, true)->Ok_0,
                cursor: query_nodes(q, st.cursor, pushes(ops))->Ok_0,
            },
        ),
    decreases ops.len(),
{
    if ops.len() > 0 {
        let m2 = exec_op(st.machine, ops[0], true)->Ok_0;
        match ops[0] {
            OpV::Push(n) => {
                let rest = pushes(ops.drop_first());
                assert(pushes(ops) == seq![n] + rest);
                assert((seq![n] + rest)[0] == n);
                assert((seq![n] + rest).drop_first() =~= rest);
                let c2 = query_visit(q, st.cursor, n)->Ok_0;
                lemma_query_run_split(q, QueryState { machine: m2, cursor: c2 }, ops.drop_first());
            },
            _ => {
                assert(pushes(ops) == pushes(ops.drop_first()));
                lemma_query_run_split(q, QueryState { machine: m2, cursor: st.cursor }, ops.drop_first());
            },
        }
    }
}

proof fn lemma_query_nodes_push(q: Seq<QueryItemV>, c: CursorV, ns: Seq<NodeV>, n: NodeV)
    requires
        query_nodes(q, c, ns) is Ok,
    ensures
        query_nodes(q, c, ns.push(n)) == query_visit(q, query_nodes(q, c, ns)->Ok_0, n),
    decreases ns.len(),
{
    reveal_with_fuel(query_nodes, 2);
    if ns.len() > 0 {
        let c2 = query_visit(q, c, ns[0])->Ok_0;
        lemma_query_nodes_push(q, c2, ns.drop_first(), n);
        assert(ns.push(n).drop_first() =~= ns.drop_first().push(n));
    } else {
        assert(ns.push(n).drop_first() =~= Seq::<NodeV>::empty());
    }
}

/// Two items of a sorted query: the first ends before the second starts.
proof fn lemma_sorted_pair(q: Seq<QueryItemV>, a: int, b: int)
    requires
        sorted_items(q),
        items_wf(q),
        0 <= a < b < q.len(),
    ensures
        lex_le(q[a].upper, q[b].lower),
        q[a].upper == q[b].lower ==> !q[a].inclusive,
        lex_le(q[a].lower, q[a].upper),
        lex_le(q[b].lower, q[b].upper),
        lex_le(q[a].upper, q[b].upper),
{
    lemma_lex_order();
    assert(item_order(q[a], q[b]) == Order::Less);
    assert(item_wf(q[a]));
    assert(item_wf(q[b]));
}

/// The index of the first item from `i` on whose upper bound lies above
/// `k` (the length if there is none).
pub open spec fn first_reaching(q: Seq<QueryItemV>, k: Seq<u8>, i: int) -> int
    decreases q.len() - i,
{
    if i < 0 || i >= q.len() || lex_lt(k, q[i].upper) {
        i
    } else {
        first_reaching(q, k, i + 1)
    }
}

proof fn lemma_first_reaching(q: Seq<QueryItemV>, k: Seq<u8>, i: int)
    requires
        sorted_items(q),
        items_wf(q),
        0 <= i <= q.len(),
    ensures
        i <= first_reaching(q, k, i) <= q.len(),
        forall|m: int| i <= m < first_reaching(q, k, i) ==> lex_le(#[trigger] q[m].upper, k),
        forall|m: int| first_reaching(q, k, i) <= m < q.len() ==> lex_lt(k, #[trigger] q[m].upper),
    decreases q.len() - i,
{
    lemma_lex_order();
    if i < q.len() && !lex_lt(k, q[i].upper) {
        lemma_first_reaching(q, k, i + 1);
    } else if i < q.len() {
        assert forall|m: int| i <= m < q.len() implies lex_lt(k, #[trigger] q[m].upper) by {
            if m > i {
                lemma_sorted_pair(q, i, m);
            }
        }
    }
}

/// Matching a pushed pair against the query, where every item the loop
/// reaches passes its lower-bound check: the pair is output where an item
/// covers it, and the cursor moves to the first item reaching above it.
proof fn lemma_query_kv_loop(q: Seq<QueryItemV>, c: CursorV, key: Seq<u8>, value: Seq<u8>)
    requires
        sorted_items(q),
        items_wf(q),
        0 <= c.qi <= q.len(),
        forall|m: int| 0 <= m < c.qi ==> !item_contains(#[trigger] q[m], key),
        c.in_range ==> c.qi < q.len() && lex_le(q[c.qi].lower, key),
        forall|m: int|
            c.qi <= m < q.len() && lex_le(#[trigger] q[m].lower, key) && !(m == c.qi && c.in_range) ==> (key
                == q[m].lower || c.last_push is None || c.last_push matches Some(NodeV::KV(_, _))),
    ensures
        query_kv_loop(q, c, key, value) == Ok::<CursorV, Fault>(
            CursorV {
                output: if covered(q, key) {
                    c.output.push((key, value))
                } else {
                    c.output
                },
                last_push: c.last_push,
                qi: first_reaching(q, key, c.qi),
                in_range: first_reaching(q, key, c.qi) < q.len() && lex_le(
                    q[first_reaching(q, key, c.qi)].lower,
                    key,
                ),
            },
        ),
    decreases q.len() - c.qi,
{
    lemma_lex_order();
    if c.qi < q.len() {
        let item = q[c.qi];
        assert(item_wf(item));
        if lex_lt(key, item.lower) {
            assert(item_order(item, key_item_v(key)) == Order::Greater);
            assert(!covered(q, key)) by {
                if covered(q, key) {
                    let m = choose|m: int| 0 <= m < q.len() && item_contains(#[trigger] q[m], key);
                    if m > c.qi {
                        lemma_sorted_pair(q, c.qi, m);
                    }
                }
            }
        } else {
            assert(item_order(item, key_item_v(key)) != Order::Greater);
            if item_contains(item, key) {
                assert(covered(q, key));
                if lex_le(item.upper, key) {
                    if c.qi + 1 < q.len() {
                        lemma_sorted_pair(q, c.qi, c.qi + 1);
                    }
                    assert(first_reaching(q, key, c.qi) == first_reaching(q, key, c.qi + 1));
                }
            } else {
                assert(lex_le(item.upper, key));
                let c2 = CursorV { qi: c.qi + 1, in_range: false, ..c };
                lemma_query_kv_loop(q, c2, key, value);
                assert(first_reaching(q, key, c.qi) == first_reaching(q, key, c.qi + 1));
            }
        }
    } else {
        assert(!covered(q, key));
    }
}


/// What the query verifier relies on from the pushes of a proof.
pub open spec fn query_facts(t: TreeS, q: Seq<QueryItemV>, ns: Seq<NodeV>, flags: (bool, bool)) -> bool {
    &&& ordered(t)
    &&& sorted_items(q)
    &&& items_wf(q)
    &&& kv_sound(t, ns)
    &&& keys_increasing(kv_entries(ns))
    &&& present(q, t, ns)
    &&& inner_absent(q, t, ns)
    &&& left_edge_ok(q, t, ns, flags.0)
    &&& right_edge_ok(q, t, ns, flags.1)
    &&& no_hole(q, ns)
}

/// A covered key above every pair pushed before position `m` and below the
/// pair pushed at `m`: the push before `m`, if any, is a pair.
proof fn lemma_covered_between(t: TreeS, q: Seq<QueryItemV>, ns: Seq<NodeV>, fl: (bool, bool), k: Seq<u8>, m: int)
    requires
        query_facts(t, q, ns, fl),
        covered(q, k),
        0 <= m < ns.len(),
        kv_of(ns[m]) matches Some(p) && lex_lt(k, p.0),
        forall|p: int| 0 <= p < m && kv_of(#[trigger] ns[p]) is Some ==> lex_lt(kv_of(ns[p])->Some_0.0, k),
    ensures
        m == 0 || kv_of(ns[m - 1]) is Some,
{
    let km = kv_of(ns[m])->Some_0.0;
    lemma_lex_order();
    lemma_min_max(t);
    lemma_get_has(t, k);
    assert(tree_get(t, km) is Some);
    lemma_get_has(t, km);
    if has_key(t, k) {
        assert(shows(ns, k, tree_get(t, k)->Some_0));
        let p = choose|p: int| 0 <= p < ns.len() && #[trigger] ns[p] == NodeV::KV(k, tree_get(t, k)->Some_0);
        assert(kv_of(ns[p]) is Some);
        if p > m {
            lemma_kv_increasing_at(ns, m, p);
        }
        assert(false);
    }
    if lex_lt(k, min_key(t)) {
        assert(covered(q, k) && lex_lt(k, min_key(t)));
        if m > 0 {
            assert(kv_of(ns[0]) is Some);
            assert(false);
        }
    } else if lex_lt(max_key(t), k) {
        assert(false);
    } else {
        assert(k != min_key(t) && k != max_key(t));
        assert(gap(ns, k));
        let p = choose|p: int| #[trigger] gap_at(ns, k, p);
        if p < m {
            assert(kv_of(ns[p]) is Some);
            assert(false);
        } else if p > m {
            if p - 1 > m {
                lemma_kv_increasing_at(ns, m, p - 1);
            }
            assert(false);
        }
    }
}

/// A covered key above every pushed pair: the proof ends with a pair.
proof fn lemma_covered_after(t: TreeS, q: Seq<QueryItemV>, ns: Seq<NodeV>, fl: (bool, bool), k: Seq<u8>)
    requires
        query_facts(t, q, ns, fl),
        covered(q, k),
        forall|p: int| 0 <= p < ns.len() && kv_of(#[trigger] ns[p]) is Some ==> lex_lt(kv_of(ns[p])->Some_0.0, k),
    ensures
        ns.len() > 0 && kv_of(ns.last()) is Some,
{
    lemma_lex_order();
    lemma_min_max(t);
    lemma_get_has(t, k);
    if has_key(t, k) {
        assert(shows(ns, k, tree_get(t, k)->Some_0));
        let p = choose|p: int| 0 <= p < ns.len() && #[trigger] ns[p] == NodeV::KV(k, tree_get(t, k)->Some_0);
        assert(kv_of(ns[p]) is Some);
        assert(false);
    }
    if lex_lt(k, min_key(t)) {
        assert(covered(q, k) && lex_lt(k, min_key(t)));
        assert(kv_of(ns[0]) is Some);
        assert(false);
    } else if lex_lt(max_key(t), k) {
        assert(covered(q, k) && lex_lt(max_key(t), k));
        assert(kv_of(ns[ns.len() - 1]) is Some);
    } else {
        assert(k != min_key(t) && k != max_key(t));
        assert(gap(ns, k));
        let p = choose|p: int| #[trigger] gap_at(ns, k, p);
        assert(kv_of(ns[p]) is Some);
        assert(false);
    }
}

/// The pushed pairs that the query covers, in order.
pub open spec fn covered_kvs(q: Seq<QueryItemV>, ns: Seq<NodeV>) -> Seq<(Seq<u8>, Seq<u8>)>
    decreases ns.len(),
{
    if ns.len() == 0 {
        Seq::empty()
    } else {
        let prev = covered_kvs(q, ns.drop_last());
        match kv_of(ns.last()) {
            Some(p) => if covered(q, p.0) {
                prev.push(p)
            } else {
                prev
            },
            None => prev,
        }
    }
}


/// Every pair pushed before position `m` is at most the last one.
proof fn lemma_before_last(ns: Seq<NodeV>, m: int)
    requires
        keys_increasing(kv_entries(ns)),
        0 <= m <= ns.len(),
    ensures
        -1 <= last_kv_index(ns, m) < m,
        last_kv_index(ns, m) >= 0 ==> kv_of(ns[last_kv_index(ns, m)]) is Some,
        forall|p: int| last_kv_index(ns, m) < p < m ==> kv_of(#[trigger] ns[p]) is None,
        forall|p: int|
            0 <= p < m && kv_of(#[trigger] ns[p]) is Some ==> last_kv_index(ns, m) >= 0 && lex_le(
                kv_of(ns[p])->Some_0.0,
                kv_of(ns[last_kv_index(ns, m)])->Some_0.0,
            ),
{
    lemma_last_kv_index(ns, m);
    let ix = last_kv_index(ns, m);
    assert forall|p: int|
        0 <= p < m && kv_of(#[trigger] ns[p]) is Some implies ix >= 0 && lex_le(
            kv_of(ns[p])->Some_0.0,
            kv_of(ns[ix])->Some_0.0,
        ) by {
        if p < ix {
            lemma_kv_increasing_at(ns, p, ix);
        }
    }
}

/// The query checks over the first `j` pushes: the covered pairs so far are
/// output, the cursor stands at the first item reaching above the last pair
/// pushed, and a range is open exactly where that item started at or below
/// that pair.
proof fn lemma_query_prefix(t: TreeS, q: Seq<QueryItemV>, ns: Seq<NodeV>, fl: (bool, bool), j: int) -> (qi: int)
    requires
        query_facts(t, q, ns, fl),
        0 <= j <= ns.len(),
    ensures
        0 <= qi <= q.len(),
        last_kv_index(ns, j) < 0 ==> qi == 0,
        last_kv_index(ns, j) >= 0 ==> forall|m: int|
            0 <= m < qi ==> lex_le(#[trigger] q[m].upper, kv_of(ns[last_kv_index(ns, j)])->Some_0.0),
        last_kv_index(ns, j) >= 0 ==> forall|m: int|
            qi <= m < q.len() ==> lex_lt(kv_of(ns[last_kv_index(ns, j)])->Some_0.0, #[trigger] q[m].upper),
        query_nodes(q, query_init().cursor, ns.take(j)) == Ok::<CursorV, Fault>(
            CursorV {
                output: covered_kvs(q, ns.take(j)),
                last_push: if j == 0 {
                    None
                } else {
                    Some(ns[j - 1])
                },
                qi: qi,
                in_range: qi < q.len() && last_kv_index(ns, j) >= 0 && lex_le(
                    q[qi].lower,
                    kv_of(ns[last_kv_index(ns, j)])->Some_0.0,
                ),
            },
        ),
    decreases j,
{
    lemma_lex_order();
    if j == 0 {
        assert(ns.take(0) =~= Seq::<NodeV>::empty());
        0
    } else {
        let qi0 = lemma_query_prefix(t, q, ns, fl, j - 1);
        let prefix = ns.take(j - 1);
        let n = ns[j - 1];
        assert(ns.take(j) =~= prefix.push(n));
        assert(ns.take(j).drop_last() =~= prefix);
        lemma_query_nodes_push(q, query_init().cursor, prefix, n);
        lemma_before_last(ns, j - 1);
        let ix0 = last_kv_index(ns, j - 1);
        let in0 = qi0 < q.len() && ix0 >= 0 && lex_le(q[qi0].lower, kv_of(ns[ix0])->Some_0.0);
        let c = CursorV {
            output: covered_kvs(q, prefix),
            last_push: if j - 1 == 0 {
                None
            } else {
                Some(ns[j - 2])
            },
            qi: qi0,
            in_range: in0,
        };
        match n {
            NodeV::KV(key, v) => {
                assert(kv_of(ns[j - 1]) == Some((key, v)));
                assert(last_kv_index(ns, j) == j - 1);
                if ix0 >= 0 {
                    lemma_kv_increasing_at(ns, ix0, j - 1);
                }
                assert forall|m: int| 0 <= m < c.qi implies !item_contains(#[trigger] q[m], key) by {
                    assert(lex_le(q[m].upper, kv_of(ns[ix0])->Some_0.0));
                }
                assert forall|m: int|
                    c.qi <= m < q.len() && lex_le(#[trigger] q[m].lower, key) && !(m == c.qi && c.in_range) implies (
                    key == q[m].lower || c.last_push is None || c.last_push matches Some(NodeV::KV(_, _))) by {
                    let lo = q[m].lower;
                    if lo != key {
                        assert(item_wf(q[m]));
                        assert(item_contains(q[m], lo));
                        assert(covered(q, lo));
                        if ix0 >= 0 {
                            let x0 = kv_of(ns[ix0])->Some_0.0;
                            if m > c.qi {
                                lemma_sorted_pair(q, c.qi, m);
                            }
                            assert(lex_lt(x0, lo));
                        }
                        assert forall|p: int| 0 <= p < j - 1 && kv_of(#[trigger] ns[p]) is Some implies lex_lt(
                            kv_of(ns[p])->Some_0.0,
                            lo,
                        ) by {}
                        lemma_covered_between(t, q, ns, fl, lo, j - 1);
                    }
                }
                lemma_query_kv_loop(q, c, key, v);
                let qi = first_reaching(q, key, qi0);
                lemma_first_reaching(q, key, qi0);
                assert forall|m: int| 0 <= m < qi implies lex_le(#[trigger] q[m].upper, key) by {
                    if m < qi0 {
                        assert(lex_le(q[m].upper, kv_of(ns[ix0])->Some_0.0));
                    }
                }
                qi
            },
            _ => {
                assert(kv_of(ns[j - 1]) is None);
                assert(last_kv_index(ns, j) == ix0);
                if in0 {
                    let x0 = kv_of(ns[ix0])->Some_0.0;
                    assert(lex_lt(x0, q[qi0].upper));
                    assert(item_contains(q[qi0], x0));
                    assert(kv_of(ns[ix0 + 1]) is None);
                    assert(!lex_lt(x0, q[qi0].upper));
                }
                qi0
            },
        }
    }
}


/// The covered pairs among the first `j` pushes: their keys increase, each
/// is a covered pushed pair, and every covered pushed pair is among them.
proof fn lemma_covered_kvs(q: Seq<QueryItemV>, ns: Seq<NodeV>, j: int)
    requires
        keys_increasing(kv_entries(ns)),
        0 <= j <= ns.len(),
    ensures
        forall|a: int, b: int|
            0 <= a < b < covered_kvs(q, ns.take(j)).len() ==> lex_lt(
                #[trigger] covered_kvs(q, ns.take(j))[a].0,
                #[trigger] covered_kvs(q, ns.take(j))[b].0,
            ),
        forall|a: int|
            0 <= a < covered_kvs(q, ns.take(j)).len() ==> covered(q, (#[trigger] covered_kvs(q, ns.take(j))[a]).0)
                && exists|p: int|
                0 <= p < j && ns[p] == NodeV::KV(covered_kvs(q, ns.take(j))[a].0, covered_kvs(q, ns.take(j))[a].1),
        forall|p: int|
            0 <= p < j && kv_of(#[trigger] ns[p]) is Some && covered(q, kv_of(ns[p])->Some_0.0) ==> covered_kvs(
                q,
                ns.take(j),
            ).contains(kv_of(ns[p])->Some_0),
    decreases j,
{
    if j == 0 {
        assert(ns.take(0) =~= Seq::<NodeV>::empty());
    } else {
        lemma_covered_kvs(q, ns, j - 1);
        let prefix = ns.take(j - 1);
        assert(ns.take(j).drop_last() =~= prefix);
        assert(ns.take(j).last() == ns[j - 1]);
        let prev = covered_kvs(q, prefix);
        let cur = covered_kvs(q, ns.take(j));
        match kv_of(ns[j - 1]) {
            Some(pr) => {
                if covered(q, pr.0) {
                    assert(cur == prev.push(pr));
                    assert forall|a: int, b: int| 0 <= a < b < cur.len() implies lex_lt(
                        #[trigger] cur[a].0,
                        #[trigger] cur[b].0,
                    ) by {
                        if b == cur.len() - 1 {
                            let p = choose|p: int|
                                0 <= p < j - 1 && ns[p] == NodeV::KV(prev[a].0, prev[a].1);
                            assert(kv_of(ns[p]) is Some);
                            lemma_kv_increasing_at(ns, p, j - 1);
                        } else {
                            assert(cur[a] == prev[a] && cur[b] == prev[b]);
                        }
                    }
                    assert forall|a: int| 0 <= a < cur.len() implies covered(q, (#[trigger] cur[a]).0) && exists|p: int|
                        0 <= p < j && ns[p] == NodeV::KV(cur[a].0, cur[a].1) by {
                        if a < prev.len() {
                            assert(cur[a] == prev[a]);
                            let p = choose|p: int|
                                0 <= p < j - 1 && ns[p] == NodeV::KV(prev[a].0, prev[a].1);
                            assert(ns[p] == NodeV::KV(cur[a].0, cur[a].1));
                        } else {
                            assert(ns[j - 1] == NodeV::KV(cur[a].0, cur[a].1));
                        }
                    }
                    assert forall|p: int|
                        0 <= p < j && kv_of(#[trigger] ns[p]) is Some && covered(q, kv_of(ns[p])->Some_0.0) implies cur.contains(
                        kv_of(ns[p])->Some_0,
                    ) by {
                        if p < j - 1 {
                            let a = choose|a: int| 0 <= a < prev.len() && prev[a] == kv_of(ns[p])->Some_0;
                            assert(cur[a] == prev[a]);
                        } else {
                            assert(cur[cur.len() - 1] == pr);
                        }
                    }
                } else {
                    assert(cur == prev);
                }
            },
            None => {
                assert(cur == prev);
            },
        }
    }
}

/// A pair whose key an item covers and reaches above is followed by a pair
/// where anything follows it.
proof fn lemma_query_end_open(t: TreeS, q: Seq<QueryItemV>, ns: Seq<NodeV>, fl: (bool, bool), qi: int, ix: int)
    requires
        query_facts(t, q, ns, fl),
        0 <= qi < q.len(),
        0 <= ix < ns.len(),
        kv_of(ns[ix]) is Some,
        forall|p: int| ix < p < ns.len() ==> kv_of(#[trigger] ns[p]) is None,
        lex_le(q[qi].lower, kv_of(ns[ix])->Some_0.0),
        lex_lt(kv_of(ns[ix])->Some_0.0, q[qi].upper),
    ensures
        kv_of(ns.last()) is Some,
{
    let x = kv_of(ns[ix])->Some_0.0;
    assert(item_contains(q[qi], x));
    if ix < ns.len() - 1 {
        assert(kv_of(ns[ix + 1]) is None);
        assert(!lex_lt(x, q[qi].upper));
    }
}

/// At the end of the pushes, an item left unanswered reaches above every
/// pushed pair, so the proof must end with a pair.
#[verifier::rlimit(60)]
proof fn lemma_query_end(t: TreeS, q: Seq<QueryItemV>, ns: Seq<NodeV>, fl: (bool, bool), qi: int)
    requires
        query_facts(t, q, ns, fl),
        0 <= qi < q.len(),
        last_kv_index(ns, ns.len() as int) >= 0 ==> forall|m: int|
            qi <= m < q.len() ==> lex_lt(
                kv_of(ns[last_kv_index(ns, ns.len() as int)])->Some_0.0,
                #[trigger] q[m].upper,
            ),
    ensures
        ns.len() > 0 && kv_of(ns.last()) is Some,
{
    let n = ns.len() as int;
    lemma_before_last(ns, n);
    let ix = last_kv_index(ns, n);
    if ix >= 0 && lex_le(q[qi].lower, kv_of(ns[ix])->Some_0.0) {
        lemma_query_end_open(t, q, ns, fl, qi, ix);
    } else {
        let lo = q[qi].lower;
        assert(covered(q, lo)) by {
            lemma_lex_order();
            assert(item_wf(q[qi]));
            assert(item_contains(q[qi], lo));
        }
        assert forall|p: int| 0 <= p < ns.len() && kv_of(#[trigger] ns[p]) is Some implies lex_lt(
            kv_of(ns[p])->Some_0.0,
            lo,
        ) by {
            lemma_lex_order();
        }
        lemma_covered_after(t, q, ns, fl, lo);
    }
}

/// The covered pushed pairs are exactly the tree's covered pairs.
proof fn lemma_query_output(t: TreeS, q: Seq<QueryItemV>, ns: Seq<NodeV>, fl: (bool, bool))
    requires
        query_facts(t, q, ns, fl),
    ensures
        forall|a: int, b: int|
            0 <= a < b < covered_kvs(q, ns).len() ==> lex_lt(
                (#[trigger] covered_kvs(q, ns)[a]).0,
                (#[trigger] covered_kvs(q, ns)[b]).0,
            ),
        forall|k: Seq<u8>, v: Seq<u8>|
            #[trigger] covered_kvs(q, ns).contains((k, v)) <==> covered(q, k) && tree_get(t, k) == Some(v),
{
    let n = ns.len() as int;
    lemma_covered_kvs(q, ns, n);
    assert(ns.take(n) =~= ns);
    let out = covered_kvs(q, ns);
    assert forall|k: Seq<u8>, v: Seq<u8>| #[trigger] out.contains((k, v)) <==> covered(q, k) && tree_get(t, k) == Some(v) by {
        if out.contains((k, v)) {
            let a = choose|a: int| 0 <= a < out.len() && out[a] == (k, v);
            let p = choose|p: int| 0 <= p < n && ns[p] == NodeV::KV(out[a].0, out[a].1);
            assert(kv_of(ns[p]) is Some);
        }
        if covered(q, k) && tree_get(t, k) == Some(v) {
            lemma_get_has(t, k);
            let p = choose|p: int| 0 <= p < ns.len() && #[trigger] ns[p] == NodeV::KV(k, tree_get(t, k)->Some_0);
            assert(kv_of(ns[p]) == Some((k, v)));
        }
    }
}

/// What a proof answers for a query: a proof that `create_proof` builds for
/// a consistent, ordered tree and a sorted query, once encoded and checked
/// by `verify_query` against the tree's root hash, is accepted, and gives
/// back, in increasing key order, exactly the tree's pairs whose keys the
/// query covers.
pub proof fn lemma_query_proof_answers(t: TreeS, q: Seq<QueryItemV>)
    requires
        consistent(t),
        ordered(t),
        provable(t, q),
        lens_ok(t),
        sorted_items(q),
        items_wf(q),
    ensures
        verify_query_spec(ops_bytes(proof_spec(t, q).0), q, tree_hash(t)) is Ok,
        forall|a: int, b: int|
            0 <= a < b < verify_query_spec(ops_bytes(proof_spec(t, q).0), q, tree_hash(t))->Ok_0.len() ==> lex_lt(
                (#[trigger] verify_query_spec(ops_bytes(proof_spec(t, q).0), q, tree_hash(t))->Ok_0[a]).0,
                (#[trigger] verify_query_spec(ops_bytes(proof_spec(t, q).0), q, tree_hash(t))->Ok_0[b]).0,
            ),
        forall|k: Seq<u8>, v: Seq<u8>|
            #[trigger] verify_query_spec(ops_bytes(proof_spec(t, q).0), q, tree_hash(t))->Ok_0.contains((k, v))
                <==> covered(q, k) && tree_get(t, k) == Some(v),
{
    let ops = proof_spec(t, q).0;
    let fl = proof_spec(t, q).1;
    let ns = pushes(ops);
    assert(query_facts(t, q, ns, fl)) by {
        lemma_answers(t, q);
        lemma_no_hole(t, q);
        lemma_proof_verifies(t, q);
        lemma_proof_encodable(t, q);
        lemma_decode_stream_ops_bytes(ops);
        assert(verify_run(verify_init(), ops) is Ok);
        lemma_verify_map(ops);
    }
    lemma_proof_verifies(t, q);
    lemma_proof_encodable(t, q);
    lemma_decode_stream_ops_bytes(ops);
    assert(verify_run(verify_init(), ops) is Ok);
    lemma_verify_run_ops(verify_init(), ops);
    let n = ns.len() as int;
    let qi = lemma_query_prefix(t, q, ns, fl, n);
    assert(ns.take(n) =~= ns);
    lemma_query_run_split(q, query_init(), ops);
    if qi < q.len() {
        lemma_query_end(t, q, ns, fl, qi);
    }
    lemma_query_output(t, q, ns, fl);
    assert(verify_query_spec(ops_bytes(ops), q, tree_hash(t)) == Ok::<Seq<(Seq<u8>, Seq<u8>)>, Fault>(
        covered_kvs(q, ns),
    ));
}

} // verus!
