//! The writes a commit sends to the store: the nodes that the tree wrote
//! and the keys deleted from it, merged and put in key order.
use vstd::prelude::*;

use crate::bytes::{compare, lemma_lex_order, lex_le, lex_lt, Order};

verus! {

broadcast use vstd::seq_lib::group_to_multiset_ensures;

/// A write as plain values: a key, and the value to store there or `None`
/// to delete it.
pub type WriteV = (Seq<u8>, Option<Seq<u8>>);

/// A write as plain values.
pub open spec fn write_view(w: (Vec<u8>, Option<Vec<u8>>)) -> WriteV {
    (
        w.0@,
        match w.1 {
            Some(v) => Some(v@),
            None => None,
        },
    )
}

/// Writes as plain values.
pub open spec fn writes_view(ws: Seq<(Vec<u8>, Option<Vec<u8>>)>) -> Seq<WriteV> {
    ws.map_values(|w: (Vec<u8>, Option<Vec<u8>>)| write_view(w))
}

/// Deleted keys as writes.
pub open spec fn deletions(keys: Seq<Vec<u8>>) -> Seq<WriteV> {
    keys.map_values(|k: Vec<u8>| (k@, None::<Seq<u8>>))
}

/// Places a write in a key-ordered list, after every write whose key is
/// not greater than its own.
pub open spec fn insert_write(s: Seq<WriteV>, x: WriteV) -> Seq<WriteV>
    decreases s.len(),
{
    if s.len() == 0 {
        seq![x]
    } else if lex_lt(x.0, s.last().0) {
        insert_write(s.drop_last(), x).push(s.last())
    } else {
        s.push(x)
    }
}

/// The writes in key order, writes with equal keys in the order given:
/// the order a stable sort by key gives.
pub open spec fn sort_writes(s: Seq<WriteV>) -> Seq<WriteV>
    decreases s.len(),
{
    if s.len() == 0 {
        s
    } else {
        insert_write(sort_writes(s.drop_last()), s.last())
    }
}

/// Whether the writes' keys never decrease.
pub open spec fn keys_ascending(s: Seq<WriteV>) -> bool {
    forall|i: int, j: int| 0 <= i < j < s.len() ==> lex_le(s[i].0, s[j].0)
}

proof fn lemma_insert_at(s: Seq<WriteV>, x: WriteV, j: int)
    requires
        0 <= j <= s.len(),
        forall|i: int| j <= i < s.len() ==> lex_lt(x.0, #[trigger] s[i].0),
        j == 0 || !lex_lt(x.0, s[j - 1].0),
    ensures
        insert_write(s, x) == s.take(j).push(x) + s.skip(j),
    decreases s.len(),
{
    if s.len() == 0 {
        assert(s.take(j).push(x) + s.skip(j) =~= seq![x]);
    } else if j == s.len() {
        assert(s.take(j).push(x) + s.skip(j) =~= s.push(x));
    } else {
        let t = s.drop_last();
        assert(lex_lt(x.0, s[s.len() - 1].0));
        lemma_insert_at(t, x, j);
        assert(s.take(j).push(x) + s.skip(j) =~= (t.take(j).push(x) + t.skip(j)).push(s.last()));
    }
}

proof fn lemma_insert_keeps(s: Seq<WriteV>, x: WriteV)
    ensures
        insert_write(s, x).to_multiset() == s.to_multiset().insert(x),
        keys_ascending(s) ==> keys_ascending(insert_write(s, x)),
    decreases s.len(),
{
    lemma_lex_order();
    if s.len() == 0 {
        assert(seq![x] =~= Seq::<WriteV>::empty().push(x));
    } else if lex_lt(x.0, s.last().0) {
        let t = s.drop_last();
        lemma_insert_keeps(t, x);
        assert(s =~= t.push(s.last()));
        let r = insert_write(t, x);
        if keys_ascending(s) {
            assert(keys_ascending(t));
            assert forall|i: int, j: int| 0 <= i < j < r.push(s.last()).len() implies lex_le(
                r.push(s.last())[i].0,
                r.push(s.last())[j].0,
            ) by {
                if j == r.len() {
                    assert(r.to_multiset().count(r[i]) > 0);
                    assert(t.push(x).to_multiset() == t.to_multiset().insert(x));
                    assert(t.push(x).to_multiset().count(r[i]) > 0);
                    let k = choose|k: int| 0 <= k < t.push(x).len() && t.push(x)[k] == r[i];
                    if k < t.len() {
                        assert(lex_le(t[k].0, s[s.len() - 1].0));
                    }
                }
            }
        }
    } else {
        assert(lex_le(s.last().0, x.0));
        if keys_ascending(s) {
            assert forall|i: int, j: int| 0 <= i < j < s.push(x).len() implies lex_le(
                s.push(x)[i].0,
                s.push(x)[j].0,
            ) by {
                if j == s.len() && i < s.len() - 1 {
                    assert(lex_le(s[i].0, s[s.len() - 1].0));
                    assert(lex_le(s[i].0, x.0));
                }
            }
        }
    }
}

/// The sorted writes are the writes given, each once, with keys that never
/// decrease.
pub proof fn lemma_sort_writes(s: Seq<WriteV>)
    ensures
        sort_writes(s).to_multiset() == s.to_multiset(),
        keys_ascending(sort_writes(s)),
    decreases s.len(),
{
    if s.len() > 0 {
        lemma_sort_writes(s.drop_last());
        lemma_insert_keeps(sort_writes(s.drop_last()), s.last());
        assert(s =~= s.drop_last().push(s.last()));
    }
}

fn insert_sorted(out: &mut Vec<(Vec<u8>, Option<Vec<u8>>)>, w: (Vec<u8>, Option<Vec<u8>>))
    ensures
        writes_view(final(out)@) == insert_write(writes_view(old(out)@), write_view(w)),
{
    let ghost s = writes_view(out@);
    let mut j: usize = out.len();
    while j > 0
        invariant_except_break
            j <= out@.len(),
            out@ == old(out)@,
            s == writes_view(out@),
            forall|i: int| j <= i < s.len() ==> lex_lt(w.0@, #[trigger] s[i].0),
        ensures
            j <= out@.len(),
            out@ == old(out)@,
            s == writes_view(out@),
            forall|i: int| j <= i < s.len() ==> lex_lt(w.0@, #[trigger] s[i].0),
            j == 0 || !lex_lt(w.0@, s[j - 1].0),
        decreases j,
    {
        let o = compare(w.0.as_slice(), out[j - 1].0.as_slice());
        proof {
            lemma_lex_order();
            assert(s[j - 1].0 == out@[j - 1].0@);
        }
        match o {
            Order::Less => {
                j = j - 1;
            },
            _ => {
                break;
            },
        }
    }
    proof {
        lemma_insert_at(s, write_view(w), j as int);
    }
    out.insert(j, w);
    assert(writes_view(out@) =~= s.take(j as int).push(write_view(w)) + s.skip(j as int));
}

/// The writes of a commit in the order they go to the store: the nodes
/// written and then the deleted keys (as deletions), sorted by key with a
/// stable sort, so that writes of one key keep the order in which they were
/// given.
pub fn sorted_writes(written: Vec<(Vec<u8>, Option<Vec<u8>>)>, deleted: Vec<Vec<u8>>) -> (r: Vec<
    (Vec<u8>, Option<Vec<u8>>),
>)
    ensures
        writes_view(r@) == sort_writes(writes_view(written@) + deletions(deleted@)),
{
    let ghost total = writes_view(written@) + deletions(deleted@);
    let mut all = written;
    let mut rest = deleted;
    while rest.len() > 0
        invariant
            writes_view(all@) + deletions(rest@) == total,
        decreases rest.len(),
    {
        let ghost before = (writes_view(all@), deletions(rest@));
        let k = rest.remove(0);
        all.push((k, None));
        assert(writes_view(all@) =~= before.0.push((k@, None::<Seq<u8>>)));
        assert(deletions(rest@) =~= before.1.drop_first());
        assert(writes_view(all@) + deletions(rest@) =~= before.0 + before.1);
    }
    assert(writes_view(all@) =~= total);
    let mut out: Vec<(Vec<u8>, Option<Vec<u8>>)> = Vec::new();
    let ghost n: int = 0;
    while all.len() > 0
        invariant
            0 <= n <= total.len(),
            writes_view(all@) == total.skip(n),
            writes_view(out@) == sort_writes(total.take(n)),
        decreases all.len(),
    {
        assert(writes_view(all@).len() == all@.len());
        assert(n < total.len());
        assert(writes_view(all@)[0] == total[n]);
        let ghost first = all@[0];
        let ghost old_all = all@;
        let w = all.remove(0);
        assert(all@ =~= old_all.drop_first());
        assert(writes_view(all@) =~= writes_view(old_all).drop_first());
        assert(w == first);
        assert(write_view(w) == total[n]);
        insert_sorted(&mut out, w);
        assert(total.take(n + 1).drop_last() =~= total.take(n));
        assert(writes_view(all@) =~= total.skip(n + 1));
        proof {
            n = n + 1;
        }
    }
    assert(total.take(n) =~= total);
    out
}

} // verus!
