//! The entries a verified proof contains, and checked lookups into them.
use vstd::prelude::*;

use super::super::{Node, NodeV};
use crate::bytes::{compare, copy_bytes, lemma_lex_order, lex_le, lex_lt, Order};
use crate::error::{Error, Fault};

verus! {

/// The value of a map: its entries (key, whether the entry is contiguous
/// with the one before it, value) in key order, and whether the last entry
/// reaches the right edge of the proven data.
pub struct MapV {
    pub entries: Seq<(Seq<u8>, bool, Seq<u8>)>,
    pub right_edge: bool,
}

/// Whether the keys of the entries strictly increase.
pub open spec fn keys_increasing(es: Seq<(Seq<u8>, bool, Seq<u8>)>) -> bool {
    forall|i: int, j: int| 0 <= i < j < es.len() ==> lex_lt(#[trigger] es[i].0, #[trigger] es[j].0)
}

/// Adding a proof node to a map under construction.
pub open spec fn builder_insert_spec(m: MapV, node: NodeV) -> Result<MapV, Fault> {
    match node {
        NodeV::KV(k, v) => if m.entries.len() > 0 && !lex_lt(m.entries.last().0, k) {
            Err(Fault::Key)
        } else {
            Ok(MapV { entries: m.entries.push((k, m.right_edge, v)), right_edge: true })
        },
        _ => Ok(MapV { entries: m.entries, right_edge: false }),
    }
}

/// The index of the first entry whose key is greater than or equal to `k`
/// (the number of entries when there is none).
pub open spec fn first_ge(es: Seq<(Seq<u8>, bool, Seq<u8>)>, k: Seq<u8>) -> nat
    decreases es.len(),
{
    if es.len() == 0 {
        0
    } else if lex_le(k, es[0].0) {
        0
    } else {
        1 + first_ge(es.drop_first(), k)
    }
}

/// The index of the first entry whose key is greater than `k` (the number
/// of entries when there is none).
pub open spec fn first_gt(es: Seq<(Seq<u8>, bool, Seq<u8>)>, k: Seq<u8>) -> nat
    decreases es.len(),
{
    if es.len() == 0 {
        0
    } else if lex_lt(k, es[0].0) {
        0
    } else {
        1 + first_gt(es.drop_first(), k)
    }
}

/// Whether the data after the entry at `i - 1` (or after the left edge
/// when `i == 0`) up to the next entry was proven without gaps.
pub open spec fn contiguous_at(m: MapV, i: int) -> bool {
    if 0 <= i < m.entries.len() {
        m.entries[i].1
    } else {
        m.right_edge
    }
}

/// Looking up a key: its value if the proof contains it, `None` if the proof
/// shows it absent, `MissingData` otherwise.
pub open spec fn map_get_spec(m: MapV, k: Seq<u8>) -> Result<Option<Seq<u8>>, Fault> {
    let i = first_ge(m.entries, k) as int;
    if i < m.entries.len() && m.entries[i].0 == k {
        Ok(Some(m.entries[i].2))
    } else if contiguous_at(m, i) {
        Ok(None)
    } else {
        Err(Fault::MissingData)
    }
}

/// `MapBuilder` allows a consumer to construct a `ProofMap` by inserting the
/// nodes contained in a proof, in key-order.
pub struct MapBuilder(ProofMap);

/// `ProofMap` stores data extracted from a proof (which has already been verified
/// against a known root hash), and allows a consumer to access the data by
/// looking up individual keys using the `get` method, or iterating over
/// ranges using the `range` method.
pub struct ProofMap {
    entries: Vec<(Vec<u8>, bool, Vec<u8>)>,
    right_edge: bool,
}

impl View for ProofMap {
    type V = MapV;

    closed spec fn view(&self) -> MapV {
        MapV {
            entries: self.entries@.map_values(
                |e: (Vec<u8>, bool, Vec<u8>)| (e.0@, e.1, e.2@),
            ),
            right_edge: self.right_edge,
        }
    }
}

impl View for MapBuilder {
    type V = MapV;

    closed spec fn view(&self) -> MapV {
        self.0@
    }
}

impl MapBuilder {
    /// The map built so far.
    pub fn map(&self) -> (m: &ProofMap)
        ensures
            m@ == self@,
    {
        &self.0
    }

    /// Creates a new `MapBuilder` with an empty internal `ProofMap`.
    pub fn new() -> (b: MapBuilder)
        ensures
            b@ == (MapV { entries: Seq::empty(), right_edge: true }),
    {
        let b = MapBuilder(ProofMap { entries: Vec::new(), right_edge: true });
        assert(b@.entries =~= Seq::<(Seq<u8>, bool, Seq<u8>)>::empty());
        b
    }

    /// Adds the node's data to the underlying `ProofMap` (if the node is a `KV`),
    /// or makes a note of non-contiguous data (if it is a `KVHash` or a
    /// `Hash`). Keys must be inserted in increasing order.
    pub fn insert(&mut self, node: &Node) -> (r: Result<(), Error>)
        ensures
            match builder_insert_spec(old(self)@, node@) {
                Ok(m) => r is Ok && final(self)@ == m,
                Err(f) => r matches Err(e) && e.fault() == f && final(self)@ == old(self)@,
            },
    {
        proof {
            lemma_lex_order();
        }
        match node {
            Node::KV(key, value) => {
                let n = self.0.entries.len();
                if n > 0 {
                    let prev = &self.0.entries[n - 1].0;
                    assert(self@.entries.last().0 == prev@);
                    if compare(key.as_slice(), prev.as_slice()) != Order::Greater {
                        return Err(Error::Key("Expected nodes to be in increasing key order".to_owned()));
                    }
                }
                let ghost before = self@;
                let entry = (copy_bytes(key.as_slice()), self.0.right_edge, copy_bytes(value.as_slice()));
                self.0.entries.push(entry);
                self.0.right_edge = true;
                assert(self@.entries =~= before.entries.push((key@, before.right_edge, value@)));
            },
            _ => {
                self.0.right_edge = false;
            },
        }
        Ok(())
    }

    /// Consumes the `MapBuilder` and returns its internal `ProofMap`.
    pub fn build(self) -> (m: ProofMap)
        ensures
            m@ == self@,
    {
        self.0
    }
}

/// One end of a key range.
#[derive(Debug)]
pub enum KeyBound {
    Included(Vec<u8>),
    Excluded(Vec<u8>),
    Unbounded,
}

/// The value of a `KeyBound`.
pub enum BoundV {
    Included(Seq<u8>),
    Excluded(Seq<u8>),
    Unbounded,
}

impl View for KeyBound {
    type V = BoundV;

    open spec fn view(&self) -> BoundV {
        match self {
            KeyBound::Included(k) => BoundV::Included(k@),
            KeyBound::Excluded(k) => BoundV::Excluded(k@),
            KeyBound::Unbounded => BoundV::Unbounded,
        }
    }
}

/// The state of a range iteration: the window `[lo, hi)` of entries not yet
/// taken from either end, the current bounds, and whether iteration ended.
pub struct RangeV {
    pub lo: int,
    pub hi: int,
    pub start: BoundV,
    pub end: BoundV,
    pub done: bool,
}

/// The first index of the window a range starts with.
pub open spec fn window_lo(m: MapV, start: BoundV) -> int {
    match start {
        BoundV::Unbounded => 0,
        BoundV::Included(k) | BoundV::Excluded(k) => {
            let g = first_gt(m.entries, k) as int;
            if g > 0 {
                g - 1
            } else {
                0
            }
        },
    }
}

/// The end index of the window a range starts with.
pub open spec fn window_hi(m: MapV, end: BoundV) -> int {
    match end {
        BoundV::Unbounded => m.entries.len() as int,
        BoundV::Included(k) | BoundV::Excluded(k) => {
            let g = first_ge(m.entries, k) as int;
            if g < m.entries.len() {
                g + 1
            } else {
                m.entries.len() as int
            }
        },
    }
}

/// Whether the bounds select a window that is not inverted: the last entry
/// at or below the start must not come after the first entry at or above
/// the end.
pub open spec fn range_ok(m: MapV, start: BoundV, end: BoundV) -> bool {
    match (start, end) {
        (BoundV::Unbounded, _) => true,
        (_, BoundV::Unbounded) => true,
        (BoundV::Included(s), BoundV::Included(e)) | (BoundV::Included(s), BoundV::Excluded(e)) | (
            BoundV::Excluded(s),
            BoundV::Included(e),
        ) | (BoundV::Excluded(s), BoundV::Excluded(e)) => {
            let g = first_gt(m.entries, s) as int;
            let h = first_ge(m.entries, e) as int;
            !(g > 0 && h < m.entries.len() && g - 1 > h)
        },
    }
}

/// The state of a new range iteration.
pub open spec fn range_init(m: MapV, start: BoundV, end: BoundV) -> RangeV {
    RangeV { lo: window_lo(m, start), hi: window_hi(m, end), start, end, done: false }
}

/// The result of one step of an iteration.
pub type RangeItem = Option<Result<(Seq<u8>, Seq<u8>), Fault>>;

/// Ends the iteration, with an error if the data was not contiguous.
pub open spec fn yield_none_if_contiguous(st: RangeV, contiguous: bool) -> (RangeV, RangeItem) {
    let st2 = RangeV { done: true, ..st };
    if !contiguous {
        (st2, Some(Err(Fault::MissingData)))
    } else {
        (st2, None)
    }
}

/// One forward step of a range iteration.
pub open spec fn range_next_spec(m: MapV, st: RangeV) -> (RangeV, RangeItem)
    decreases st.hi - st.lo,
{
    if st.done {
        (st, None)
    } else if st.lo >= st.hi || st.lo < 0 || st.hi > m.entries.len() {
        yield_none_if_contiguous(st, m.right_edge)
    } else {
        let e = m.entries[st.lo];
        let key = e.0;
        let contiguous = e.1;
        let st1 = RangeV { lo: st.lo + 1, ..st };
        let past_start = match st.start {
            BoundV::Unbounded => true,
            BoundV::Included(s) | BoundV::Excluded(s) => lex_lt(s, key),
        };
        let at_start = match st.start {
            BoundV::Unbounded => true,
            BoundV::Included(s) => key == s,
            BoundV::Excluded(_) => false,
        };
        let past_end = match st.end {
            BoundV::Unbounded => false,
            BoundV::Included(x) => lex_lt(x, key),
            BoundV::Excluded(x) => lex_le(x, key),
        };
        let yielded = (RangeV { start: BoundV::Excluded(key), ..st1 }, Some(Ok((key, e.2))));
        if past_end {
            yield_none_if_contiguous(st1, contiguous)
        } else if past_start {
            if !contiguous {
                (RangeV { done: true, ..st1 }, Some(Err(Fault::MissingData)))
            } else {
                yielded
            }
        } else if at_start {
            yielded
        } else if st1.lo < st1.hi && !m.entries[st1.lo].1 {
            (RangeV { done: true, ..st1 }, Some(Err(Fault::MissingData)))
        } else {
            range_next_spec(m, st1)
        }
    }
}

/// Whether a key lies within a range's bounds.
pub open spec fn within_bounds(start: BoundV, end: BoundV, k: Seq<u8>) -> bool {
    &&& match start {
        BoundV::Unbounded => true,
        BoundV::Included(s) => lex_le(s, k),
        BoundV::Excluded(s) => lex_lt(s, k),
    }
    &&& match end {
        BoundV::Unbounded => true,
        BoundV::Included(x) => lex_le(k, x),
        BoundV::Excluded(x) => lex_lt(k, x),
    }
}

/// A forward step of a range yields only an entry of the map, from the
/// window still ahead, whose key lies within the bounds; the next step
/// starts past it. It fails only on an entry, or the right edge, that is
/// not contiguous with what comes before.
pub proof fn lemma_range_next_sound(m: MapV, st: RangeV)
    ensures
        range_next_spec(m, st).1 matches Some(Ok((k, v))) ==> exists|i: int|
            st.lo <= i < st.hi && 0 <= i < m.entries.len() && m.entries[i].0 == k && m.entries[i].2 == v
                && within_bounds(st.start, st.end, k) && range_next_spec(m, st).0.start == BoundV::Excluded(k)
                && range_next_spec(m, st).0.lo == i + 1,
        range_next_spec(m, st).1 matches Some(Err(f)) ==> f == Fault::MissingData && (!m.right_edge || exists|i: int|
            st.lo <= i < st.hi && 0 <= i < m.entries.len() && !m.entries[i].1),
    decreases st.hi - st.lo,
{
    lemma_lex_order();
    if !st.done && !(st.lo >= st.hi || st.lo < 0 || st.hi > m.entries.len()) {
        let st1 = RangeV { lo: st.lo + 1, ..st };
        lemma_range_next_sound(m, st1);
    }
}

/// The flag of the first entry whose key is greater than `k`, or the right
/// edge flag when there is none.
pub open spec fn contiguous_right(m: MapV, k: Seq<u8>) -> bool {
    contiguous_at(m, first_gt(m.entries, k) as int)
}

/// One backward step of a range iteration.
pub open spec fn range_next_back_spec(m: MapV, st: RangeV) -> (RangeV, RangeItem)
    decreases st.hi - st.lo,
{
    if st.done {
        (st, None)
    } else if st.lo >= st.hi || st.lo < 0 || st.hi > m.entries.len() {
        yield_none_if_contiguous(st, contiguous_right(m, Seq::empty()))
    } else {
        let e = m.entries[st.hi - 1];
        let key = e.0;
        let contiguous_l = e.1;
        let contiguous_r = contiguous_right(m, key);
        let st1 = RangeV { hi: st.hi - 1, ..st };
        let before_end = match st.end {
            BoundV::Unbounded => true,
            BoundV::Included(x) | BoundV::Excluded(x) => lex_lt(key, x),
        };
        let at_end = match st.end {
            BoundV::Unbounded => true,
            BoundV::Included(x) => key == x,
            BoundV::Excluded(_) => false,
        };
        let before_start = match st.start {
            BoundV::Unbounded => false,
            BoundV::Included(s) => lex_lt(key, s),
            BoundV::Excluded(s) => lex_le(key, s),
        };
        let yielded = (RangeV { end: BoundV::Excluded(key), ..st1 }, Some(Ok((key, e.2))));
        if before_start {
            yield_none_if_contiguous(st1, contiguous_r)
        } else if before_end {
            if !contiguous_r {
                (RangeV { done: true, ..st1 }, Some(Err(Fault::MissingData)))
            } else {
                yielded
            }
        } else if at_end {
            yielded
        } else if !contiguous_l {
            (RangeV { done: true, ..st1 }, Some(Err(Fault::MissingData)))
        } else {
            range_next_back_spec(m, st1)
        }
    }
}

/// Whether every entry is contiguous with the one before it and the last
/// entry reaches the right edge: the proof left no gap.
pub open spec fn all_contiguous(m: MapV) -> bool {
    &&& forall|i: int| 0 <= i < m.entries.len() ==> (#[trigger] m.entries[i]).1
    &&& m.right_edge
}

/// The (key, value) pairs of the entries at indexes `lo..hi` whose keys lie
/// within the bounds, in key order.
pub open spec fn within_idx(m: MapV, lo: int, hi: int, start: BoundV, end: BoundV) -> Seq<(Seq<u8>, Seq<u8>)>
    decreases hi - lo,
{
    if lo >= hi {
        Seq::empty()
    } else {
        let e = m.entries[lo];
        (if within_bounds(start, end, e.0) {
            seq![(e.0, e.2)]
        } else {
            Seq::empty()
        }) + within_idx(m, lo + 1, hi, start, end)
    }
}

/// The (key, value) pairs of the map whose keys lie within the bounds, in
/// key order.
pub open spec fn entries_within(m: MapV, start: BoundV, end: BoundV) -> Seq<(Seq<u8>, Seq<u8>)> {
    within_idx(m, 0, m.entries.len() as int, start, end)
}

/// What at most `n` forward steps yield: the entries yielded, and the item
/// that ended the iteration (`None` when `n` steps did not end it).
pub open spec fn run_next(m: MapV, st: RangeV, n: nat) -> (Seq<(Seq<u8>, Seq<u8>)>, Option<RangeItem>)
    decreases n,
{
    if n == 0 {
        (Seq::empty(), None)
    } else {
        let (st2, item) = range_next_spec(m, st);
        match item {
            Some(Ok(kv)) => {
                let (rest, fin) = run_next(m, st2, (n - 1) as nat);
                (seq![kv] + rest, fin)
            },
            _ => (Seq::empty(), Some(item)),
        }
    }
}

/// What at most `n` backward steps yield, as `run_next` does forwards.
pub open spec fn run_next_back(m: MapV, st: RangeV, n: nat) -> (Seq<(Seq<u8>, Seq<u8>)>, Option<RangeItem>)
    decreases n,
{
    if n == 0 {
        (Seq::empty(), None)
    } else {
        let (st2, item) = range_next_back_spec(m, st);
        match item {
            Some(Ok(kv)) => {
                let (rest, fin) = run_next_back(m, st2, (n - 1) as nat);
                (seq![kv] + rest, fin)
            },
            _ => (Seq::empty(), Some(item)),
        }
    }
}

proof fn lemma_first_ge_props(es: Seq<(Seq<u8>, bool, Seq<u8>)>, k: Seq<u8>)
    ensures
        first_ge(es, k) <= es.len(),
        forall|i: int| 0 <= i < first_ge(es, k) ==> lex_lt(#[trigger] es[i].0, k),
        first_ge(es, k) < es.len() ==> lex_le(k, es[first_ge(es, k) as int].0),
    decreases es.len(),
{
    lemma_lex_order();
    if es.len() > 0 && !lex_le(k, es[0].0) {
        lemma_first_ge_props(es.drop_first(), k);
        assert forall|i: int| 0 <= i < first_ge(es, k) implies lex_lt(#[trigger] es[i].0, k) by {
            if i > 0 {
                assert(es[i] == es.drop_first()[i - 1]);
            }
        }
    }
}

proof fn lemma_first_gt_props(es: Seq<(Seq<u8>, bool, Seq<u8>)>, k: Seq<u8>)
    ensures
        first_gt(es, k) <= es.len(),
        forall|i: int| 0 <= i < first_gt(es, k) ==> lex_le(#[trigger] es[i].0, k),
        first_gt(es, k) < es.len() ==> lex_lt(k, es[first_gt(es, k) as int].0),
    decreases es.len(),
{
    lemma_lex_order();
    if es.len() > 0 && !lex_lt(k, es[0].0) {
        lemma_first_gt_props(es.drop_first(), k);
        assert forall|i: int| 0 <= i < first_gt(es, k) implies lex_le(#[trigger] es[i].0, k) by {
            if i > 0 {
                assert(es[i] == es.drop_first()[i - 1]);
            }
        }
    }
}

proof fn lemma_within_none(m: MapV, lo: int, hi: int, start: BoundV, end: BoundV)
    requires
        forall|i: int| lo <= i < hi ==> !within_bounds(start, end, (#[trigger] m.entries[i]).0),
    ensures
        within_idx(m, lo, hi, start, end) == Seq::<(Seq<u8>, Seq<u8>)>::empty(),
    decreases hi - lo,
{
    if lo < hi {
        lemma_within_none(m, lo + 1, hi, start, end);
        assert(!within_bounds(start, end, m.entries[lo].0));
    }
}

proof fn lemma_within_split(m: MapV, lo: int, mid: int, hi: int, start: BoundV, end: BoundV)
    requires
        lo <= mid <= hi,
    ensures
        within_idx(m, lo, hi, start, end) == within_idx(m, lo, mid, start, end) + within_idx(m, mid, hi, start, end),
    decreases mid - lo,
{
    if lo < mid {
        lemma_within_split(m, lo + 1, mid, hi, start, end);
        let e = m.entries[lo];
        let head = if within_bounds(start, end, e.0) {
            seq![(e.0, e.2)]
        } else {
            Seq::empty()
        };
        assert(head + (within_idx(m, lo + 1, mid, start, end) + within_idx(m, mid, hi, start, end)) =~= (head
            + within_idx(m, lo + 1, mid, start, end)) + within_idx(m, mid, hi, start, end));
    } else {
        assert(within_idx(m, lo, mid, start, end) =~= Seq::<(Seq<u8>, Seq<u8>)>::empty());
        assert(within_idx(m, lo, hi, start, end) =~= Seq::<(Seq<u8>, Seq<u8>)>::empty() + within_idx(
            m,
            mid,
            hi,
            start,
            end,
        ));
    }
}

proof fn lemma_within_swap(m: MapV, lo: int, hi: int, s1: BoundV, e1: BoundV, s2: BoundV, e2: BoundV)
    requires
        forall|i: int|
            lo <= i < hi ==> within_bounds(s1, e1, (#[trigger] m.entries[i]).0) == within_bounds(s2, e2, m.entries[i].0),
    ensures
        within_idx(m, lo, hi, s1, e1) == within_idx(m, lo, hi, s2, e2),
    decreases hi - lo,
{
    if lo < hi {
        lemma_within_swap(m, lo + 1, hi, s1, e1, s2, e2);
        assert(within_bounds(s1, e1, m.entries[lo].0) == within_bounds(s2, e2, m.entries[lo].0));
    }
}

proof fn lemma_next_step(m: MapV, st: RangeV)
    requires
        keys_increasing(m.entries),
        all_contiguous(m),
        !st.done,
        0 <= st.lo,
        st.hi <= m.entries.len(),
    ensures
        ({
            let w = within_idx(m, st.lo, st.hi, st.start, st.end);
            let (st2, item) = range_next_spec(m, st);
            if w.len() == 0 {
                item is None
            } else {
                &&& item == Some(Ok::<(Seq<u8>, Seq<u8>), Fault>(w[0]))
                &&& !st2.done
                &&& st.lo < st2.lo
                &&& st2.hi == st.hi
                &&& within_idx(m, st2.lo, st2.hi, st2.start, st2.end) == w.drop_first()
            }
        }),
    decreases st.hi - st.lo,
{
    lemma_lex_order();
    if st.lo >= st.hi {
        return;
    }
    let lo = st.lo;
    let hi = st.hi;
    let e = m.entries[lo];
    let key = e.0;
    let st1 = RangeV { lo: lo + 1, ..st };
    let w = within_idx(m, lo, hi, st.start, st.end);
    let rest = within_idx(m, lo + 1, hi, st.start, st.end);
    assert(m.entries[lo].1);
    let past_start = match st.start {
        BoundV::Unbounded => true,
        BoundV::Included(s) | BoundV::Excluded(s) => lex_lt(s, key),
    };
    let at_start = match st.start {
        BoundV::Unbounded => true,
        BoundV::Included(s) => key == s,
        BoundV::Excluded(_) => false,
    };
    let past_end = match st.end {
        BoundV::Unbounded => false,
        BoundV::Included(x) => lex_lt(x, key),
        BoundV::Excluded(x) => lex_le(x, key),
    };
    if past_end {
        assert forall|i: int| lo <= i < hi implies !within_bounds(st.start, st.end, (#[trigger] m.entries[i]).0) by {
            if i > lo {
                assert(lex_lt(m.entries[lo].0, m.entries[i].0));
            }
        }
        lemma_within_none(m, lo, hi, st.start, st.end);
    } else if past_start || at_start {
        assert(within_bounds(st.start, st.end, key));
        assert(w =~= seq![(key, e.2)] + rest);
        let st2 = RangeV { start: BoundV::Excluded(key), ..st1 };
        assert forall|i: int| lo + 1 <= i < hi implies within_bounds(st.start, st.end, (#[trigger] m.entries[i]).0)
            == within_bounds(st2.start, st2.end, m.entries[i].0) by {
            assert(lex_lt(m.entries[lo].0, m.entries[i].0));
        }
        lemma_within_swap(m, lo + 1, hi, st.start, st.end, st2.start, st2.end);
        assert(w.drop_first() =~= rest);
    } else {
        assert(!within_bounds(st.start, st.end, key));
        assert(w =~= rest);
        if st1.lo < st1.hi {
            assert(m.entries[st1.lo].1);
        }
        lemma_next_step(m, st1);
    }
}

proof fn lemma_next_back_step(m: MapV, st: RangeV)
    requires
        keys_increasing(m.entries),
        all_contiguous(m),
        !st.done,
        0 <= st.lo,
        st.hi <= m.entries.len(),
    ensures
        ({
            let w = within_idx(m, st.lo, st.hi, st.start, st.end);
            let (st2, item) = range_next_back_spec(m, st);
            if w.len() == 0 {
                item is None
            } else {
                &&& item == Some(Ok::<(Seq<u8>, Seq<u8>), Fault>(w.last()))
                &&& !st2.done
                &&& st2.hi < st.hi
                &&& st2.lo == st.lo
                &&& 0 <= st2.hi
                &&& within_idx(m, st2.lo, st2.hi, st2.start, st2.end) == w.drop_last()
            }
        }),
    decreases st.hi - st.lo,
{
    lemma_lex_order();
    if st.lo >= st.hi {
        let g = first_gt(m.entries, Seq::empty()) as int;
        lemma_first_gt_props(m.entries, Seq::empty());
        if g < m.entries.len() {
            assert(m.entries[g].1);
        }
        return;
    }
    let lo = st.lo;
    let hi = st.hi;
    let e = m.entries[hi - 1];
    let key = e.0;
    let st1 = RangeV { hi: hi - 1, ..st };
    let w = within_idx(m, lo, hi, st.start, st.end);
    let rest = within_idx(m, lo, hi - 1, st.start, st.end);
    assert(m.entries[hi - 1].1);
    let g = first_gt(m.entries, key) as int;
    lemma_first_gt_props(m.entries, key);
    if g < m.entries.len() {
        assert(m.entries[g].1);
    }
    assert(contiguous_right(m, key));
    lemma_within_split(m, lo, hi - 1, hi, st.start, st.end);
    assert(within_idx(m, hi, hi, st.start, st.end) =~= Seq::<(Seq<u8>, Seq<u8>)>::empty());
    let before_end = match st.end {
        BoundV::Unbounded => true,
        BoundV::Included(x) | BoundV::Excluded(x) => lex_lt(key, x),
    };
    let at_end = match st.end {
        BoundV::Unbounded => true,
        BoundV::Included(x) => key == x,
        BoundV::Excluded(_) => false,
    };
    let before_start = match st.start {
        BoundV::Unbounded => false,
        BoundV::Included(s) => lex_lt(key, s),
        BoundV::Excluded(s) => lex_le(key, s),
    };
    if before_start {
        assert forall|i: int| lo <= i < hi implies !within_bounds(st.start, st.end, (#[trigger] m.entries[i]).0) by {
            if i < hi - 1 {
                assert(lex_lt(m.entries[i].0, m.entries[hi - 1].0));
            }
        }
        lemma_within_none(m, lo, hi, st.start, st.end);
    } else if before_end || at_end {
        assert(within_bounds(st.start, st.end, key));
        assert(w =~= rest + seq![(key, e.2)]);
        let st2 = RangeV { end: BoundV::Excluded(key), ..st1 };
        assert forall|i: int| lo <= i < hi - 1 implies within_bounds(st.start, st.end, (#[trigger] m.entries[i]).0)
            == within_bounds(st2.start, st2.end, m.entries[i].0) by {
            assert(lex_lt(m.entries[i].0, m.entries[hi - 1].0));
        }
        lemma_within_swap(m, lo, hi - 1, st.start, st.end, st2.start, st2.end);
        assert(w.drop_last() =~= rest);
    } else {
        assert(!within_bounds(st.start, st.end, key));
        assert(w =~= rest);
        lemma_next_back_step(m, st1);
    }
}

proof fn lemma_run_next(m: MapV, st: RangeV, n: nat)
    requires
        keys_increasing(m.entries),
        all_contiguous(m),
        !st.done,
        0 <= st.lo,
        st.hi <= m.entries.len(),
        n > st.hi - st.lo,
        n >= 1,
    ensures
        run_next(m, st, n) == (within_idx(m, st.lo, st.hi, st.start, st.end), Some(None::<Result<(Seq<u8>, Seq<u8>), Fault>>)),
    decreases n,
{
    let w = within_idx(m, st.lo, st.hi, st.start, st.end);
    lemma_next_step(m, st);
    let (st2, item) = range_next_spec(m, st);
    if w.len() == 0 {
        assert(w =~= Seq::<(Seq<u8>, Seq<u8>)>::empty());
    } else {
        lemma_run_next(m, st2, (n - 1) as nat);
        assert(seq![w[0]] + w.drop_first() =~= w);
    }
}

proof fn lemma_run_next_back(m: MapV, st: RangeV, n: nat)
    requires
        keys_increasing(m.entries),
        all_contiguous(m),
        !st.done,
        0 <= st.lo,
        st.hi <= m.entries.len(),
        n > st.hi - st.lo,
        n >= 1,
    ensures
        run_next_back(m, st, n) == (within_idx(m, st.lo, st.hi, st.start, st.end).reverse(), Some(
            None::<Result<(Seq<u8>, Seq<u8>), Fault>>,
        )),
    decreases n,
{
    let w = within_idx(m, st.lo, st.hi, st.start, st.end);
    lemma_next_back_step(m, st);
    let (st2, item) = range_next_back_spec(m, st);
    if w.len() == 0 {
        assert(w.reverse() =~= Seq::<(Seq<u8>, Seq<u8>)>::empty());
    } else {
        lemma_run_next_back(m, st2, (n - 1) as nat);
        assert(seq![w.last()] + w.drop_last().reverse() =~= w.reverse());
    }
}

proof fn lemma_window_holds_all(m: MapV, start: BoundV, end: BoundV)
    requires
        keys_increasing(m.entries),
        range_ok(m, start, end),
    ensures
        0 <= window_lo(m, start) <= window_hi(m, end) <= m.entries.len(),
        entries_within(m, start, end) == within_idx(m, window_lo(m, start), window_hi(m, end), start, end),
{
    lemma_lex_order();
    let n = m.entries.len() as int;
    let lo = window_lo(m, start);
    let hi = window_hi(m, end);
    match start {
        BoundV::Included(k) | BoundV::Excluded(k) => lemma_first_gt_props(m.entries, k),
        BoundV::Unbounded => {},
    }
    match end {
        BoundV::Included(k) | BoundV::Excluded(k) => lemma_first_ge_props(m.entries, k),
        BoundV::Unbounded => {},
    }
    assert(0 <= lo <= hi <= n);
    assert forall|i: int| 0 <= i < lo implies !within_bounds(start, end, (#[trigger] m.entries[i]).0) by {
        match start {
            BoundV::Included(k) | BoundV::Excluded(k) => {
                let g = first_gt(m.entries, k) as int;
                assert(lex_le(m.entries[g - 1].0, k));
                assert(lex_lt(m.entries[i].0, m.entries[g - 1].0));
            },
            BoundV::Unbounded => {},
        }
    }
    assert forall|i: int| hi <= i < n implies !within_bounds(start, end, (#[trigger] m.entries[i]).0) by {
        match end {
            BoundV::Included(k) | BoundV::Excluded(k) => {
                let h = first_ge(m.entries, k) as int;
                assert(lex_le(k, m.entries[h].0));
                assert(lex_lt(m.entries[h].0, m.entries[i].0));
            },
            BoundV::Unbounded => {},
        }
    }
    lemma_within_split(m, 0, lo, n, start, end);
    lemma_within_split(m, lo, hi, n, start, end);
    lemma_within_none(m, 0, lo, start, end);
    lemma_within_none(m, hi, n, start, end);
    assert(within_idx(m, 0, n, start, end) =~= within_idx(m, lo, hi, start, end));
}

/// Iterating a range forwards over a map with no gaps yields exactly the
/// entries whose keys lie within the range's bounds (an included bound's
/// own key among them), in increasing key order, and then ends with `None`.
pub proof fn lemma_range_forward_complete(m: MapV, start: BoundV, end: BoundV)
    requires
        keys_increasing(m.entries),
        all_contiguous(m),
        range_ok(m, start, end),
    ensures
        run_next(m, range_init(m, start, end), (m.entries.len() + 1) as nat) == (entries_within(m, start, end), Some(
            None::<Result<(Seq<u8>, Seq<u8>), Fault>>,
        )),
{
    lemma_window_holds_all(m, start, end);
    lemma_run_next(m, range_init(m, start, end), (m.entries.len() + 1) as nat);
}

/// Iterating a range backwards over a map with no gaps yields exactly the
/// entries whose keys lie within the range's bounds (an included bound's
/// own key among them), in decreasing key order, and then ends with `None`.
pub proof fn lemma_range_backward_complete(m: MapV, start: BoundV, end: BoundV)
    requires
        keys_increasing(m.entries),
        all_contiguous(m),
        range_ok(m, start, end),
    ensures
        run_next_back(m, range_init(m, start, end), (m.entries.len() + 1) as nat) == (
            entries_within(m, start, end).reverse(),
            Some(None::<Result<(Seq<u8>, Seq<u8>), Fault>>),
        ),
{
    lemma_window_holds_all(m, start, end);
    lemma_run_next_back(m, range_init(m, start, end), (m.entries.len() + 1) as nat);
}

/// An iterator over (key, value) entries as extracted from a verified proof.
/// If during iteration we encounter a gap in the data (e.g. the proof did
/// not include all nodes within the range), the iterator will yield an
/// error.
pub struct Range<'a> {
    map: &'a ProofMap,
    start: KeyBound,
    end: KeyBound,
    done: bool,
    lo: usize,
    hi: usize,
}

/// The value of a yielded item.
pub open spec fn item_view(r: Option<Result<(&[u8], &[u8]), Error>>) -> Option<Result<(Seq<u8>, Seq<u8>), Fault>> {
    match r {
        None => None,
        Some(Ok((k, v))) => Some(Ok((k@, v@))),
        Some(Err(e)) => Some(Err(e.fault())),
    }
}

fn copy_bound(b: &KeyBound) -> (r: KeyBound)
    ensures
        r@ == b@,
{
    match b {
        KeyBound::Included(k) => KeyBound::Included(copy_bytes(k.as_slice())),
        KeyBound::Excluded(k) => KeyBound::Excluded(copy_bytes(k.as_slice())),
        KeyBound::Unbounded => KeyBound::Unbounded,
    }
}

impl ProofMap {
    /// Whether the proof reaches the tree's right edge after the last entry.
    pub fn right_edge(&self) -> (r: bool)
        ensures
            r == self@.right_edge,
    {
        self.right_edge
    }

    /// The entries in key order: each key, whether it is contiguous with
    /// the entry before it, and its value.
    pub fn entries(&self) -> (r: &[(Vec<u8>, bool, Vec<u8>)])
        ensures
            r@.map_values(|e: (Vec<u8>, bool, Vec<u8>)| (e.0@, e.1, e.2@)) == self@.entries,
    {
        self.entries.as_slice()
    }

    /// Whether the keys strictly increase (true of every map a builder
    /// makes).
    pub closed spec fn wf(&self) -> bool {
        keys_increasing(self@.entries)
    }

    /// The index of the first entry whose key is at least `key`.
    fn index_ge(&self, key: &[u8]) -> (i: usize)
        ensures
            i == first_ge(self@.entries, key@),
            i <= self@.entries.len(),
    {
        proof {
            lemma_lex_order();
        }
        let n = self.entries.len();
        let mut i: usize = n;
        let mut r: usize = 0;
        let ghost es = self@.entries;
        while i > 0
            invariant
                i <= n,
                n == es.len(),
                es == self@.entries,
                r == first_ge(es.skip(i as int), key@),
                r <= n - i,
            decreases i,
        {
            i = i - 1;
            assert(es.skip(i as int).drop_first() =~= es.skip(i + 1));
            assert(es.skip(i as int)[0] == es[i as int]);
            assert(es[i as int].0 == self.entries@[i as int].0@);
            if compare(key, self.entries[i].0.as_slice()) != Order::Greater {
                r = 0;
            } else {
                r = r + 1;
            }
        }
        assert(es.skip(0) =~= es);
        r
    }

    /// The index of the first entry whose key is greater than `key`.
    fn index_gt(&self, key: &[u8]) -> (i: usize)
        ensures
            i == first_gt(self@.entries, key@),
            i <= self@.entries.len(),
    {
        proof {
            lemma_lex_order();
        }
        let n = self.entries.len();
        let mut i: usize = n;
        let mut r: usize = 0;
        let ghost es = self@.entries;
        while i > 0
            invariant
                i <= n,
                n == es.len(),
                es == self@.entries,
                r == first_gt(es.skip(i as int), key@),
                r <= n - i,
            decreases i,
        {
            i = i - 1;
            assert(es.skip(i as int).drop_first() =~= es.skip(i + 1));
            assert(es.skip(i as int)[0] == es[i as int]);
            assert(es[i as int].0 == self.entries@[i as int].0@);
            proof {
                crate::bytes::lemma_lex_irreflexive(key@);
            }
            if compare(key, self.entries[i].0.as_slice()) == Order::Less {
                r = 0;
            } else {
                r = r + 1;
            }
        }
        assert(es.skip(0) =~= es);
        r
    }

    fn contiguous_at(&self, i: usize) -> (r: bool)
        ensures
            r == contiguous_at(self@, i as int),
    {
        if i < self.entries.len() {
            self.entries[i].1
        } else {
            self.right_edge
        }
    }

    /// Gets the value for a single key, or `None` if the key was proven to
    /// not exist in the tree. If the proof does not include the data and
    /// also does not prove that the key is absent in the tree (meaning the
    /// proof is not valid), an error will be returned.
    pub fn get<'a>(&'a self, key: &[u8]) -> (r: Result<Option<&'a [u8]>, Error>)
        ensures
            match map_get_spec(self@, key@) {
                Ok(Some(v)) => r matches Ok(Some(x)) && x@ == v,
                Ok(None) => r matches Ok(None),
                Err(f) => r matches Err(e) && e.fault() == f,
            },
    {
        let i = self.index_ge(key);
        if i < self.entries.len() {
            let e = &self.entries[i];
            assert(self@.entries[i as int] == (e.0@, e.1, e.2@));
            if crate::bytes::bytes_eq(e.0.as_slice(), key) {
                return Ok(Some(e.2.as_slice()));
            }
        }
        if self.contiguous_at(i) {
            Ok(None)
        } else {
            Err(Error::MissingData)
        }
    }

    /// Returns an iterator over all (key, value) entries in the requested
    /// range of keys. If during iteration we encounter a gap in the data
    /// (e.g. the proof did not include all nodes within the range), the
    /// iterator will yield an error.
    pub fn range<'a>(&'a self, start: KeyBound, end: KeyBound) -> (r: Range<'a>)
        requires
            range_ok(self@, start@, end@),
        ensures
            r@ == range_init(self@, start@, end@),
            r.map()@ == self@,
            r.wf(),
    {
        let lo = match &start {
            KeyBound::Unbounded => 0,
            KeyBound::Included(k) | KeyBound::Excluded(k) => {
                let g = self.index_gt(k.as_slice());
                if g > 0 {
                    g - 1
                } else {
                    0
                }
            },
        };
        let hi = match &end {
            KeyBound::Unbounded => self.entries.len(),
            KeyBound::Included(k) | KeyBound::Excluded(k) => {
                let g = self.index_ge(k.as_slice());
                if g < self.entries.len() {
                    g + 1
                } else {
                    self.entries.len()
                }
            },
        };
        Range { map: self, start, end, done: false, lo, hi }
    }
}

impl<'a> View for Range<'a> {
    type V = RangeV;

    closed spec fn view(&self) -> RangeV {
        RangeV {
            lo: self.lo as int,
            hi: self.hi as int,
            start: self.start@,
            end: self.end@,
            done: self.done,
        }
    }
}

impl<'a> Range<'a> {
    /// The map being iterated.
    pub closed spec fn map(&self) -> &'a ProofMap {
        self.map
    }

    /// The window lies within the map's entries.
    pub closed spec fn wf(&self) -> bool {
        self.hi <= self.map@.entries.len()
    }

    fn key_in_bound_past_start(&self, key: &[u8]) -> (r: (bool, bool))
        ensures
            r.0 == match self.start@ {
                BoundV::Unbounded => true,
                BoundV::Included(s) | BoundV::Excluded(s) => lex_lt(s, key@),
            },
            r.1 == match self.start@ {
                BoundV::Unbounded => true,
                BoundV::Included(s) => key@ == s,
                BoundV::Excluded(_) => false,
            },
    {
        proof {
            lemma_lex_order();
        }
        match &self.start {
            KeyBound::Unbounded => (true, true),
            KeyBound::Included(s) => {
                let c = compare(key, s.as_slice());
                (c == Order::Greater, c == Order::Equal)
            },
            KeyBound::Excluded(s) => (compare(key, s.as_slice()) == Order::Greater, false),
        }
    }

    fn key_past_end(&self, key: &[u8]) -> (r: bool)
        ensures
            r == match self.end@ {
                BoundV::Unbounded => false,
                BoundV::Included(x) => lex_lt(x, key@),
                BoundV::Excluded(x) => lex_le(x, key@),
            },
    {
        proof {
            lemma_lex_order();
        }
        match &self.end {
            KeyBound::Unbounded => false,
            KeyBound::Included(x) => compare(key, x.as_slice()) == Order::Greater,
            KeyBound::Excluded(x) => compare(key, x.as_slice()) != Order::Less,
        }
    }

    /// Yields the next entry in key order, an error where the proof has a
    /// gap, or `None` at the end of the range.
    pub fn next(&mut self) -> (r: Option<Result<(&'a [u8], &'a [u8]), Error>>)
        requires
            old(self).wf(),
        ensures
            final(self).wf(),
            final(self).map() == old(self).map(),
            (final(self)@, item_view(r)) == range_next_spec(old(self).map()@, old(self)@),
        decreases old(self)@.hi - old(self)@.lo,
    {
        let ghost m = self.map@;
        if self.done {
            return None;
        }
        if self.lo >= self.hi {
            self.done = true;
            if !self.map.right_edge {
                return Some(Err(Error::MissingData));
            }
            return None;
        }
        let entry = &self.map.entries[self.lo];
        assert(m.entries[self.lo as int] == (entry.0@, entry.1, entry.2@));
        let key = entry.0.as_slice();
        let contiguous = entry.1;
        self.lo = self.lo + 1;
        let (past_start, at_start) = self.key_in_bound_past_start(key);
        let past_end = self.key_past_end(key);
        if past_end {
            self.done = true;
            if !contiguous {
                return Some(Err(Error::MissingData));
            }
            None
        } else if past_start || at_start {
            if past_start && !contiguous {
                self.done = true;
                return Some(Err(Error::MissingData));
            }
            self.start = KeyBound::Excluded(copy_bytes(key));
            Some(Ok((key, entry.2.as_slice())))
        } else {
            if self.lo < self.hi {
                let next = &self.map.entries[self.lo];
                assert(m.entries[self.lo as int].1 == next.1);
                if !next.1 {
                    self.done = true;
                    return Some(Err(Error::MissingData));
                }
            }
            self.next()
        }
    }

    /// Yields the previous entry in key order (iterating from the end of the
    /// range), an error where the proof has a gap, or `None` at the start.
    pub fn next_back(&mut self) -> (r: Option<Result<(&'a [u8], &'a [u8]), Error>>)
        requires
            old(self).wf(),
        ensures
            final(self).wf(),
            final(self).map() == old(self).map(),
            (final(self)@, item_view(r)) == range_next_back_spec(old(self).map()@, old(self)@),
        decreases old(self)@.hi - old(self)@.lo,
    {
        proof {
            lemma_lex_order();
        }
        let ghost m = self.map@;
        if self.done {
            return None;
        }
        if self.lo >= self.hi {
            self.done = true;
            let empty: Vec<u8> = Vec::new();
            let g = self.map.index_gt(empty.as_slice());
            if !self.map.contiguous_at(g) {
                return Some(Err(Error::MissingData));
            }
            return None;
        }
        let entry = &self.map.entries[self.hi - 1];
        assert(m.entries[self.hi - 1] == (entry.0@, entry.1, entry.2@));
        let key = entry.0.as_slice();
        let contiguous_l = entry.1;
        let g = self.map.index_gt(key);
        let contiguous_r = self.map.contiguous_at(g);
        self.hi = self.hi - 1;
        let before_end = match &self.end {
            KeyBound::Unbounded => true,
            KeyBound::Included(x) | KeyBound::Excluded(x) => compare(key, x.as_slice()) == Order::Less,
        };
        let at_end = match &self.end {
            KeyBound::Unbounded => true,
            KeyBound::Included(x) => compare(key, x.as_slice()) == Order::Equal,
            KeyBound::Excluded(_) => false,
        };
        let before_start = match &self.start {
            KeyBound::Unbounded => false,
            KeyBound::Included(s) => compare(key, s.as_slice()) == Order::Less,
            KeyBound::Excluded(s) => compare(key, s.as_slice()) != Order::Greater,
        };
        if before_start {
            self.done = true;
            if !contiguous_r {
                return Some(Err(Error::MissingData));
            }
            None
        } else if before_end || at_end {
            if before_end && !contiguous_r {
                self.done = true;
                return Some(Err(Error::MissingData));
            }
            self.end = KeyBound::Excluded(copy_bytes(key));
            Some(Ok((key, entry.2.as_slice())))
        } else {
            if !contiguous_l {
                self.done = true;
                return Some(Err(Error::MissingData));
            }
            self.next_back()
        }
    }
}

} // verus!
