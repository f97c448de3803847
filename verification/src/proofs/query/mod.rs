//! Queries (sets of keys and key ranges), and the verification of proofs
//! against a query or into a map of proven entries.
pub mod map;

use std::ops::{Range, RangeInclusive};
use vstd::prelude::*;

use super::encoding::{decode_stream, decode_spec, encodable, lemma_decode_len, op_len};
use super::tree::{exec_op, finish_spec, init_state, run_ops, tree_hash_spec, ExecState, Executor};
use super::{Decoder, Node, NodeV, Op, OpV};
use crate::bytes::{compare, copy_bytes, lemma_lex_order, lex_le, lex_lt, lex_order, Order};
use crate::error::{Error, Fault};
use crate::hash::hash_eq;
use map::{builder_insert_spec, MapBuilder, MapV, ProofMap};



verus! {

/// Returns the lower bound of an inclusive range. Trusted: calls
/// `RangeInclusive::start`, which returns the range's start as given to
/// `RangeInclusive::new`.
#[verifier::external_body]
fn inclusive_start(r: &RangeInclusive<Vec<u8>>) -> (s: &Vec<u8>)
    ensures
        *s == r@.start,
{
    r.start()
}

/// Returns the upper bound of an inclusive range. Trusted: calls
/// `RangeInclusive::end`, which returns the range's end as given to
/// `RangeInclusive::new`.
#[verifier::external_body]
fn inclusive_end(r: &RangeInclusive<Vec<u8>>) -> (e: &Vec<u8>)
    ensures
        *e == r@.end,
{
    r.end()
}

/// A `QueryItem` represents a key or range of keys to be included in a proof.
#[derive(Debug)]
pub enum QueryItem {
    Key(Vec<u8>),
    Range(Range<Vec<u8>>),
    RangeInclusive(RangeInclusive<Vec<u8>>),
}

/// The mathematical value of a `QueryItem`: its lower bound (always
/// inclusive), its upper bound, whether the upper bound is inclusive, and
/// whether the item is written as a single key.
pub struct QueryItemV {
    pub lower: Seq<u8>,
    pub upper: Seq<u8>,
    pub inclusive: bool,
    pub key: bool,
}

impl View for QueryItem {
    type V = QueryItemV;

    open spec fn view(&self) -> QueryItemV {
        match self {
            QueryItem::Key(k) => QueryItemV { lower: k@, upper: k@, inclusive: true, key: true },
            QueryItem::Range(r) => QueryItemV { lower: r.start@, upper: r.end@, inclusive: false, key: false },
            QueryItem::RangeInclusive(r) => QueryItemV {
                lower: r@.start@,
                upper: r@.end@,
                inclusive: true,
                key: false,
            },
        }
    }
}

/// Whether the item covers `key`.
pub open spec fn item_contains(q: QueryItemV, key: Seq<u8>) -> bool {
    lex_le(q.lower, key) && (lex_lt(key, q.upper) || (key == q.upper && q.inclusive))
}

/// How two items compare: `Equal` means they collide (overlap, or touch at
/// an inclusive bound).
pub open spec fn item_order(a: QueryItemV, b: QueryItemV) -> Order {
    let lu = lex_order(a.lower, b.upper);
    let ul = lex_order(a.upper, b.lower);
    match lu {
        Order::Less => match ul {
            Order::Less => Order::Less,
            Order::Equal => if a.inclusive {
                Order::Equal
            } else {
                Order::Less
            },
            Order::Greater => Order::Equal,
        },
        Order::Equal => if b.inclusive {
            Order::Equal
        } else {
            Order::Greater
        },
        Order::Greater => Order::Greater,
    }
}

/// The larger of two upper bounds, comparing the bound first and then
/// inclusiveness (an inclusive bound is the larger of two equal ones).
pub open spec fn max_upper(a: QueryItemV, b: QueryItemV) -> (Seq<u8>, bool) {
    if lex_lt(a.upper, b.upper) || (a.upper == b.upper && !a.inclusive) {
        (b.upper, b.inclusive)
    } else {
        (a.upper, a.inclusive)
    }
}

/// The item that spans both items.
pub open spec fn merge_spec(a: QueryItemV, b: QueryItemV) -> QueryItemV {
    let lower = if lex_le(a.lower, b.lower) {
        a.lower
    } else {
        b.lower
    };
    let up = max_upper(a, b);
    QueryItemV { lower, upper: up.0, inclusive: up.1, key: false }
}

impl QueryItem {
    /// The lower bound of the item (inclusive).
    pub fn lower_bound(&self) -> (r: &[u8])
        ensures
            r@ == self@.lower,
    {
        match self {
            QueryItem::Key(key) => key.as_slice(),
            QueryItem::Range(range) => range.start.as_slice(),
            QueryItem::RangeInclusive(range) => inclusive_start(range).as_slice(),
        }
    }

    /// The upper bound of the item, and whether it is inclusive.
    pub fn upper_bound(&self) -> (r: (&[u8], bool))
        ensures
            r.0@ == self@.upper,
            r.1 == self@.inclusive,
    {
        match self {
            QueryItem::Key(key) => (key.as_slice(), true),
            QueryItem::Range(range) => (range.end.as_slice(), false),
            QueryItem::RangeInclusive(range) => (inclusive_end(range).as_slice(), true),
        }
    }

    /// Whether the item covers `key`.
    pub fn contains(&self, key: &[u8]) -> (r: bool)
        ensures
            r == item_contains(self@, key@),
    {
        let (bound, inclusive) = self.upper_bound();
        let lo = compare(key, self.lower_bound());
        let hi = compare(key, bound);
        proof {
            lemma_lex_order();
        }
        lo != Order::Less && (hi == Order::Less || (hi == Order::Equal && inclusive))
    }

    /// Compares two items; `Equal` means that they collide.
    pub fn compare(&self, other: &QueryItem) -> (r: Order)
        ensures
            r == item_order(self@, other@),
    {
        let lu = compare(self.lower_bound(), other.upper_bound().0);
        let ul = compare(self.upper_bound().0, other.lower_bound());
        let self_inclusive = self.upper_bound().1;
        let other_inclusive = other.upper_bound().1;
        match lu {
            Order::Less => match ul {
                Order::Less => Order::Less,
                Order::Equal => if self_inclusive {
                    Order::Equal
                } else {
                    Order::Less
                },
                Order::Greater => Order::Equal,
            },
            Order::Equal => if other_inclusive {
                Order::Equal
            } else {
                Order::Greater
            },
            Order::Greater => Order::Greater,
        }
    }

    /// Returns an item that spans this item and `other`.
    pub fn merge(self, other: QueryItem) -> (r: QueryItem)
        ensures
            r@ == merge_spec(self@, other@),
    {
        proof {
            lemma_lex_order();
        }
        let lo = compare(self.lower_bound(), other.lower_bound());
        let start = if lo != Order::Greater {
            copy_bytes(self.lower_bound())
        } else {
            copy_bytes(other.lower_bound())
        };
        let (su, si) = self.upper_bound();
        let (ou, oi) = other.upper_bound();
        let up = compare(su, ou);
        let (end, inclusive) = if up == Order::Less || (up == Order::Equal && !si) {
            (copy_bytes(ou), oi)
        } else {
            (copy_bytes(su), si)
        };
        if inclusive {
            QueryItem::RangeInclusive(RangeInclusive::new(start, end))
        } else {
            QueryItem::Range(Range { start, end })
        }
    }

    /// Returns a copy of this item.
    pub fn copy(&self) -> (r: QueryItem)
        ensures
            r@ == self@,
    {
        match self {
            QueryItem::Key(k) => QueryItem::Key(copy_bytes(k.as_slice())),
            QueryItem::Range(r) => QueryItem::Range(
                Range { start: copy_bytes(r.start.as_slice()), end: copy_bytes(r.end.as_slice()) },
            ),
            QueryItem::RangeInclusive(r) => QueryItem::RangeInclusive(
                RangeInclusive::new(
                    copy_bytes(inclusive_start(r).as_slice()),
                    copy_bytes(inclusive_end(r).as_slice()),
                ),
            ),
        }
    }
}

impl PartialEq for QueryItem {
    /// Two items are equal when they collide: they overlap, or touch at an
    /// inclusive bound.
    fn eq(&self, other: &QueryItem) -> (r: bool) {
        self.compare(other) == Order::Equal
    }
}

impl vstd::std_specs::cmp::PartialEqSpecImpl for QueryItem {
    open spec fn obeys_eq_spec() -> bool {
        true
    }

    open spec fn eq_spec(&self, other: &QueryItem) -> bool {
        item_order(self@, other@) == Order::Equal
    }
}

impl PartialOrd for QueryItem {
    /// Items are ordered by where they lie; colliding items are equal.
    fn partial_cmp(&self, other: &QueryItem) -> (r: Option<std::cmp::Ordering>) {
        match self.compare(other) {
            Order::Less => Some(std::cmp::Ordering::Less),
            Order::Equal => Some(std::cmp::Ordering::Equal),
            Order::Greater => Some(std::cmp::Ordering::Greater),
        }
    }
}

impl vstd::std_specs::cmp::PartialOrdSpecImpl for QueryItem {
    open spec fn obeys_partial_cmp_spec() -> bool {
        true
    }

    open spec fn partial_cmp_spec(&self, other: &QueryItem) -> Option<std::cmp::Ordering> {
        match item_order(self@, other@) {
            Order::Less => Some(std::cmp::Ordering::Less),
            Order::Equal => Some(std::cmp::Ordering::Equal),
            Order::Greater => Some(std::cmp::Ordering::Greater),
        }
    }
}

impl From<Vec<u8>> for QueryItem {
    /// The item for a single key.
    fn from(key: Vec<u8>) -> (r: QueryItem) {
        QueryItem::Key(key)
    }
}

impl vstd::std_specs::convert::FromSpecImpl<Vec<u8>> for QueryItem {
    open spec fn obeys_from_spec() -> bool {
        true
    }

    open spec fn from_spec(key: Vec<u8>) -> QueryItem {
        QueryItem::Key(key)
    }
}

/// The item for a single key.
pub fn key_item(key: Vec<u8>) -> (r: QueryItem)
    ensures
        r@ == (QueryItemV { lower: key@, upper: key@, inclusive: true, key: true }),
{
    QueryItem::Key(key)
}

/// The value of each item of a sequence.
pub open spec fn items_view(items: Seq<QueryItem>) -> Seq<QueryItemV> {
    items.map_values(|q: QueryItem| q@)
}

/// Whether a sequence of items is sorted, each item `Less` than every later
/// one (so that no two items collide).
pub open spec fn sorted_items(items: Seq<QueryItemV>) -> bool {
    forall|i: int, j: int|
        0 <= i < j < items.len() ==> item_order(#[trigger] items[i], #[trigger] items[j])
            == Order::Less
}

/// The index of the first item that collides with `item`, if any.
#[verifier::opaque]
pub open spec fn first_collision(items: Seq<QueryItemV>, item: QueryItemV) -> Option<int> {
    if exists|j: int| 0 <= j < items.len() && item_order(items[j], item) == Order::Equal {
        let j = choose|j: int|
            0 <= j < items.len() && item_order(items[j], item) == Order::Equal && forall|i: int|
                0 <= i < j ==> item_order(items[i], item) != Order::Equal;
        Some(j)
    } else {
        None
    }
}

/// The first item that collides is the one found by a scan from the front.
pub proof fn lemma_first_collision_at(items: Seq<QueryItemV>, item: QueryItemV, i: int)
    requires
        0 <= i < items.len(),
        item_order(items[i], item) == Order::Equal,
        forall|k: int| 0 <= k < i ==> item_order(items[k], item) != Order::Equal,
    ensures
        first_collision(items, item) == Some(i),
{
    reveal(first_collision);
    let p = |j: int|
        0 <= j < items.len() && item_order(items[j], item) == Order::Equal && forall|k: int|
            0 <= k < j ==> item_order(items[k], item) != Order::Equal;
    assert(p(i));
    let j = choose|j: int|
        0 <= j < items.len() && item_order(items[j], item) == Order::Equal && forall|k: int|
            0 <= k < j ==> item_order(items[k], item) != Order::Equal;
    assert(p(j));
    if j < i {
        assert(item_order(items[j], item) != Order::Equal);
    } else if j > i {
        assert(item_order(items[i], item) != Order::Equal);
    }
}

/// The position at which an item that collides with none of `items` goes:
/// the number of items less than it.
pub open spec fn insert_position(items: Seq<QueryItemV>, item: QueryItemV) -> int
    decreases items.len(),
{
    if items.len() == 0 {
        0
    } else if item_order(items[0], item) == Order::Less {
        1 + insert_position(items.drop_first(), item)
    } else {
        0
    }
}

/// The items of a query after `item` is added: every item that collides
/// with it (directly, or through the merged result) is removed and merged
/// into it, and the merged item is inserted in order.
pub open spec fn insert_item_spec(items: Seq<QueryItemV>, item: QueryItemV) -> Seq<QueryItemV>
    decreases items.len(),
{
    match first_collision(items, item) {
        Some(j) => if 0 <= j < items.len() {
            insert_item_spec(items.remove(j), merge_spec(item, items[j]))
        } else {
            items
        },
        None => items.insert(insert_position(items, item), item),
    }
}

/// One step of `insert_item_spec`.
pub proof fn lemma_insert_item_spec_unfold(items: Seq<QueryItemV>, item: QueryItemV)
    ensures
        first_collision(items, item) matches Some(j) ==> (0 <= j < items.len() ==> insert_item_spec(items, item)
            == insert_item_spec(items.remove(j), merge_spec(item, items[j]))),
        first_collision(items, item) is None ==> insert_item_spec(items, item) == items.insert(
            insert_position(items, item),
            item,
        ),
{
}

/// Whether an item covers at least one key: its lower bound is below its
/// upper bound, or equal to an inclusive one.
pub open spec fn item_wf(q: QueryItemV) -> bool {
    lex_lt(q.lower, q.upper) || (q.lower == q.upper && q.inclusive)
}

/// Whether every item covers at least one key.
pub open spec fn items_wf(items: Seq<QueryItemV>) -> bool {
    forall|i: int| 0 <= i < items.len() ==> item_wf(#[trigger] items[i])
}

/// Whether some item covers `key`.
pub open spec fn covered(items: Seq<QueryItemV>, key: Seq<u8>) -> bool {
    exists|i: int| 0 <= i < items.len() && item_contains(#[trigger] items[i], key)
}

pub proof fn lemma_order_flip(a: QueryItemV, b: QueryItemV)
    requires
        item_wf(a),
        item_wf(b),
    ensures
        item_order(a, b) == Order::Greater <==> item_order(b, a) == Order::Less,
        item_order(a, b) == Order::Equal <==> item_order(b, a) == Order::Equal,
{
    lemma_lex_order();
}

pub proof fn lemma_less_trans(a: QueryItemV, b: QueryItemV, c: QueryItemV)
    requires
        item_wf(a),
        item_wf(b),
        item_wf(c),
        item_order(a, b) == Order::Less,
        item_order(b, c) == Order::Less,
    ensures
        item_order(a, c) == Order::Less,
{
    lemma_lex_order();
}

proof fn lemma_merge_contains(a: QueryItemV, b: QueryItemV, k: Seq<u8>)
    requires
        item_wf(a),
        item_wf(b),
        item_order(a, b) == Order::Equal,
    ensures
        item_contains(merge_spec(a, b), k) <==> item_contains(a, k) || item_contains(b, k),
{
    lemma_lex_order();
    // every pair of bounds and the key is ordered one way or the other
    let terms = seq![a.lower, a.upper, b.lower, b.upper, k];
    assert forall|i: int, j: int| 0 <= i < 5 && 0 <= j < 5 implies terms[i] == terms[j] || lex_lt(terms[i], terms[j])
        || lex_lt(terms[j], terms[i]) by {
        lemma_lex_order();
    }
    assert(terms[0] == a.lower && terms[1] == a.upper && terms[2] == b.lower && terms[3] == b.upper && terms[4] == k);
}

proof fn lemma_merge_covers(a: QueryItemV, b: QueryItemV)
    requires
        item_wf(a),
        item_wf(b),
        item_order(a, b) == Order::Equal,
    ensures
        item_wf(merge_spec(a, b)),
        forall|k: Seq<u8>| item_contains(merge_spec(a, b), k) <==> item_contains(a, k) || item_contains(b, k),
{
    lemma_lex_order();
    assert forall|k: Seq<u8>| item_contains(merge_spec(a, b), k) <==> item_contains(a, k) || item_contains(b, k) by {
        lemma_merge_contains(a, b, k);
    }
}

proof fn lemma_min_collision(items: Seq<QueryItemV>, item: QueryItemV, j: int)
    requires
        0 <= j < items.len(),
        item_order(items[j], item) == Order::Equal,
    ensures
        exists|m: int|
            0 <= m < items.len() && item_order(items[m], item) == Order::Equal && forall|i: int|
                0 <= i < m ==> item_order(items[i], item) != Order::Equal,
    decreases j,
{
    if exists|i: int| 0 <= i < j && item_order(items[i], item) == Order::Equal {
        let i = choose|i: int| 0 <= i < j && item_order(items[i], item) == Order::Equal;
        lemma_min_collision(items, item, i);
    } else {
        assert(forall|i: int| 0 <= i < j ==> item_order(items[i], item) != Order::Equal);
    }
}

proof fn lemma_collision_found(items: Seq<QueryItemV>, item: QueryItemV)
    ensures
        first_collision(items, item) matches Some(j) ==> 0 <= j < items.len() && item_order(items[j], item)
            == Order::Equal,
        first_collision(items, item) is None ==> forall|i: int|
            0 <= i < items.len() ==> item_order(#[trigger] items[i], item) != Order::Equal,
{
    reveal(first_collision);
    if exists|j: int| 0 <= j < items.len() && item_order(items[j], item) == Order::Equal {
        let j = choose|j: int| 0 <= j < items.len() && item_order(items[j], item) == Order::Equal;
        lemma_min_collision(items, item, j);
    }
}

/// An item that covers a key covers its lower bound.
proof fn lemma_item_lower(a: QueryItemV)
    requires
        item_wf(a),
    ensures
        item_contains(a, a.lower),
{
    lemma_lex_order();
}

/// What comparing two items that each cover a key means: they are `Equal`
/// exactly when some key lies in both, and `Less` exactly when every key of
/// the first lies below every key of the second.
pub proof fn lemma_item_order_meaning(a: QueryItemV, b: QueryItemV)
    requires
        item_wf(a),
        item_wf(b),
    ensures
        item_order(a, b) == Order::Equal <==> exists|k: Seq<u8>| item_contains(a, k) && item_contains(b, k),
        item_order(a, b) == Order::Less <==> forall|x: Seq<u8>, y: Seq<u8>|
            item_contains(a, x) && item_contains(b, y) ==> lex_lt(x, y),
{
    lemma_lex_order();
    lemma_item_lower(a);
    lemma_item_lower(b);
    let o = item_order(a, b);
    if o == Order::Equal {
        let k = if lex_lt(a.lower, b.lower) {
            b.lower
        } else {
            a.lower
        };
        let w = if a.lower == b.upper {
            a.lower
        } else if a.upper == b.lower && a.inclusive {
            a.upper
        } else {
            k
        };
        assert(item_contains(a, w) && item_contains(b, w) && !lex_lt(w, w));
    } else {
        assert forall|k: Seq<u8>| !(item_contains(a, k) && item_contains(b, k)) by {
            if item_contains(a, k) && item_contains(b, k) {
                assert(lex_le(a.lower, k) && lex_le(b.lower, k));
            }
        }
    }
    if o == Order::Less {
        assert forall|x: Seq<u8>, y: Seq<u8>| item_contains(a, x) && item_contains(b, y) implies lex_lt(x, y) by {}
    } else if o == Order::Greater {
        assert(item_contains(a, a.lower) && item_contains(b, b.lower) && !lex_lt(a.lower, b.lower));
    }
}

/// Merging two items that each cover a key gives an item that covers one.
proof fn lemma_merge_wf(a: QueryItemV, b: QueryItemV)
    requires
        item_wf(a),
        item_wf(b),
    ensures
        item_wf(merge_spec(a, b)),
{
    lemma_lex_order();
    let m = merge_spec(a, b);
    let from_b = lex_lt(a.upper, b.upper) || (a.upper == b.upper && !a.inclusive);
    if lex_le(a.lower, b.lower) {
        assert(m.lower == a.lower);
        if from_b {
            assert(m.upper == b.upper && m.inclusive == b.inclusive);
            assert(lex_le(a.lower, a.upper));
            assert(lex_le(a.upper, b.upper));
            if a.lower == b.upper {
                assert(a.lower == a.upper);
                assert(a.inclusive);
                assert(false);
            }
            assert(lex_lt(a.lower, b.upper));
        } else {
            assert(m.upper == a.upper && m.inclusive == a.inclusive);
        }
    } else {
        assert(m.lower == b.lower);
        assert(lex_lt(b.lower, a.lower));
        if from_b {
            assert(m.upper == b.upper && m.inclusive == b.inclusive);
        } else {
            assert(m.upper == a.upper);
            assert(lex_le(a.lower, a.upper));
            assert(lex_lt(b.lower, a.upper));
        }
    }
}

/// Among sorted items that each cover a key and none of which collides with
/// `item`, those before `item`'s position lie below it and the rest above.
proof fn lemma_position_splits(items: Seq<QueryItemV>, item: QueryItemV)
    requires
        sorted_items(items),
        items_wf(items),
        item_wf(item),
        forall|i: int| 0 <= i < items.len() ==> item_order(#[trigger] items[i], item) != Order::Equal,
    ensures
        0 <= insert_position(items, item) <= items.len(),
        forall|i: int| 0 <= i < insert_position(items, item) ==> item_order(#[trigger] items[i], item) == Order::Less,
        forall|i: int| insert_position(items, item) <= i < items.len() ==> item_order(#[trigger] items[i], item)
            == Order::Greater,
    decreases items.len(),
{
    if items.len() > 0 {
        let d = items.drop_first();
        assert forall|x: int, y: int| 0 <= x < y < d.len() implies item_order(#[trigger] d[x], #[trigger] d[y])
            == Order::Less by {
            assert(d[x] == items[x + 1] && d[y] == items[y + 1]);
        }
        assert forall|x: int| 0 <= x < d.len() implies item_wf(#[trigger] d[x]) by {
            assert(d[x] == items[x + 1]);
        }
        assert forall|x: int| 0 <= x < d.len() implies item_order(#[trigger] d[x], item) != Order::Equal by {
            assert(d[x] == items[x + 1]);
        }
        if item_order(items[0], item) == Order::Less {
            lemma_position_splits(d, item);
            assert forall|i: int| 0 <= i < insert_position(items, item) implies item_order(
                #[trigger] items[i],
                item,
            ) == Order::Less by {
                if i > 0 {
                    assert(items[i] == d[i - 1]);
                }
            }
            assert forall|i: int| insert_position(items, item) <= i < items.len() implies item_order(
                #[trigger] items[i],
                item,
            ) == Order::Greater by {
                assert(items[i] == d[i - 1]);
            }
        } else {
            assert(item_wf(items[0]));
            assert forall|i: int| 0 <= i < items.len() implies item_order(#[trigger] items[i], item)
                == Order::Greater by {
                assert(item_wf(items[i]));
                if i > 0 {
                    assert(item_order(items[0], items[i]) == Order::Less);
                    if item_order(items[i], item) == Order::Less {
                        lemma_less_trans(items[0], items[i], item);
                    }
                }
            }
        }
    }
}

proof fn lemma_insert_position(items: Seq<QueryItemV>, item: QueryItemV)
    ensures
        0 <= insert_position(items, item) <= items.len(),
        forall|i: int| 0 <= i < insert_position(items, item) ==> item_order(#[trigger] items[i], item) == Order::Less,
        insert_position(items, item) < items.len() ==> item_order(items[insert_position(items, item)], item)
            != Order::Less,
    decreases items.len(),
{
    if items.len() > 0 && item_order(items[0], item) == Order::Less {
        lemma_insert_position(items.drop_first(), item);
        assert forall|i: int| 0 <= i < insert_position(items, item) implies item_order(#[trigger] items[i], item) == Order::Less by {
            if i > 0 {
                assert(items[i] == items.drop_first()[i - 1]);
            }
        }
    }
}

proof fn lemma_no_collision(items: Seq<QueryItemV>, item: QueryItemV)
    requires
        first_collision(items, item) is None,
    ensures
        forall|i: int| 0 <= i < items.len() ==> item_order(#[trigger] items[i], item) != Order::Equal,
{
    reveal(first_collision);
}

/// Adding a non-colliding item where `insert_position` puts it keeps the
/// items sorted.
proof fn lemma_insert_sorted(items: Seq<QueryItemV>, item: QueryItemV)
    requires
        sorted_items(items),
        items_wf(items),
        item_wf(item),
        first_collision(items, item) is None,
    ensures
        sorted_items(items.insert(insert_position(items, item), item)),
        items_wf(items.insert(insert_position(items, item), item)),
{
    lemma_insert_position(items, item);
    lemma_no_collision(items, item);
    let p = insert_position(items, item);
    let r = items.insert(p, item);
    assert forall|j: int| p <= j < items.len() implies item_order(item, #[trigger] items[j]) == Order::Less by {
        lemma_order_flip(items[j], item);
        if item_order(items[j], item) == Order::Less {
            if j > p {
                lemma_less_trans(items[p], items[j], item);
            }
        }
    }
    assert forall|i: int, j: int| 0 <= i < j < r.len() implies item_order(#[trigger] r[i], #[trigger] r[j]) == Order::Less by {
        if j < p {
        } else if j == p {
        } else if i < p {
            lemma_less_trans(items[i], item, items[j - 1]);
        } else if i == p {
        } else {
        }
    }
}

/// Removing an item keeps the rest sorted.
proof fn lemma_remove_sorted(items: Seq<QueryItemV>, j: int)
    requires
        sorted_items(items),
        items_wf(items),
        0 <= j < items.len(),
    ensures
        sorted_items(items.remove(j)),
        items_wf(items.remove(j)),
        forall|k: Seq<u8>| covered(items, k) <==> covered(items.remove(j), k) || item_contains(items[j], k),
{
    let r = items.remove(j);
    assert forall|a: int, b: int| 0 <= a < b < r.len() implies item_order(#[trigger] r[a], #[trigger] r[b]) == Order::Less by {
        let ia = if a < j { a } else { a + 1 };
        let ib = if b < j { b } else { b + 1 };
        assert(r[a] == items[ia]);
        assert(r[b] == items[ib]);
    }
    assert forall|k: Seq<u8>| covered(items, k) <==> covered(r, k) || item_contains(items[j], k) by {
        if covered(items, k) {
            let i = choose|i: int| 0 <= i < items.len() && item_contains(#[trigger] items[i], k);
            if i < j {
                assert(r[i] == items[i]);
            } else if i > j {
                assert(r[i - 1] == items[i]);
            }
        }
        if covered(r, k) {
            let i = choose|i: int| 0 <= i < r.len() && item_contains(#[trigger] r[i], k);
            if i < j {
                assert(items[i] == r[i]);
            } else {
                assert(items[i + 1] == r[i]);
            }
        }
        if item_contains(items[j], k) {
            assert(covered(items, k));
        }
    }
}

proof fn lemma_insert_new_covers(items: Seq<QueryItemV>, item: QueryItemV)
    requires
        sorted_items(items),
        items_wf(items),
        item_wf(item),
        first_collision(items, item) is None,
    ensures
        sorted_items(items.insert(insert_position(items, item), item)),
        items_wf(items.insert(insert_position(items, item), item)),
        forall|k: Seq<u8>| covered(items.insert(insert_position(items, item), item), k) <==> covered(items, k)
            || item_contains(item, k),
{
    lemma_insert_sorted(items, item);
    let p = insert_position(items, item);
    lemma_insert_position(items, item);
    let r = items.insert(p, item);
    assert forall|k: Seq<u8>| covered(r, k) <==> covered(items, k) || item_contains(item, k) by {
        if covered(items, k) {
            let i = choose|i: int| 0 <= i < items.len() && item_contains(#[trigger] items[i], k);
            if i < p {
                assert(r[i] == items[i]);
            } else {
                assert(r[i + 1] == items[i]);
            }
        }
        if covered(r, k) {
            let i = choose|i: int| 0 <= i < r.len() && item_contains(#[trigger] r[i], k);
            if i < p {
                assert(items[i] == r[i]);
            } else if i > p {
                assert(items[i - 1] == r[i]);
            }
        }
        if item_contains(item, k) {
            assert(r[p] == item);
        }
    }
}

/// Adding an item to a sorted query keeps every item that shares no key
/// with it: only colliding items are joined into the new one.
pub proof fn lemma_insert_item_keeps(items: Seq<QueryItemV>, item: QueryItemV, x: QueryItemV)
    requires
        sorted_items(items),
        items_wf(items),
        item_wf(item),
        items.contains(x),
        forall|k: Seq<u8>| !(item_contains(x, k) && item_contains(item, k)),
    ensures
        insert_item_spec(items, item).contains(x),
    decreases items.len(),
{
    lemma_insert_item_spec_unfold(items, item);
    lemma_collision_found(items, item);
    let i = choose|i: int| 0 <= i < items.len() && items[i] == x;
    match first_collision(items, item) {
        Some(j) => {
            let y = items[j];
            assert(item_wf(y));
            assert(item_wf(x));
            lemma_item_order_meaning(y, item);
            assert(i != j);
            let rest = items.remove(j);
            assert forall|a: int, b: int| 0 <= a < b < rest.len() implies item_order(
                #[trigger] rest[a],
                #[trigger] rest[b],
            ) == Order::Less by {
                let ai = if a < j { a } else { a + 1 };
                let bi = if b < j { b } else { b + 1 };
                assert(rest[a] == items[ai] && rest[b] == items[bi]);
            }
            assert forall|a: int| 0 <= a < rest.len() implies item_wf(#[trigger] rest[a]) by {
                let ai = if a < j { a } else { a + 1 };
                assert(rest[a] == items[ai]);
            }
            let ri = if i < j { i } else { i - 1 };
            assert(rest[ri] == x);
            lemma_order_flip(y, item);
            lemma_merge_wf(item, y);
            if i < j {
                assert(item_order(x, y) == Order::Less);
                lemma_item_order_meaning(x, y);
            } else {
                assert(item_order(y, x) == Order::Less);
                lemma_item_order_meaning(y, x);
            }
            let m = merge_spec(item, y);
            assert forall|k: Seq<u8>| !(item_contains(x, k) && item_contains(m, k)) by {
                lemma_merge_contains(item, y, k);
                lemma_lex_order();
            }
            lemma_insert_item_keeps(rest, m, x);
        },
        None => {
            lemma_position_splits(items, item);
            let p = insert_position(items, item);
            assert(items.insert(p, item).contains(x)) by {
                if i < p {
                    assert(items.insert(p, item)[i] == x);
                } else {
                    assert(items.insert(p, item)[i + 1] == x);
                }
            }
        },
    }
}

/// Adding an item to a sorted query keeps it sorted, and the query then
/// covers exactly the keys it covered before and those the item covers:
/// colliding items are joined into one.
pub proof fn lemma_insert_item_covers(items: Seq<QueryItemV>, item: QueryItemV)
    requires
        sorted_items(items),
        items_wf(items),
        item_wf(item),
    ensures
        sorted_items(insert_item_spec(items, item)),
        items_wf(insert_item_spec(items, item)),
        forall|k: Seq<u8>| covered(insert_item_spec(items, item), k) <==> covered(items, k) || item_contains(item, k),
    decreases items.len(),
{
    lemma_insert_item_spec_unfold(items, item);
    lemma_collision_found(items, item);
    match first_collision(items, item) {
        Some(j) => {
            lemma_order_flip(items[j], item);
            lemma_merge_covers(item, items[j]);
            lemma_remove_sorted(items, j);
            lemma_insert_item_covers(items.remove(j), merge_spec(item, items[j]));
        },
        None => {
            lemma_insert_new_covers(items, item);
        },
    }
}

/// Inserting a key into a sorted query: where an item already covers the
/// key the query is unchanged; otherwise the range whose excluded upper
/// bound is the key, if there is one, is made to include it, or else the
/// key item is inserted in order. Either way the query stays sorted and
/// covers exactly the keys it covered before and the new key.
pub proof fn lemma_insert_key_covers(items: Seq<QueryItemV>, key: Seq<u8>)
    requires
        sorted_items(items),
        items_wf(items),
    ensures
        first_collision(items, key_item_v(key)) is Some ==> covered(items, key),
        first_collision(items, key_item_v(key)) is None ==> {
            let r = match open_end_from(items, key, 0) {
                Some(i) => items.update(i, QueryItemV { lower: items[i].lower, upper: key, inclusive: true, key: false }),
                None => items.insert(insert_position(items, key_item_v(key)), key_item_v(key)),
            };
            &&& sorted_items(r)
            &&& items_wf(r)
            &&& forall|k: Seq<u8>| covered(r, k) <==> covered(items, k) || k == key
        },
{
    let it = key_item_v(key);
    lemma_collision_found(items, it);
    lemma_lex_order();
    assert(item_wf(it));
    assert forall|k: Seq<u8>| item_contains(it, k) <==> k == key by {
        lemma_lex_order();
    }
    match first_collision(items, it) {
        Some(j) => {
            assert(item_contains(items[j], key));
        },
        None => {
            match open_end_from(items, key, 0) {
                Some(i) => {
                    lemma_open_end_from(items, key, 0);
                    lemma_close_open_end(items, key, i);
                },
                None => {
                    lemma_insert_new_covers(items, it);
                },
            }
        },
    }
}

proof fn lemma_open_end_from(items: Seq<QueryItemV>, key: Seq<u8>, j: int)
    requires
        0 <= j,
    ensures
        open_end_from(items, key, j) matches Some(i) ==> j <= i < items.len() && items[i].upper == key
            && !items[i].inclusive,
    decreases items.len() - j,
{
    if j < items.len() && !(items[j].upper == key && !items[j].inclusive) {
        lemma_open_end_from(items, key, j + 1);
    }
}

/// Making the excluded upper bound `key` of item `i` inclusive, where no
/// item covers `key`, keeps a sorted query sorted and adds `key` to it.
proof fn lemma_close_open_end(items: Seq<QueryItemV>, key: Seq<u8>, i: int)
    requires
        sorted_items(items),
        items_wf(items),
        0 <= i < items.len(),
        items[i].upper == key,
        !items[i].inclusive,
        forall|j: int| 0 <= j < items.len() ==> item_order(#[trigger] items[j], key_item_v(key)) != Order::Equal,
    ensures
        ({
            let r = items.update(i, QueryItemV { lower: items[i].lower, upper: key, inclusive: true, key: false });
            &&& sorted_items(r)
            &&& items_wf(r)
            &&& forall|k: Seq<u8>| covered(r, k) <==> covered(items, k) || k == key
        }),
{
    lemma_lex_order();
    let n = QueryItemV { lower: items[i].lower, upper: key, inclusive: true, key: false };
    let r = items.update(i, n);
    assert(item_wf(items[i]));
    assert(lex_lt(items[i].lower, key));
    assert(item_wf(n));
    assert forall|a: int, b: int| 0 <= a < b < r.len() implies item_order(#[trigger] r[a], #[trigger] r[b])
        == Order::Less by {
        assert(item_order(items[a], items[b]) == Order::Less);
        if a == i {
            assert(item_wf(items[b]));
            if items[b].lower == key {
                assert(item_contains(items[b], key));
                assert(item_order(items[b], key_item_v(key)) == Order::Equal);
            }
        }
    }
    assert forall|j: int| 0 <= j < r.len() implies item_wf(#[trigger] r[j]) by {
        if j != i {
            assert(r[j] == items[j]);
        }
    }
    assert forall|k: Seq<u8>| covered(r, k) <==> covered(items, k) || k == key by {
        if covered(r, k) {
            let j = choose|j: int| 0 <= j < r.len() && item_contains(#[trigger] r[j], k);
            if j != i {
                assert(item_contains(items[j], k));
            } else if k != key {
                assert(item_contains(items[i], k));
            }
        }
        if covered(items, k) {
            let j = choose|j: int| 0 <= j < items.len() && item_contains(#[trigger] items[j], k);
            assert(item_contains(r[j], k));
        }
        if k == key {
            assert(item_contains(r[i], k));
        }
    }
}

/// The index of the first item, from `i` on, whose upper bound is `key`
/// and not included.
pub open spec fn open_end_from(items: Seq<QueryItemV>, key: Seq<u8>, i: int) -> Option<int>
    decreases items.len() - i,
{
    if i < 0 || i >= items.len() {
        None
    } else if items[i].upper == key && !items[i].inclusive {
        Some(i)
    } else {
        open_end_from(items, key, i + 1)
    }
}

/// The items of a query built from a list: each item is added unless it
/// collides with one already present.
pub open spec fn from_items_spec(items: Seq<QueryItemV>) -> Seq<QueryItemV>
    decreases items.len(),
{
    if items.len() == 0 {
        Seq::empty()
    } else {
        let prev = from_items_spec(items.drop_last());
        let item = items.last();
        match first_collision(prev, item) {
            Some(_) => prev,
            None => prev.insert(insert_position(prev, item), item),
        }
    }
}

/// `Query` represents one or more keys or ranges of keys, which can be used
/// to resolve a proof which will include all of the requested values.
pub struct Query {
    items: Vec<QueryItem>,
}

impl Query {
    /// The items of the query, in order.
    pub closed spec fn items(&self) -> Seq<QueryItemV> {
        items_view(self.items@)
    }

    /// Creates a new query which contains no items.
    pub fn new() -> (q: Query)
        ensures
            q.items() == Seq::<QueryItemV>::empty(),
    {
        let q = Query { items: Vec::new() };
        assert(q.items() =~= Seq::<QueryItemV>::empty());
        q
    }

    /// The number of items.
    pub fn len(&self) -> (n: usize)
        ensures
            n == self.items().len(),
    {
        self.items.len()
    }

    /// The item at position `i`.
    pub fn get(&self, i: usize) -> (r: &QueryItem)
        requires
            i < self.items().len(),
        ensures
            r@ == self.items()[i as int],
    {
        &self.items[i]
    }

    /// Adds an individual key to the query, so that its value (or its
    /// absence) in the tree will be included in the resulting proof.
    ///
    /// If the key or a range including the key already exists in the query,
    /// this will have no effect. If the query already includes a range that
    /// has a non-inclusive bound equal to the key, the bound will be changed
    /// to be inclusive.
    pub fn insert_key(&mut self, key: Vec<u8>)
        ensures
            first_collision(old(self).items(), key_item_v(key@)) is Some ==> final(self).items() == old(
                self,
            ).items(),
            first_collision(old(self).items(), key_item_v(key@)) is None ==> match open_end_from(
                old(self).items(),
                key@,
                0,
            ) {
                Some(i) => final(self).items() == old(self).items().update(
                    i,
                    QueryItemV { lower: old(self).items()[i].lower, upper: key@, inclusive: true, key: false },
                ),
                None => final(self).items() == old(self).items().insert(
                    insert_position(old(self).items(), key_item_v(key@)),
                    key_item_v(key@),
                ),
            },
    {
        let item = QueryItem::Key(copy_bytes(key.as_slice()));
        if self.find_collision(&item).is_some() {
            return ;
        }
        match self.find_open_end(key.as_slice()) {
            Some(i) => {
                let lower = copy_bytes(self.items[i].lower_bound());
                let ghost before = self.items();
                let ghost lo = before[i as int].lower;
                self.items.set(i, QueryItem::RangeInclusive(RangeInclusive::new(lower, key)));
                assert(self.items() =~= before.update(
                    i as int,
                    QueryItemV { lower: lo, upper: key@, inclusive: true, key: false },
                ));
            },
            None => {
                let pos = self.position_of(&item);
                let ghost before = self.items();
                self.items.insert(pos, item);
                assert(self.items() =~= before.insert(pos as int, key_item_v(key@)));
            },
        }
    }

    /// The index of the first item whose upper bound is `key` and not
    /// included, if any.
    fn find_open_end(&self, key: &[u8]) -> (r: Option<usize>)
        ensures
            r matches Some(i) ==> open_end_from(self.items(), key@, 0) == Some(i as int) && i < self.items@.len(),
            r is None ==> open_end_from(self.items(), key@, 0) is None,
    {
        let mut i: usize = 0;
        while i < self.items.len()
            invariant
                i <= self.items@.len(),
                open_end_from(self.items(), key@, 0) == open_end_from(self.items(), key@, i as int),
            decreases self.items@.len() - i,
        {
            let (up, inclusive) = self.items[i].upper_bound();
            if !inclusive && crate::bytes::bytes_eq(up, key) {
                return Some(i);
            }
            i = i + 1;
        }
        None
    }

    /// Adds `item` in order unless an item already present collides with it.
    fn add_if_new(&mut self, item: QueryItem)
        ensures
            first_collision(old(self).items(), item@) is Some ==> final(self).items() == old(
                self,
            ).items(),
            first_collision(old(self).items(), item@) is None ==> final(self).items() == old(
                self,
            ).items().insert(insert_position(old(self).items(), item@), item@),
    {
        match self.find_collision(&item) {
            Some(_) => {},
            None => {
                let pos = self.position_of(&item);
                let ghost before = self.items();
                self.items.insert(pos, item);
                assert(self.items() =~= before.insert(pos as int, item@));
            },
        }
    }

    /// The index of the first item that collides with `item`, if any.
    fn find_collision(&self, item: &QueryItem) -> (r: Option<usize>)
        ensures
            r matches Some(i) ==> first_collision(self.items(), item@) == Some(i as int) && i < self.items().len(),
            r is None ==> first_collision(self.items(), item@) is None,
    {
        proof {
            reveal(first_collision);
        }
        let mut i: usize = 0;
        while i < self.items.len()
            invariant
                i <= self.items@.len(),
                forall|k: int| 0 <= k < i ==> item_order(self.items()[k], item@) != Order::Equal,
            decreases self.items@.len() - i,
        {
            if self.items[i].compare(item) == Order::Equal {
                proof {
                    lemma_first_collision_at(self.items(), item@, i as int);
                }
                return Some(i);
            }
            i = i + 1;
        }
        None
    }

    /// The number of items less than `item`, which collides with none.
    fn position_of(&self, item: &QueryItem) -> (r: usize)
        ensures
            r == insert_position(self.items(), item@),
            r <= self.items().len(),
    {
        let n = self.items.len();
        let mut i: usize = n;
        let ghost items = self.items();
        // walk from the back, keeping the position computed for the suffix
        let mut pos: usize = 0;
        while i > 0
            invariant
                i <= items.len(),
                items.len() == n,
                items == self.items(),
                pos == insert_position(items.skip(i as int), item@),
                pos <= items.len() - i,
            decreases i,
        {
            i = i - 1;
            assert(items.skip(i as int).drop_first() =~= items.skip(i + 1));
            assert(items.skip(i as int)[0] == items[i as int]);
            if self.items[i].compare(item) == Order::Less {
                pos = pos + 1;
            } else {
                pos = 0;
            }
        }
        assert(items.skip(0) =~= items);
        pos
    }

    /// Adds the `QueryItem` to the query, first checking to see if it
    /// collides with any existing ranges or keys. All colliding items will be
    /// removed then merged together so that the query includes the minimum
    /// number of items (with no items covering any duplicate parts of
    /// keyspace) while still including every key or range that has been
    /// added to the query.
    pub fn insert_item(&mut self, item: QueryItem)
        ensures
            final(self).items() == insert_item_spec(old(self).items(), item@),
        decreases old(self).items().len(),
    {
        match self.find_collision(&item) {
            Some(j) => {
                let ghost before = self.items();
                let ghost it = item@;
                assert(first_collision(before, it) == Some(j as int));
                let existing = self.items.remove(j);
                assert(self.items() =~= before.remove(j as int));
                let merged = item.merge(existing);
                assert(merged@ == merge_spec(it, before[j as int]));
                proof {
                    lemma_insert_item_spec_unfold(before, it);
                }
                let ghost mid = self.items();
                self.insert_item(merged);
                assert(self.items() == insert_item_spec(mid, merge_spec(it, before[j as int])));
                assert(mid == before.remove(j as int));
                assert(insert_item_spec(before, it) == insert_item_spec(before.remove(j as int), merge_spec(it, before[j as int])));
            },
            None => {
                let pos = self.position_of(&item);
                let ghost before = self.items();
                let ghost it = item@;
                self.items.insert(pos, item);
                assert(self.items() =~= before.insert(pos as int, it));
                proof {
                    lemma_insert_item_spec_unfold(before, it);
                }
                assert(self.items() == insert_item_spec(before, it));
            },
        }
    }

    /// Adds a range to the query, so that all the entries in the tree with
    /// keys in the range will be included in the resulting proof.
    pub fn insert_range(&mut self, range: Range<Vec<u8>>)
        ensures
            final(self).items() == insert_item_spec(
                old(self).items(),
                QueryItemV { lower: range.start@, upper: range.end@, inclusive: false, key: false },
            ),
    {
        self.insert_item(QueryItem::Range(range));
    }

    /// Adds an inclusive range to the query, so that all the entries in the
    /// tree with keys in the range will be included in the resulting proof.
    pub fn insert_range_inclusive(&mut self, range: RangeInclusive<Vec<u8>>)
        ensures
            final(self).items() == insert_item_spec(
                old(self).items(),
                QueryItemV { lower: range@.start@, upper: range@.end@, inclusive: true, key: false },
            ),
    {
        self.insert_item(QueryItem::RangeInclusive(range));
    }

    /// Builds a query from a list of items: each is added unless an item
    /// already present collides with it (no merging happens).
    pub fn from_items(items: Vec<QueryItem>) -> (q: Query)
        ensures
            q.items() == from_items_spec(items_view(items@)),
    {
        let ghost all = items_view(items@);
        let mut q = Query::new();
        let mut rest = items;
        let mut taken: Vec<QueryItem> = Vec::new();
        // move the items out in order
        let mut i: usize = 0;
        let n = rest.len();
        let mut rev: Vec<QueryItem> = Vec::new();
        while rest.len() > 0
            invariant
                rev@.len() + rest@.len() == n,
                n == all.len(),
                forall|k: int| 0 <= k < rest@.len() ==> #[trigger] rest@[k]@ == all[k],
                forall|k: int| 0 <= k < rev@.len() ==> #[trigger] rev@[k]@ == all[n - 1 - k],
            decreases rest@.len(),
        {
            let x = rest.pop().unwrap();
            rev.push(x);
        }
        while rev.len() > 0
            invariant
                i + rev@.len() == n,
                n == all.len(),
                forall|k: int| 0 <= k < rev@.len() ==> #[trigger] rev@[k]@ == all[n - 1 - k],
                q.items() == from_items_spec(all.subrange(0, i as int)),
            decreases rev@.len(),
        {
            let x = rev.pop().unwrap();
            proof {
                let s = all.subrange(0, i + 1);
                assert(s.drop_last() =~= all.subrange(0, i as int));
                assert(s.last() == x@);
            }
            q.add_if_new(x);
            i = i + 1;
        }
        assert(all.subrange(0, n as int) =~= all);
        q
    }

    /// The items of the query, in order.
    pub fn into_items(self) -> (r: Vec<QueryItem>)
        ensures
            items_view(r@) == self.items(),
    {
        self.items
    }
}


/// The state of `verify`: the stack machine and the map being built.
pub struct VerifyState {
    pub machine: ExecState,
    pub map: MapV,
}

/// One operator of `verify`: run it, and add a pushed node to the map.
pub open spec fn verify_step(st: VerifyState, op: OpV) -> Result<VerifyState, Fault> {
    match exec_op(st.machine, op, true) {
        Err(f) => Err(f),
        Ok(e2) => match op {
            OpV::Push(node) => match builder_insert_spec(st.map, node) {
                Err(f) => Err(f),
                Ok(m2) => Ok(VerifyState { machine: e2, map: m2 }),
            },
            _ => Ok(VerifyState { machine: e2, map: st.map }),
        },
    }
}

/// Running `verify_step` over a sequence of operators.
pub open spec fn verify_run(st: VerifyState, ops: Seq<OpV>) -> Result<VerifyState, Fault>
    decreases ops.len(),
{
    if ops.len() == 0 {
        Ok(st)
    } else {
        match verify_step(st, ops[0]) {
            Err(f) => Err(f),
            Ok(s2) => verify_run(s2, ops.drop_first()),
        }
    }
}

/// Checks the tree a proof leaves against the expected root hash.
pub open spec fn check_root(exec: ExecState, expected: Seq<u8>) -> Result<(), Fault> {
    match finish_spec(exec) {
        Err(f) => Err(f),
        Ok(t) => match tree_hash_spec(t) {
            None => Err(Fault::Overflow),
            Some(h) => if h == expected {
                Ok(())
            } else {
                Err(Fault::HashMismatch)
            },
        },
    }
}

/// The root hash a finished run of the stack machine rebuilds (empty where
/// there is none).
pub open spec fn machine_root_hash(m: ExecState) -> Seq<u8> {
    match finish_spec(m) {
        Ok(t) => match tree_hash_spec(t) {
            Some(h) => h,
            None => Seq::empty(),
        },
        Err(_) => Seq::empty(),
    }
}

/// The state `verify` starts from.
pub open spec fn verify_init() -> VerifyState {
    VerifyState { machine: init_state(), map: MapV { entries: Seq::empty(), right_edge: true } }
}

/// The outcome of `verify` given how its run over the decoded operators
/// ended and whether decoding stopped on an error.
pub open spec fn verify_outcome(
    run: Result<VerifyState, Fault>,
    err: Option<crate::error::DecodeError>,
    expected: Seq<u8>,
) -> Result<MapV, Fault> {
    match run {
        Err(f) => Err(f),
        Ok(st) => match err {
            Some(e) => Err(Fault::Decode(e)),
            None => match check_root(st.machine, expected) {
                Err(f) => Err(f),
                Ok(()) => Ok(st.map),
            },
        },
    }
}

/// The result of `verify` on an encoded proof.
pub open spec fn verify_spec(bytes: Seq<u8>, expected: Seq<u8>) -> Result<MapV, Fault> {
    verify_outcome(verify_run(verify_init(), decode_stream(bytes).0), decode_stream(bytes).1, expected)
}

/// Whether the map's last key is the machine's last key.
pub open spec fn map_synced(st: VerifyState) -> bool {
    st.machine.last_key == if st.map.entries.len() > 0 {
        Some(st.map.entries.last().0)
    } else {
        None::<Seq<u8>>
    }
}

/// Where the proof machine runs through, `verify`'s run does too, leaving
/// the same machine: a key the map would refuse, the machine refuses too.
pub proof fn lemma_verify_run_machine(st: VerifyState, ops: Seq<OpV>)
    requires
        map_synced(st),
        run_ops(st.machine, ops, true) is Ok,
    ensures
        verify_run(st, ops) is Ok,
        verify_run(st, ops)->Ok_0.machine == run_ops(st.machine, ops, true)->Ok_0,
    decreases ops.len(),
{
    if ops.len() > 0 {
        let e2 = exec_op(st.machine, ops[0], true)->Ok_0;
        let s2 = verify_step(st, ops[0])->Ok_0;
        assert(verify_step(st, ops[0]) is Ok);
        assert(s2.machine == e2);
        assert(map_synced(s2));
        lemma_verify_run_machine(s2, ops.drop_first());
    }
}

pub proof fn lemma_verify_run_push(st: VerifyState, ops: Seq<OpV>, op: OpV)
    requires
        verify_run(st, ops) is Ok,
    ensures
        verify_run(st, ops.push(op)) == verify_step(verify_run(st, ops)->Ok_0, op),
    decreases ops.len(),
{
    reveal_with_fuel(verify_run, 2);
    if ops.len() > 0 {
        let s2 = verify_step(st, ops[0])->Ok_0;
        lemma_verify_run_push(s2, ops.drop_first(), op);
        assert(ops.push(op).drop_first() =~= ops.drop_first().push(op));
    } else {
        assert(ops.push(op).drop_first() =~= Seq::<OpV>::empty());
    }
}

pub proof fn lemma_verify_run_prefix_err(st: VerifyState, ops: Seq<OpV>, n: int)
    requires
        0 <= n <= ops.len(),
        verify_run(st, ops.subrange(0, n)) is Err,
    ensures
        verify_run(st, ops) == verify_run(st, ops.subrange(0, n)),
    decreases n,
{
    if n > 0 {
        match verify_step(st, ops[0]) {
            Err(_) => {},
            Ok(s2) => {
                assert(ops.subrange(0, n).drop_first() =~= ops.drop_first().subrange(0, n - 1));
                lemma_verify_run_prefix_err(s2, ops.drop_first(), n - 1);
            },
        }
    }
}

/// Decoding a stream that begins with a well-formed operator.
pub proof fn lemma_decode_stream_step(b: Seq<u8>)
    ensures
        b.len() == 0 ==> decode_stream(b) == (Seq::<OpV>::empty(), Option::<crate::error::DecodeError>::None),
        b.len() > 0 ==> (decode_spec(b) matches Ok(op) ==> decode_stream(b) == (
            seq![op] + decode_stream(b.skip(op_len(op) as int)).0,
            decode_stream(b.skip(op_len(op) as int)).1,
        )),
        b.len() > 0 ==> (decode_spec(b) matches Err(e) ==> decode_stream(b) == (Seq::<OpV>::empty(), Some(e))),
{
    reveal(decode_stream);
    if b.len() > 0 && decode_spec(b) is Ok {
        lemma_decode_len(b);
    }
}

/// `verify` fails with the decode error that stops the operator stream.
pub proof fn lemma_verify_decode_err(bytes: Seq<u8>, expected: Seq<u8>, done: Seq<OpV>, rem: Seq<u8>)
    requires
        decode_stream(bytes).0 == done + decode_stream(rem).0,
        decode_stream(bytes).1 == decode_stream(rem).1,
        rem.len() > 0,
        decode_spec(rem) is Err,
        verify_run(verify_init(), done) is Ok,
    ensures
        verify_spec(bytes, expected) == Err::<MapV, Fault>(Fault::Decode(decode_spec(rem)->Err_0)),
{
    lemma_decode_stream_step(rem);
    assert(decode_stream(bytes).0 =~= done);
}

/// `verify` fails with the error of the first operator that fails.
pub proof fn lemma_verify_step_err(bytes: Seq<u8>, expected: Seq<u8>, done: Seq<OpV>, op: OpV, tail: Seq<OpV>)
    requires
        decode_stream(bytes).0 == done.push(op) + tail,
        verify_run(verify_init(), done) is Ok,
        verify_step(verify_run(verify_init(), done)->Ok_0, op) is Err,
    ensures
        verify_spec(bytes, expected) == Err::<MapV, Fault>(
            verify_step(verify_run(verify_init(), done)->Ok_0, op)->Err_0,
        ),
{
    let all = decode_stream(bytes).0;
    lemma_verify_run_push(verify_init(), done, op);
    assert(all.subrange(0, done.len() + 1int) =~= done.push(op));
    lemma_verify_run_prefix_err(verify_init(), all, done.len() + 1int);
}

/// Runs one operator of `verify`.
fn verify_apply(exec: &mut Executor, map_builder: &mut MapBuilder, op: Op) -> (r: Result<(), Error>)
    requires
        old(exec).inv(),
        old(exec).collapses(),
        old(exec).steps() < usize::MAX,
    ensures
        final(exec).collapses(),
        match verify_step(VerifyState { machine: old(exec).state(), map: old(map_builder)@ }, op@) {
            Ok(st) => r is Ok && st == (VerifyState { machine: final(exec).state(), map: final(map_builder)@ })
                && final(exec).inv() && final(exec).steps() == old(exec).steps() + 1,
            Err(f) => r matches Err(e) && e.fault() == f,
        },
{
    let pushed = match &op {
        Op::Push(node) => Some(node.copy()),
        _ => None,
    };
    exec.apply(op)?;
    match pushed {
        Some(node) => map_builder.insert(&node),
        None => Ok(()),
    }
}

/// Verifies an encoded proof against the expected root hash, and returns the
/// entries it contains as a map for checked lookups.
#[verifier::rlimit(60)]
pub fn verify(bytes: &[u8], expected_hash: [u8; 32]) -> (r: Result<ProofMap, Error>)
    ensures
        match verify_spec(bytes@, expected_hash@) {
            Ok(m) => r matches Ok(x) && x@ == m,
            Err(f) => r matches Err(e) && e.fault() == f,
        },
        r matches Err(Error::HashMismatch(e, a)) ==> (e == expected_hash && verify_run(
            verify_init(),
            decode_stream(bytes@).0,
            ) is Ok && a@ == machine_root_hash(
            verify_run(
            verify_init(),
            decode_stream(bytes@).0,
            )->Ok_0.machine,
        )),
{
    let ghost init = verify_init();
    let ghost all = decode_stream(bytes@);
    let mut decoder = Decoder::new(bytes);
    let mut exec = Executor::new(true);
    let mut map_builder = MapBuilder::new();
    let ghost mut done: Seq<OpV> = Seq::empty();
    let blen = bytes.len();
    assert(decode_stream(decoder.remaining()) == all);
    assert(all.0 =~= done + all.0);
    loop
        invariant
            init == verify_init(),
            blen == bytes@.len(),
            decoder.wf(),
            exec.inv(),
            exec.collapses(),
            exec.steps() == done.len(),
            done.len() + decoder.remaining().len() <= blen,
            all == decode_stream(bytes@),
            all.0 == done + decode_stream(decoder.remaining()).0,
            all.1 == decode_stream(decoder.remaining()).1,
            verify_run(init, done) == Ok::<VerifyState, Fault>(
                VerifyState { machine: exec.state(), map: map_builder@ },
            ),
        ensures
            exec.inv(),
            exec.collapses(),
            all.0 == done,
            all.1 is None,
            verify_run(init, done) == Ok::<VerifyState, Fault>(
                VerifyState { machine: exec.state(), map: map_builder@ },
            ),
        decreases decoder.remaining().len(),
    {
        let ghost rem = decoder.remaining();
        proof {
            lemma_decode_stream_step(rem);
        }
        match decoder.next() {
            None => {
                assert(decode_stream(rem).0 =~= Seq::<OpV>::empty());
                assert(all.0 =~= done);
                break;
            },
            Some(Err(e)) => {
                proof {
                    lemma_verify_decode_err(bytes@, expected_hash@, done, rem);
                }
                return Err(e);
            },
            Some(Ok(op)) => {
                let ghost opv = op@;
                proof {
                    lemma_decode_len(rem);
                    lemma_verify_run_push(init, done, opv);
                    assert(all.0 =~= done.push(opv) + decode_stream(decoder.remaining()).0);
                }
                match verify_apply(&mut exec, &mut map_builder, op) {
                    Ok(()) => {},
                    Err(e) => {
                        proof {
                            lemma_verify_step_err(
                                bytes@,
                                expected_hash@,
                                done,
                                opv,
                                decode_stream(decoder.remaining()).0,
                            );
                        }
                        return Err(e);
                    },
                }
                proof {
                    assert(all.0 =~= done.push(opv) + decode_stream(decoder.remaining()).0);
                    done = done.push(opv);
                }
            },
        }
    }
    let root = exec.finish()?;
    let h = root.hash()?;
    if !hash_eq(&h, &expected_hash) {
        return Err(Error::HashMismatch(expected_hash, h));
    }
    Ok(map_builder.build())
}


/// What `verify_query` tracks beside the stack machine: the entries proven
/// so far, the last node pushed, the index of the next query item, and
/// whether a queried range is open.
pub struct CursorV {
    pub output: Seq<(Seq<u8>, Seq<u8>)>,
    pub last_push: Option<NodeV>,
    pub qi: int,
    pub in_range: bool,
}

/// The state of `verify_query`.
pub struct QueryState {
    pub machine: ExecState,
    pub cursor: CursorV,
}

/// The item for a single key.
pub open spec fn key_item_v(k: Seq<u8>) -> QueryItemV {
    QueryItemV { lower: k, upper: k, inclusive: true, key: true }
}

/// Matching a pushed key/value pair against the query items, from the
/// current one on.
pub open spec fn query_kv_loop(items: Seq<QueryItemV>, st: CursorV, key: Seq<u8>, value: Seq<u8>) -> Result<CursorV, Fault>
    decreases items.len() - st.qi,
{
    if st.qi < 0 || st.qi >= items.len() {
        Ok(st)
    } else {
        let item = items[st.qi];
        if item_order(item, key_item_v(key)) == Order::Greater {
            Ok(st)
        } else if !st.in_range && !(key == item.lower || st.last_push is None || st.last_push matches Some(NodeV::KV(_, _))) {
            Err(Fault::Bound)
        } else {
            let advance = lex_le(item.upper, key);
            let st2 = if advance {
                CursorV { qi: st.qi + 1, in_range: false, ..st }
            } else {
                CursorV { in_range: true, ..st }
            };
            if item_contains(item, key) {
                Ok(CursorV { output: st2.output.push((key, value)), ..st2 })
            } else if advance {
                query_kv_loop(items, st2, key, value)
            } else {
                Ok(st2)
            }
        }
    }
}

/// The check `verify_query` makes of each pushed node.
pub open spec fn query_visit(items: Seq<QueryItemV>, st: CursorV, node: NodeV) -> Result<CursorV, Fault> {
    let r = match node {
        NodeV::KV(k, v) => query_kv_loop(items, st, k, v),
        _ => if st.in_range {
            Err(Fault::MissingData)
        } else {
            Ok(st)
        },
    };
    match r {
        Err(f) => Err(f),
        Ok(s2) => Ok(CursorV { last_push: Some(node), ..s2 }),
    }
}

/// One operator of `verify_query`.
pub open spec fn query_step(items: Seq<QueryItemV>, st: QueryState, op: OpV) -> Result<QueryState, Fault> {
    match exec_op(st.machine, op, true) {
        Err(f) => Err(f),
        Ok(m2) => match op {
            OpV::Push(node) => match query_visit(items, st.cursor, node) {
                Err(f) => Err(f),
                Ok(c2) => Ok(QueryState { machine: m2, cursor: c2 }),
            },
            _ => Ok(QueryState { machine: m2, cursor: st.cursor }),
        },
    }
}

/// Running `query_step` over a sequence of operators.
pub open spec fn query_run(items: Seq<QueryItemV>, st: QueryState, ops: Seq<OpV>) -> Result<QueryState, Fault>
    decreases ops.len(),
{
    if ops.len() == 0 {
        Ok(st)
    } else {
        match query_step(items, st, ops[0]) {
            Err(f) => Err(f),
            Ok(s2) => query_run(items, s2, ops.drop_first()),
        }
    }
}

/// The state `verify_query` starts from.
pub open spec fn query_init() -> QueryState {
    QueryState {
        machine: init_state(),
        cursor: CursorV { output: Seq::empty(), last_push: None, qi: 0, in_range: false },
    }
}

/// The outcome of `verify_query` given how its run ended and whether
/// decoding stopped on an error.
pub open spec fn query_outcome(
    items: Seq<QueryItemV>,
    run: Result<QueryState, Fault>,
    err: Option<crate::error::DecodeError>,
    expected: Seq<u8>,
) -> Result<Seq<(Seq<u8>, Seq<u8>)>, Fault> {
    match run {
        Err(f) => Err(f),
        Ok(st) => match err {
            Some(e) => Err(Fault::Decode(e)),
            None => match finish_spec(st.machine) {
                Err(f) => Err(f),
                Ok(_) => if st.cursor.qi < items.len() && !(st.cursor.last_push matches Some(NodeV::KV(_, _))) {
                    Err(Fault::MissingData)
                } else {
                    match check_root(st.machine, expected) {
                        Err(f) => Err(f),
                        Ok(()) => Ok(st.cursor.output),
                    }
                },
            },
        },
    }
}

/// The result of `verify_query`.
pub open spec fn verify_query_spec(bytes: Seq<u8>, items: Seq<QueryItemV>, expected: Seq<u8>) -> Result<Seq<(Seq<u8>, Seq<u8>)>, Fault> {
    query_outcome(items, query_run(items, query_init(), decode_stream(bytes).0), decode_stream(bytes).1, expected)
}

/// A proof that verifies against one root hash fails against any other,
/// on a hash mismatch whose computed hash is the one it verifies against.
pub proof fn lemma_query_wrong_hash(bytes: Seq<u8>, items: Seq<QueryItemV>, h: Seq<u8>, e: Seq<u8>)
    requires
        verify_query_spec(bytes, items, h) is Ok,
        e != h,
    ensures
        verify_query_spec(bytes, items, e) == Err::<Seq<(Seq<u8>, Seq<u8>)>, Fault>(Fault::HashMismatch),
        query_run(items, query_init(), decode_stream(bytes).0) is Ok,
        machine_root_hash(query_run(items, query_init(), decode_stream(bytes).0)->Ok_0.machine) == h,
{
}

/// A proof that `verify` accepts against one root hash fails against any
/// other, on a hash mismatch whose computed hash is the one it verifies
/// against.
pub proof fn lemma_verify_wrong_hash(bytes: Seq<u8>, h: Seq<u8>, e: Seq<u8>)
    requires
        verify_spec(bytes, h) is Ok,
        e != h,
    ensures
        verify_spec(bytes, e) == Err::<MapV, Fault>(Fault::HashMismatch),
        verify_run(verify_init(), decode_stream(bytes).0) is Ok,
        machine_root_hash(verify_run(verify_init(), decode_stream(bytes).0)->Ok_0.machine) == h,
{
}

pub proof fn lemma_query_run_push(items: Seq<QueryItemV>, st: QueryState, ops: Seq<OpV>, op: OpV)
    requires
        query_run(items, st, ops) is Ok,
    ensures
        query_run(items, st, ops.push(op)) == query_step(items, query_run(items, st, ops)->Ok_0, op),
    decreases ops.len(),
{
    reveal_with_fuel(query_run, 2);
    if ops.len() > 0 {
        let s2 = query_step(items, st, ops[0])->Ok_0;
        lemma_query_run_push(items, s2, ops.drop_first(), op);
        assert(ops.push(op).drop_first() =~= ops.drop_first().push(op));
    } else {
        assert(ops.push(op).drop_first() =~= Seq::<OpV>::empty());
    }
}

pub proof fn lemma_query_run_prefix_err(items: Seq<QueryItemV>, st: QueryState, ops: Seq<OpV>, n: int)
    requires
        0 <= n <= ops.len(),
        query_run(items, st, ops.subrange(0, n)) is Err,
    ensures
        query_run(items, st, ops) == query_run(items, st, ops.subrange(0, n)),
    decreases n,
{
    if n > 0 {
        match query_step(items, st, ops[0]) {
            Err(_) => {},
            Ok(s2) => {
                assert(ops.subrange(0, n).drop_first() =~= ops.drop_first().subrange(0, n - 1));
                lemma_query_run_prefix_err(items, s2, ops.drop_first(), n - 1);
            },
        }
    }
}

/// `verify_query` fails with the decode error that stops the stream.
pub proof fn lemma_query_decode_err(bytes: Seq<u8>, items: Seq<QueryItemV>, expected: Seq<u8>, done: Seq<OpV>, rem: Seq<u8>)
    requires
        decode_stream(bytes).0 == done + decode_stream(rem).0,
        decode_stream(bytes).1 == decode_stream(rem).1,
        rem.len() > 0,
        decode_spec(rem) is Err,
        query_run(items, query_init(), done) is Ok,
    ensures
        verify_query_spec(bytes, items, expected) == Err::<Seq<(Seq<u8>, Seq<u8>)>, Fault>(
            Fault::Decode(decode_spec(rem)->Err_0),
        ),
{
    lemma_decode_stream_step(rem);
    assert(decode_stream(bytes).0 =~= done);
}

/// A step of the stack machine never fails on a hash mismatch.
pub proof fn lemma_exec_op_no_mismatch(s: ExecState, op: OpV, collapse: bool)
    ensures
        exec_op(s, op, collapse) matches Err(f) ==> f != Fault::HashMismatch,
{
}

/// Matching a key/value pair against the query never fails on a hash
/// mismatch.
proof fn lemma_query_kv_loop_no_mismatch(items: Seq<QueryItemV>, st: CursorV, key: Seq<u8>, value: Seq<u8>)
    ensures
        query_kv_loop(items, st, key, value) matches Err(f) ==> f != Fault::HashMismatch,
    decreases items.len() - st.qi,
{
    if 0 <= st.qi < items.len() {
        let item = items[st.qi];
        if item_order(item, key_item_v(key)) != Order::Greater && lex_le(item.upper, key) {
            lemma_query_kv_loop_no_mismatch(items, CursorV { qi: st.qi + 1, in_range: false, ..st }, key, value);
        }
    }
}

/// An operator of `verify_query` never fails on a hash mismatch: that
/// error comes only from the final comparison.
proof fn lemma_query_step_no_mismatch(items: Seq<QueryItemV>, st: QueryState, op: OpV)
    ensures
        query_step(items, st, op) matches Err(f) ==> f != Fault::HashMismatch,
{
    lemma_exec_op_no_mismatch(st.machine, op, true);
    if let OpV::Push(NodeV::KV(k, v)) = op {
        lemma_query_kv_loop_no_mismatch(items, st.cursor, k, v);
    }
}

/// `verify_query` fails with the error of the first operator that fails.
pub proof fn lemma_query_step_err(bytes: Seq<u8>, items: Seq<QueryItemV>, expected: Seq<u8>, done: Seq<OpV>, op: OpV, tail: Seq<OpV>)
    requires
        decode_stream(bytes).0 == done.push(op) + tail,
        query_run(items, query_init(), done) is Ok,
        query_step(items, query_run(items, query_init(), done)->Ok_0, op) is Err,
    ensures
        verify_query_spec(bytes, items, expected) == Err::<Seq<(Seq<u8>, Seq<u8>)>, Fault>(
            query_step(items, query_run(items, query_init(), done)->Ok_0, op)->Err_0,
        ),
{
    let all = decode_stream(bytes).0;
    lemma_query_run_push(items, query_init(), done, op);
    assert(all.subrange(0, done.len() + 1int) =~= done.push(op));
    lemma_query_run_prefix_err(items, query_init(), all, done.len() + 1int);
}

/// The cursor `verify_query` keeps while it matches pushed nodes against
/// the query.
struct QueryCursor {
    output: Vec<(Vec<u8>, Vec<u8>)>,
    last_push: Option<Node>,
    qi: usize,
    in_range: bool,
}

/// The value of each output pair.
pub open spec fn pairs_view(v: Seq<(Vec<u8>, Vec<u8>)>) -> Seq<(Seq<u8>, Seq<u8>)> {
    v.map_values(|p: (Vec<u8>, Vec<u8>)| (p.0@, p.1@))
}

impl QueryCursor {
    spec fn view(&self) -> CursorV {
        CursorV {
            output: pairs_view(self.output@),
            last_push: match self.last_push {
                Some(n) => Some(n@),
                None => None,
            },
            qi: self.qi as int,
            in_range: self.in_range,
        }
    }

    /// Matches a pushed key/value pair against the query items.
    fn kv_loop(&mut self, query: &Query, key: &Vec<u8>, value: &Vec<u8>) -> (r: Result<(), Error>)
        requires
            old(self).qi <= query.items().len(),
        ensures
            final(self).qi <= query.items().len(),
            match query_kv_loop(query.items(), old(self).view(), key@, value@) {
                Ok(s) => r is Ok && s == final(self).view(),
                Err(f) => r matches Err(e) && e.fault() == f,
            },
        decreases query.items().len() - old(self).qi,
    {
        proof {
            lemma_lex_order();
        }
        if self.qi >= query.len() {
            return Ok(());
        }
        let item = query.get(self.qi);
        let k = key_item(copy_bytes(key.as_slice()));
        if item.compare(&k) == Order::Greater {
            return Ok(());
        }
        if !self.in_range {
            let ok = match &self.last_push {
                _ if crate::bytes::bytes_eq(key.as_slice(), item.lower_bound()) => true,
                None => true,
                Some(Node::KV(_, _)) => true,
                Some(_) => false,
            };
            if !ok {
                return Err(Error::Bound("Cannot verify lower bound of queried range".to_owned()));
            }
        }
        let advance = compare(item.upper_bound().0, key.as_slice()) != Order::Greater;
        if advance {
            self.qi = self.qi + 1;
            self.in_range = false;
        } else {
            self.in_range = true;
        }
        if item.contains(key.as_slice()) {
            let ghost before = self.output@;
            self.output.push((copy_bytes(key.as_slice()), copy_bytes(value.as_slice())));
            assert(pairs_view(self.output@) =~= pairs_view(before).push((key@, value@)));
            return Ok(());
        }
        if advance {
            self.kv_loop(query, key, value)
        } else {
            Ok(())
        }
    }

    /// Checks a pushed node against the query.
    fn visit(&mut self, query: &Query, node: &Node) -> (r: Result<(), Error>)
        requires
            old(self).qi <= query.items().len(),
        ensures
            final(self).qi <= query.items().len(),
            match query_visit(query.items(), old(self).view(), node@) {
                Ok(s) => r is Ok && s == final(self).view(),
                Err(f) => r matches Err(e) && e.fault() == f,
            },
    {
        match node {
            Node::KV(key, value) => {
                self.kv_loop(query, key, value)?;
            },
            _ => {
                if self.in_range {
                    return Err(Error::MissingData);
                }
            },
        }
        self.last_push = Some(node.copy());
        Ok(())
    }
}

/// Runs one operator of `verify_query`.
fn query_apply(exec: &mut Executor, cursor: &mut QueryCursor, query: &Query, op: Op) -> (r: Result<(), Error>)
    requires
        old(exec).inv(),
        old(exec).collapses(),
        old(exec).steps() < usize::MAX,
        old(cursor).qi <= query.items().len(),
    ensures
        final(exec).collapses(),
        final(cursor).qi <= query.items().len(),
        match query_step(query.items(), QueryState { machine: old(exec).state(), cursor: old(cursor).view() }, op@) {
            Ok(st) => r is Ok && st == (QueryState { machine: final(exec).state(), cursor: final(cursor).view() })
                && final(exec).inv() && final(exec).steps() == old(exec).steps() + 1,
            Err(f) => r matches Err(e) && e.fault() == f,
        },
{
    let pushed = match &op {
        Op::Push(node) => Some(node.copy()),
        _ => None,
    };
    exec.apply(op)?;
    match pushed {
        Some(node) => cursor.visit(query, &node),
        None => Ok(()),
    }
}

/// Verifies the encoded proof with the given query and expected hash.
///
/// Every key or range in the query is checked to either have its key/value
/// pairs in the proof, or to have its absence in the tree proven. Returns
/// `Err` if the proof is invalid, or the proven key/value pairs that the
/// query covers, in key order.
#[verifier::rlimit(60)]
pub fn verify_query(bytes: &[u8], query: &Query, expected_hash: [u8; 32]) -> (r: Result<Vec<(Vec<u8>, Vec<u8>)>, Error>)
    ensures
        match verify_query_spec(bytes@, query.items(), expected_hash@) {
            Ok(out) => r matches Ok(x) && pairs_view(x@) == out,
            Err(f) => r matches Err(e) && e.fault() == f,
        },
        r matches Err(Error::HashMismatch(e, a)) ==> (e == expected_hash && query_run(
            query.items(),
            query_init(),
            decode_stream(bytes@).0,
            ) is Ok && a@ == machine_root_hash(
            query_run(
            query.items(),
            query_init(),
            decode_stream(bytes@).0,
            )->Ok_0.machine,
        )),
{
    let ghost init = query_init();
    let ghost items = query.items();
    let ghost all = decode_stream(bytes@);
    let mut decoder = Decoder::new(bytes);
    let mut exec = Executor::new(true);
    let mut cursor = QueryCursor { output: Vec::new(), last_push: None, qi: 0, in_range: false };
    assert(pairs_view(cursor.output@) =~= Seq::<(Seq<u8>, Seq<u8>)>::empty());
    let ghost mut done: Seq<OpV> = Seq::empty();
    let blen = bytes.len();
    assert(decode_stream(decoder.remaining()) == all);
    assert(all.0 =~= done + all.0);
    loop
        invariant
            init == query_init(),
            items == query.items(),
            blen == bytes@.len(),
            decoder.wf(),
            exec.inv(),
            exec.collapses(),
            exec.steps() == done.len(),
            cursor.qi <= items.len(),
            done.len() + decoder.remaining().len() <= blen,
            all == decode_stream(bytes@),
            all.0 == done + decode_stream(decoder.remaining()).0,
            all.1 == decode_stream(decoder.remaining()).1,
            query_run(items, init, done) == Ok::<QueryState, Fault>(QueryState { machine: exec.state(), cursor: cursor.view() }),
        ensures
            exec.inv(),
            exec.collapses(),
            all.0 == done,
            all.1 is None,
            query_run(items, init, done) == Ok::<QueryState, Fault>(QueryState { machine: exec.state(), cursor: cursor.view() }),
        decreases decoder.remaining().len(),
    {
        let ghost rem = decoder.remaining();
        proof {
            lemma_decode_stream_step(rem);
        }
        match decoder.next() {
            None => {
                assert(decode_stream(rem).0 =~= Seq::<OpV>::empty());
                assert(all.0 =~= done);
                break;
            },
            Some(Err(e)) => {
                proof {
                    lemma_query_decode_err(bytes@, items, expected_hash@, done, rem);
                }
                return Err(e);
            },
            Some(Ok(op)) => {
                let ghost opv = op@;
                proof {
                    lemma_decode_len(rem);
                    lemma_query_run_push(items, init, done, opv);
                    assert(all.0 =~= done.push(opv) + decode_stream(decoder.remaining()).0);
                }
                match query_apply(&mut exec, &mut cursor, query, op) {
                    Ok(()) => {},
                    Err(e) => {
                        proof {
                            lemma_query_step_err(
                                bytes@,
                                items,
                                expected_hash@,
                                done,
                                opv,
                                decode_stream(decoder.remaining()).0,
                            );
                            lemma_query_step_no_mismatch(items, query_run(items, init, done)->Ok_0, opv);
                        }
                        return Err(e);
                    },
                }
                proof {
                    done = done.push(opv);
                }
            },
        }
    }
    let root = exec.finish()?;
    if cursor.qi < query.len() {
        let last_is_kv = match &cursor.last_push {
            Some(Node::KV(_, _)) => true,
            _ => false,
        };
        if !last_is_kv {
            return Err(Error::MissingData);
        }
    }
    let h = root.hash()?;
    if !hash_eq(&h, &expected_hash) {
        return Err(Error::HashMismatch(expected_hash, h));
    }
    Ok(cursor.output)
}

} // verus!
