//! Comparing two stored trees node by node: the decision taken at each pair
//! of nodes, from what the two nodes hold.
use vstd::prelude::*;

use crate::bytes::bytes_eq;
use crate::tree::{committed, tree_hash, LinkS, Tree, TreeS};

verus! {

/// What a comparison looks at in a node: its key, value and hash.
pub struct NodeFacts {
    pub key: Vec<u8>,
    pub value: Vec<u8>,
    pub hash: [u8; 32],
}

/// What the comparison of two nodes found.
pub enum Difference {
    /// Both sides are empty, or the nodes have the same hash: nothing
    /// differs below.
    Same,
    /// Only the second side has a node (its key).
    OnlySecond(Vec<u8>),
    /// Only the first side has a node (its key).
    OnlyFirst(Vec<u8>),
    /// The keys differ (first, second).
    Keys(Vec<u8>, Vec<u8>),
    /// The keys agree and the values differ (first, second).
    Values(Vec<u8>, Vec<u8>),
    /// Key and value agree but the hashes do not: the difference lies in
    /// the children, which are compared next, left then right.
    Children,
}

/// A finding as plain values.
pub enum DifferenceV {
    Same,
    OnlySecond(Seq<u8>),
    OnlyFirst(Seq<u8>),
    Keys(Seq<u8>, Seq<u8>),
    Values(Seq<u8>, Seq<u8>),
    Children,
}

impl View for Difference {
    type V = DifferenceV;

    open spec fn view(&self) -> DifferenceV {
        match self {
            Difference::Same => DifferenceV::Same,
            Difference::OnlySecond(k) => DifferenceV::OnlySecond(k@),
            Difference::OnlyFirst(k) => DifferenceV::OnlyFirst(k@),
            Difference::Keys(a, b) => DifferenceV::Keys(a@, b@),
            Difference::Values(a, b) => DifferenceV::Values(a@, b@),
            Difference::Children => DifferenceV::Children,
        }
    }
}

/// A node's key, value and hash as plain values.
pub open spec fn facts_view(f: Option<&NodeFacts>) -> Option<(Seq<u8>, Seq<u8>, Seq<u8>)> {
    match f {
        Some(n) => Some((n.key@, n.value@, n.hash@)),
        None => None,
    }
}

/// The finding for two nodes, each given by its key, value and hash.
pub open spec fn difference_spec(
    first: Option<(Seq<u8>, Seq<u8>, Seq<u8>)>,
    second: Option<(Seq<u8>, Seq<u8>, Seq<u8>)>,
) -> DifferenceV {
    match (first, second) {
        (None, None) => DifferenceV::Same,
        (None, Some(b)) => DifferenceV::OnlySecond(b.0),
        (Some(a), None) => DifferenceV::OnlyFirst(a.0),
        (Some(a), Some(b)) => if a.2 == b.2 {
            DifferenceV::Same
        } else if a.0 != b.0 {
            DifferenceV::Keys(a.0, b.0)
        } else if a.1 != b.1 {
            DifferenceV::Values(a.1, b.1)
        } else {
            DifferenceV::Children
        },
    }
}

/// The finding for two nodes: the same hash means nothing differs; then
/// differing keys are reported, whatever the values; then differing values;
/// and only where key and value agree do the children differ.
pub proof fn lemma_difference_order(a: (Seq<u8>, Seq<u8>, Seq<u8>), b: (Seq<u8>, Seq<u8>, Seq<u8>))
    ensures
        a.2 == b.2 ==> difference_spec(Some(a), Some(b)) == DifferenceV::Same,
        a.2 != b.2 && a.0 != b.0 ==> difference_spec(Some(a), Some(b)) == DifferenceV::Keys(a.0, b.0),
        a.2 != b.2 && a.0 == b.0 && a.1 != b.1 ==> difference_spec(Some(a), Some(b)) == DifferenceV::Values(a.1, b.1),
        a.2 != b.2 && a.0 == b.0 && a.1 == b.1 ==> difference_spec(Some(a), Some(b)) == DifferenceV::Children,
        difference_spec(None, Some(b)) == DifferenceV::OnlySecond(b.0),
        difference_spec(Some(a), None) == DifferenceV::OnlyFirst(a.0),
        difference_spec(None, None) == DifferenceV::Same,
{
}

/// Compares two nodes: an empty side against a node reports the node's
/// key; equal hashes end the comparison; otherwise differing keys, then
/// differing values, are reported, and if both agree the children must be
/// compared.
pub fn compare_nodes(first: Option<&NodeFacts>, second: Option<&NodeFacts>) -> (d: Difference)
    ensures
        d@ == difference_spec(facts_view(first), facts_view(second)),
        first is None && second is None ==> d@ == DifferenceV::Same,
        second matches Some(b) ==> (first is None ==> d@ == DifferenceV::OnlySecond(b.key@)),
        first matches Some(a) ==> (second is None ==> d@ == DifferenceV::OnlyFirst(a.key@)),
        first is Some && second is Some ==> ({
            let a = first->Some_0;
            let b = second->Some_0;
            &&& a.hash@ == b.hash@ ==> d@ == DifferenceV::Same
            &&& a.hash@ != b.hash@ && a.key@ != b.key@ ==> d@ == DifferenceV::Keys(a.key@, b.key@)
            &&& a.hash@ != b.hash@ && a.key@ == b.key@ && a.value@ != b.value@ ==> d@ == DifferenceV::Values(
                a.value@,
                b.value@,
            )
            &&& a.hash@ != b.hash@ && a.key@ == b.key@ && a.value@ == b.value@ ==> d@ == DifferenceV::Children
        }),
{
    proof {
        if first is Some && second is Some {
            lemma_difference_order(facts_view(first)->Some_0, facts_view(second)->Some_0);
        }
    }
    match (first, second) {
        (None, None) => Difference::Same,
        (None, Some(b)) => {
            Difference::OnlySecond(crate::bytes::copy_bytes(b.key.as_slice()))
        },
        (Some(a), None) => {
            Difference::OnlyFirst(crate::bytes::copy_bytes(a.key.as_slice()))
        },
        (Some(a), Some(b)) => {
            if bytes_eq(a.hash.as_slice(), b.hash.as_slice()) {
                Difference::Same
            } else if !bytes_eq(a.key.as_slice(), b.key.as_slice()) {
                Difference::Keys(
                    crate::bytes::copy_bytes(a.key.as_slice()),
                    crate::bytes::copy_bytes(b.key.as_slice()),
                )
            } else if !bytes_eq(a.value.as_slice(), b.value.as_slice()) {
                Difference::Values(
                    crate::bytes::copy_bytes(a.value.as_slice()),
                    crate::bytes::copy_bytes(b.value.as_slice()),
                )
            } else {
                Difference::Children
            }
        },
    }
}

/// A node's key, value and hash.
pub open spec fn node_facts(t: TreeS) -> (Seq<u8>, Seq<u8>, Seq<u8>) {
    (t.key, t.value, tree_hash(t))
}

/// The facts of the node a link points to, if there is a link.
pub open spec fn link_facts(l: Option<LinkS>) -> Option<(Seq<u8>, Seq<u8>, Seq<u8>)> {
    match l {
        Some(l) => Some(node_facts(*l.tree)),
        None => None,
    }
}

/// The findings of a comparison that ends at one pair of nodes: none when
/// they are the same, else that one finding.
pub open spec fn single_finding(d: DifferenceV) -> Seq<DifferenceV> {
    if d is Same {
        Seq::empty()
    } else {
        seq![d]
    }
}

/// What walking two trees side by side finds, in the order it is found:
/// where the two roots agree in key and value but not in hash, the left
/// children are compared, then the right ones.
pub open spec fn diff_nodes(a: TreeS, b: TreeS) -> Seq<DifferenceV>
    decreases a, 1nat,
{
    let d = difference_spec(Some(node_facts(a)), Some(node_facts(b)));
    if d is Children {
        diff_links(a.left, b.left) + diff_links(a.right, b.right)
    } else {
        single_finding(d)
    }
}

/// `diff_nodes` for the children on one side of two nodes.
pub open spec fn diff_links(a: Option<LinkS>, b: Option<LinkS>) -> Seq<DifferenceV>
    decreases a, 0nat,
{
    match a {
        Some(la) => match b {
            Some(lb) => diff_nodes(*la.tree, *lb.tree),
            None => single_finding(difference_spec(link_facts(a), link_facts(b))),
        },
        None => single_finding(difference_spec(link_facts(a), link_facts(b))),
    }
}

/// The value of an optional tree.
pub open spec fn opt_view(t: Option<&Tree>) -> Option<TreeS> {
    match t {
        Some(t) => Some(t@),
        None => None,
    }
}

/// What walking two optional trees side by side finds.
pub open spec fn diff_trees(a: Option<TreeS>, b: Option<TreeS>) -> Seq<DifferenceV> {
    match a {
        Some(x) => match b {
            Some(y) => diff_nodes(x, y),
            None => single_finding(DifferenceV::OnlyFirst(x.key)),
        },
        None => match b {
            Some(y) => single_finding(DifferenceV::OnlySecond(y.key)),
            None => Seq::empty(),
        },
    }
}

/// The number of nodes of a tree.
pub open spec fn tree_size(t: TreeS) -> nat
    decreases t,
{
    1 + match t.left {
        Some(l) => tree_size(*l.tree),
        None => 0,
    } + match t.right {
        Some(l) => tree_size(*l.tree),
        None => 0,
    }
}

/// The number of nodes of an optional tree.
pub open spec fn opt_size(t: Option<&Tree>) -> nat {
    match t {
        Some(t) => tree_size(t@),
        None => 0,
    }
}

/// The findings as plain values.
pub open spec fn findings_view(v: Seq<Difference>) -> Seq<DifferenceV> {
    v.map_values(|d: Difference| d@)
}

fn facts_of(t: &Tree) -> (f: NodeFacts)
    requires
        committed(t@),
    ensures
        facts_view(Some(&f)) == Some(node_facts(t@)),
{
    NodeFacts { key: crate::bytes::copy_bytes(t.key()), value: crate::bytes::copy_bytes(t.value()), hash: t.hash() }
}

fn opt_facts(t: Option<&Tree>) -> (f: Option<NodeFacts>)
    requires
        t matches Some(x) ==> committed(x@),
    ensures
        match t {
            Some(x) => f matches Some(n) && facts_view(Some(&n)) == Some(node_facts(x@)),
            None => f is None,
        },
{
    match t {
        Some(x) => Some(facts_of(x)),
        None => None,
    }
}

fn walk(first: Option<&Tree>, second: Option<&Tree>, out: &mut Vec<Difference>)
    requires
        first matches Some(x) ==> committed(x@),
        second matches Some(x) ==> committed(x@),
    ensures
        findings_view(final(out)@) == findings_view(old(out)@) + diff_trees(opt_view(first), opt_view(second)),
    decreases opt_size(first),
{
    let a = opt_facts(first);
    let b = opt_facts(second);
    let d = compare_nodes(a.as_ref(), b.as_ref());
    match d {
        Difference::Same => {
            assert(findings_view(out@) =~= findings_view(old(out)@) + diff_trees(opt_view(first), opt_view(second)));
        },
        Difference::Children => {
            let f = first.unwrap();
            let s = second.unwrap();
            let fl = f.child(true);
            let sl = s.child(true);
            let fr = f.child(false);
            let sr = s.child(false);
            assert(diff_links(f@.left, s@.left) == diff_trees(opt_view(fl), opt_view(sl)));
            assert(diff_links(f@.right, s@.right) == diff_trees(opt_view(fr), opt_view(sr)));
            walk(fl, sl, out);
            walk(fr, sr, out);
            assert(findings_view(out@) =~= findings_view(old(out)@) + diff_trees(opt_view(first), opt_view(second)));
        },
        _ => {
            let ghost before = out@;
            out.push(d);
            assert(findings_view(out@) =~= findings_view(before) + seq![d@]);
            assert(findings_view(out@) =~= findings_view(old(out)@) + diff_trees(opt_view(first), opt_view(second)));
        },
    }
}

/// Walks two stored trees side by side and lists where they differ, in the
/// order the walk meets the differences: at each pair of nodes the
/// decision of `compare_nodes`, descending into both children (left, then
/// right) only where key and value agree and the hashes do not.
pub fn compare_trees(first: Option<&Tree>, second: Option<&Tree>) -> (d: Vec<Difference>)
    requires
        first matches Some(x) ==> committed(x@),
        second matches Some(x) ==> committed(x@),
    ensures
        findings_view(d@) == diff_trees(opt_view(first), opt_view(second)),
{
    let mut out: Vec<Difference> = Vec::new();
    walk(first, second, &mut out);
    assert(findings_view(out@) =~= Seq::<DifferenceV>::empty() + diff_trees(opt_view(first), opt_view(second)));
    out
}

} // verus!
