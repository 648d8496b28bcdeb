//! What follows from the list of overlapping node pairs: how many nodes
//! overlap another, and for each node the nodes it overlaps. Deciding whether
//! two rectangles overlap is floating-point work done outside this crate.

use std::collections::{HashMap, HashSet};
use vstd::prelude::*;

use crate::graph::model::{ascending_ids, insert_ascending, GraphData, NodeId};

verus! {

broadcast use vstd::std_specs::hash::group_hash_axioms;

/// Nodes that occur in some pair of `pairs`.
pub open spec fn paired_nodes(pairs: Seq<(NodeId, NodeId)>) -> Set<u64> {
    Set::new(|k: u64| exists|i: int| 0 <= i < pairs.len() && #[trigger] in_pair(pairs[i], k))
}

/// Node `k` is one of the two nodes of pair `p`.
pub open spec fn in_pair(p: (NodeId, NodeId), k: u64) -> bool {
    p.0.0 == k || p.1.0 == k
}

/// `m` is paired with `k` by pair `i` of `pairs`, in either order.
pub open spec fn pairs_with(pairs: Seq<(NodeId, NodeId)>, i: int, k: NodeId, m: NodeId) -> bool {
    0 <= i < pairs.len() && ((pairs[i].0 == k && pairs[i].1 == m) || (pairs[i].1 == k && pairs[i].0 == m))
}

proof fn lemma_paired_nodes_push(pairs: Seq<(NodeId, NodeId)>, i: int)
    requires
        0 <= i < pairs.len(),
    ensures
        paired_nodes(pairs.take(i + 1)) == paired_nodes(pairs.take(i)).insert(pairs[i].0.0).insert(pairs[i].1.0),
{
    let t0 = pairs.take(i);
    let t1 = pairs.take(i + 1);
    assert forall|k: u64| paired_nodes(t1).contains(k) <==> (paired_nodes(t0).contains(k) || k == pairs[i].0.0 || k == pairs[i].1.0) by {
        if paired_nodes(t1).contains(k) {
            let j = choose|j: int| 0 <= j < t1.len() && #[trigger] in_pair(t1[j], k);
            if j < i {
                assert(t0[j] == t1[j]);
                assert(in_pair(t0[j], k));
            }
        }
        if paired_nodes(t0).contains(k) {
            let j = choose|j: int| 0 <= j < t0.len() && #[trigger] in_pair(t0[j], k);
            assert(t0[j] == t1[j]);
            assert(in_pair(t1[j], k));
        }
        if k == pairs[i].0.0 || k == pairs[i].1.0 {
            assert(t1[i] == pairs[i]);
            assert(in_pair(t1[i], k));
        }
    }
    assert(paired_nodes(t1) =~= paired_nodes(t0).insert(pairs[i].0.0).insert(pairs[i].1.0));
}

/// A node paired by one of the first `i` pairs occurs in them.
proof fn lemma_pairs_with_paired(pairs: Seq<(NodeId, NodeId)>, i: int, j: int, k: NodeId, m: NodeId)
    requires
        0 <= j < i <= pairs.len(),
        pairs_with(pairs, j, k, m),
    ensures
        paired_nodes(pairs.take(i)).contains(k.0),
{
    assert(pairs.take(i)[j] == pairs[j]);
    assert(in_pair(pairs.take(i)[j], k.0));
}

/// Number of distinct nodes that overlap at least one other node, given the
/// overlapping pairs.
pub fn overlapping_node_count(pairs: &Vec<(NodeId, NodeId)>) -> (n: usize)
    ensures
        n == paired_nodes(pairs@).len(),
{
    let mut with_overlap: HashSet<u64> = HashSet::new();
    assert(paired_nodes(pairs@.take(0)) =~= Set::<u64>::empty());
    let mut i: usize = 0;
    while i < pairs.len()
        invariant
            i <= pairs.len(),
            with_overlap@ == paired_nodes(pairs@.take(i as int)),
        decreases pairs.len() - i,
    {
        let (a, b) = pairs[i];
        with_overlap.insert(a.0);
        with_overlap.insert(b.0);
        proof {
            lemma_paired_nodes_push(pairs@, i as int);
            assert(with_overlap@ =~= paired_nodes(pairs@.take(i + 1)));
        }
        i = i + 1;
    }
    assert(pairs@.take(pairs.len() as int) =~= pairs@);
    proof {
        assert(paired_nodes(pairs@) =~= with_overlap@);
    }
    with_overlap.len()
}

/// For each node in some pair, the nodes it is paired with, ascending, each once.
pub fn overlapping_pairs_by_node(pairs: &Vec<(NodeId, NodeId)>) -> (map: HashMap<u64, Vec<NodeId>>)
    ensures
        forall|k: u64| #[trigger] map@.contains_key(k) <==> paired_nodes(pairs@).contains(k),
        forall|k: u64| #[trigger] map@.contains_key(k) ==> ascending_ids(map@[k]@),
        forall|k: u64, m: NodeId|
            #![trigger map@[k]@.contains(m)]
            map@.contains_key(k) ==> (map@[k]@.contains(m) <==> exists|i: int| #[trigger] pairs_with(pairs@, i, NodeId(k), m)),
        map@.dom() == paired_nodes(pairs@),
        map@.len() == paired_nodes(pairs@).len(),
        distinct_ends(pairs@) ==> forall|k: u64| #[trigger] map@.contains_key(k) ==> !map@[k]@.contains(NodeId(k)),
{
    let mut map: HashMap<u64, Vec<NodeId>> = HashMap::new();
    let mut i: usize = 0;
    assert(paired_nodes(pairs@.take(0)) =~= Set::<u64>::empty());
    while i < pairs.len()
        invariant
            i <= pairs.len(),
            forall|k: u64| #[trigger] map@.contains_key(k) <==> paired_nodes(pairs@.take(i as int)).contains(k),
            forall|k: u64| #[trigger] map@.contains_key(k) ==> ascending_ids(map@[k]@),
            forall|k: u64, m: NodeId|
                #![trigger map@[k]@.contains(m)]
                map@.contains_key(k) ==> (map@[k]@.contains(m) <==> exists|j: int| 0 <= j < i && #[trigger] pairs_with(pairs@, j, NodeId(k), m)),
        decreases pairs.len() - i,
    {
        let (a, b) = pairs[i];
        let ghost before = map@;
        add_partner(&mut map, a, b);
        let ghost mid = map@;
        add_partner(&mut map, b, a);
        proof {
            lemma_paired_nodes_push(pairs@, i as int);
            assert forall|k: u64, m: NodeId|
                #![trigger map@[k]@.contains(m)]
                map@.contains_key(k) implies (map@[k]@.contains(m) <==> exists|j: int| 0 <= j < i + 1 && #[trigger] pairs_with(pairs@, j, NodeId(k), m)) by {
                let here = pairs_with(pairs@, i as int, NodeId(k), m);
                let earlier = exists|j: int| 0 <= j < i && #[trigger] pairs_with(pairs@, j, NodeId(k), m);
                if earlier {
                    let j = choose|j: int| 0 <= j < i && #[trigger] pairs_with(pairs@, j, NodeId(k), m);
                    lemma_pairs_with_paired(pairs@, i as int, j, NodeId(k), m);
                    assert(before.contains_key(k));
                }
                assert(map@[k]@.contains(m) <==> (earlier || here));
                if exists|j: int| 0 <= j < i + 1 && #[trigger] pairs_with(pairs@, j, NodeId(k), m) {
                    let j = choose|j: int| 0 <= j < i + 1 && #[trigger] pairs_with(pairs@, j, NodeId(k), m);
                    if j < i {
                        assert(earlier);
                    }
                }
                if here {
                    assert(pairs_with(pairs@, i as int, NodeId(k), m));
                }
            }
        }
        i = i + 1;
    }
    assert(pairs@.take(pairs.len() as int) =~= pairs@);
    assert(map@.dom() =~= paired_nodes(pairs@));
    map
}

/// Adds `m` to the ascending partner list of `k` (creating it).
fn add_partner(map: &mut HashMap<u64, Vec<NodeId>>, k: NodeId, m: NodeId)
    requires
        forall|x: u64| #[trigger] old(map)@.contains_key(x) ==> ascending_ids(old(map)@[x]@),
    ensures
        final(map)@.dom() == old(map)@.dom().insert(k.0),
        forall|x: u64| #[trigger] final(map)@.contains_key(x) ==> ascending_ids(final(map)@[x]@),
        forall|x: u64| #[trigger] old(map)@.contains_key(x) && x != k.0 ==> final(map)@[x] == old(map)@[x],
        forall|y: NodeId| #[trigger] final(map)@[k.0]@.contains(y) <==> ((old(map)@.contains_key(k.0) && old(map)@[k.0]@.contains(y)) || y == m),
{
    let mut list = match map.remove(&k.0) {
        Some(l) => l,
        None => Vec::new(),
    };
    insert_ascending(&mut list, m);
    map.insert(k.0, list);
    assert(map@.dom() =~= old(map)@.dom().insert(k.0));
}

/// Overlap is symmetric: whatever pairs `k` with `m` pairs `m` with `k`.
pub proof fn lemma_overlaps_symmetric(pairs: Seq<(NodeId, NodeId)>, k: NodeId, m: NodeId)
    ensures
        (exists|i: int| #[trigger] pairs_with(pairs, i, k, m)) <==> (exists|i: int| #[trigger] pairs_with(pairs, i, m, k)),
{
    if exists|i: int| #[trigger] pairs_with(pairs, i, k, m) {
        let i = choose|i: int| #[trigger] pairs_with(pairs, i, k, m);
        assert(pairs_with(pairs, i, m, k));
    }
    if exists|i: int| #[trigger] pairs_with(pairs, i, m, k) {
        let i = choose|i: int| #[trigger] pairs_with(pairs, i, m, k);
        assert(pairs_with(pairs, i, k, m));
    }
}

/// No pair joins a node with itself.
pub open spec fn distinct_ends(pairs: Seq<(NodeId, NodeId)>) -> bool {
    forall|i: int| 0 <= i < pairs.len() ==> #[trigger] pairs[i].0 != pairs[i].1
}

proof fn lemma_paired_nodes_finite(pairs: Seq<(NodeId, NodeId)>, i: int)
    requires
        0 <= i <= pairs.len(),
    ensures
        paired_nodes(pairs.take(i)).finite(),
        paired_nodes(pairs.take(i)).len() <= 2 * i,
    decreases i,
{
    if i == 0 {
        assert(paired_nodes(pairs.take(0)) =~= Set::<u64>::empty());
    } else {
        lemma_paired_nodes_finite(pairs, i - 1);
        lemma_paired_nodes_push(pairs, i - 1);
    }
}

/// When no pair joins a node with itself, no node is its own partner, and the
/// overlapping nodes come at least two at a time: their number is never 1, is
/// at least 2 as soon as there is a pair, and is at most twice the number of
/// pairs.
pub proof fn lemma_overlap_count_never_one(pairs: Seq<(NodeId, NodeId)>)
    requires
        distinct_ends(pairs),
    ensures
        forall|k: NodeId, i: int| !#[trigger] pairs_with(pairs, i, k, k),
        paired_nodes(pairs).finite(),
        paired_nodes(pairs).len() != 1,
        pairs.len() > 0 ==> paired_nodes(pairs).len() >= 2,
        pairs.len() == 0 ==> paired_nodes(pairs).len() == 0,
        paired_nodes(pairs).len() <= 2 * pairs.len(),
{
    assert(pairs.take(pairs.len() as int) =~= pairs);
    lemma_paired_nodes_finite(pairs, pairs.len() as int);
    assert forall|k: NodeId, i: int| !#[trigger] pairs_with(pairs, i, k, k) by {
        if 0 <= i < pairs.len() {
            assert(pairs[i].0 != pairs[i].1);
        }
    }
    if pairs.len() > 0 {
        let a = pairs[0].0.0;
        let b = pairs[0].1.0;
        assert(pairs[0].0 != pairs[0].1);
        assert(in_pair(pairs[0], a) && in_pair(pairs[0], b));
        assert(paired_nodes(pairs).contains(a));
        assert(paired_nodes(pairs).contains(b));
        let two = set![a, b];
        assert(two.subset_of(paired_nodes(pairs)));
        vstd::set_lib::lemma_len_subset(two, paired_nodes(pairs));
        assert(two.len() == 2) by {
            assert(two =~= Set::<u64>::empty().insert(a).insert(b));
        }
    } else {
        assert(paired_nodes(pairs) =~= Set::<u64>::empty());
    }
}


/// Where every pair joins nodes of the graph, the overlapping nodes are nodes
/// of the graph, so there are no more of them than the graph has nodes.
pub proof fn lemma_overlap_count_within_nodes(pairs: Seq<(NodeId, NodeId)>, g: GraphData)
    requires
        forall|i: int|
            0 <= i < pairs.len() ==> g.nodes@.contains_key(#[trigger] pairs[i].0.0) && g.nodes@.contains_key(pairs[i].1.0),
    ensures
        paired_nodes(pairs).subset_of(g.nodes@.dom()),
        paired_nodes(pairs).len() <= g.nodes@.len(),
{
    assert forall|k: u64| paired_nodes(pairs).contains(k) implies g.nodes@.dom().contains(k) by {
        let i = choose|i: int| 0 <= i < pairs.len() && #[trigger] in_pair(pairs[i], k);
        assert(g.nodes@.contains_key(pairs[i].0.0));
    }
    assert(g.nodes@.dom().finite());
    vstd::set_lib::lemma_len_subset(paired_nodes(pairs), g.nodes@.dom());
}

} // verus!