//! The demo graph: a uniform random recursive tree, the depth of each of its
//! nodes, the nodes of each depth level, the request that creates each node,
//! and the steps of the loop that sends those requests tick by tick.

use rand::Rng;
use vstd::prelude::*;
use vstd::string::StringExecFns;

use crate::ui::inspector::{decimal, decimal_text};

verus! {

#[verifier::external_type_specification]
#[verifier::external_body]
pub struct ExThreadRng(rand::rngs::ThreadRng);

/// Calls `rand::Rng::random_range(rng, 0..upper)`, which panics on an empty
/// range and otherwise draws a value in it; nothing more is stated of the draw.
#[verifier::external_body]
fn random_below(rng: &mut rand::rngs::ThreadRng, upper: usize) -> (r: usize)
    requires
        upper > 0,
    ensures
        r < upper,
{
    rng.random_range(0..upper)
}

/// Parents of a uniform random recursive tree on `n` nodes: `parent[i]` is
/// drawn from `0..i` for `i >= 1`, and `parent[0]` is 0.
pub fn random_tree_parents(rng: &mut rand::rngs::ThreadRng, n: usize) -> (parent: Vec<usize>)
    ensures
        parent@.len() == n,
        n > 0 ==> parent@[0] == 0,
        forall|i: int| 1 <= i < n ==> #[trigger] parent@[i] < i,
{
    let mut parent: Vec<usize> = Vec::new();
    let mut i: usize = 0;
    while i < n
        invariant
            i <= n,
            parent@.len() == i,
            i > 0 ==> parent@[0] == 0,
            forall|j: int| 1 <= j < i ==> #[trigger] parent@[j] < j,
        decreases n - i,
    {
        if i == 0 {
            parent.push(0);
        } else {
            let p = random_below(rng, i);
            parent.push(p);
        }
        i = i + 1;
    }
    parent
}

/// Depth of node `i` as the parent walk computes it, reading depths in index
/// order: a parent that comes later than (or is) the node itself still reads 0.
pub open spec fn depth_at(parent: Seq<usize>, i: int) -> nat
    decreases i,
{
    if i <= 0 {
        0
    } else if parent[i] < i {
        depth_at(parent, parent[i] as int) + 1
    } else {
        1
    }
}

proof fn lemma_depth_bound(parent: Seq<usize>, i: int)
    requires
        0 <= i,
    ensures
        depth_at(parent, i) <= i,
    decreases i,
{
    if i > 0 && parent[i] < i {
        lemma_depth_bound(parent, parent[i] as int);
    }
}

/// Depth of each node of the tree given by `parent`.
pub fn depths_from_parents(parent: &Vec<usize>) -> (depth: Vec<usize>)
    requires
        forall|i: int| 1 <= i < parent@.len() ==> #[trigger] parent@[i] < parent@.len(),
    ensures
        depth@.len() == parent@.len(),
        forall|i: int| 0 <= i < depth@.len() ==> #[trigger] depth@[i] == depth_at(parent@, i),
{
    let n = parent.len();
    let mut depth: Vec<usize> = Vec::new();
    let mut i: usize = 0;
    while i < n
        invariant
            n == parent@.len(),
            forall|k: int| 1 <= k < n ==> #[trigger] parent@[k] < n,
            i <= n,
            depth@.len() == i,
            forall|k: int| 0 <= k < i ==> #[trigger] depth@[k] == depth_at(parent@, k),
        decreases n - i,
    {
        if i == 0 {
            depth.push(0);
        } else {
            let p = parent[i];
            proof {
                lemma_depth_bound(parent@, i as int);
            }
            if p < i {
                let d = depth[p] + 1;
                depth.push(d);
            } else {
                depth.push(1);
            }
        }
        i = i + 1;
    }
    depth
}

/// In a tree (every parent earlier than its child) a node is one deeper than
/// its parent.
pub proof fn lemma_child_one_deeper(parent: Seq<usize>, i: int)
    requires
        1 <= i < parent.len(),
        parent[i] < i,
    ensures
        depth_at(parent, i) == depth_at(parent, parent[i] as int) + 1,
{
}

/// Indices `i < k`, ascending, with `depth[i] == d`.
pub open spec fn level_members(depth: Seq<usize>, d: int, k: int) -> Seq<usize>
    decreases k,
{
    if k <= 0 {
        Seq::empty()
    } else if depth[k - 1] == d {
        level_members(depth, d, k - 1).push((k - 1) as usize)
    } else {
        level_members(depth, d, k - 1)
    }
}

/// Greatest of `depth` (0 for none).
pub open spec fn max_depth(depth: Seq<usize>) -> int
    decreases depth.len(),
{
    if depth.len() == 0 {
        0
    } else {
        let m = max_depth(depth.drop_last());
        if depth.last() > m {
            depth.last() as int
        } else {
            m
        }
    }
}

proof fn lemma_max_depth_bound(depth: Seq<usize>)
    ensures
        forall|i: int| 0 <= i < depth.len() ==> #[trigger] depth[i] <= max_depth(depth),
        0 <= max_depth(depth) <= usize::MAX,
    decreases depth.len(),
{
    if depth.len() > 0 {
        lemma_max_depth_bound(depth.drop_last());
        assert forall|i: int| 0 <= i < depth.len() implies #[trigger] depth[i] <= max_depth(depth) by {
            if i < depth.len() - 1 {
                assert(depth[i] == depth.drop_last()[i]);
            }
        }
    }
}

/// The nodes of each depth, levels 0 to the greatest depth, each level ascending.
pub fn depth_levels(depth: &Vec<usize>) -> (levels: Vec<Vec<usize>>)
    requires
        max_depth(depth@) < usize::MAX,
    ensures
        levels@.len() == max_depth(depth@) + 1,
        forall|d: int| 0 <= d < levels@.len() ==> #[trigger] levels@[d]@ == level_members(depth@, d, depth@.len() as int),
{
    let n = depth.len();
    let mut max: usize = 0;
    let mut i: usize = 0;
    assert(depth@.take(0) =~= Seq::<usize>::empty());
    while i < n
        invariant
            n == depth@.len(),
            i <= n,
            max == max_depth(depth@.take(i as int)),
        decreases n - i,
    {
        assert(depth@.take(i + 1).drop_last() =~= depth@.take(i as int));
        if depth[i] > max {
            max = depth[i];
        }
        i = i + 1;
    }
    assert(depth@.take(n as int) =~= depth@);
    proof {
        lemma_max_depth_bound(depth@);
    }
    let mut levels: Vec<Vec<usize>> = Vec::new();
    let mut d: usize = 0;
    while d <= max
        invariant
            max == max_depth(depth@),
            max < usize::MAX,
            d <= max + 1,
            levels@.len() == d,
            forall|j: int| 0 <= j < d ==> #[trigger] levels@[j]@ == Seq::<usize>::empty(),
        decreases max + 1 - d,
    {
        levels.push(Vec::new());
        d = d + 1;
    }
    let mut k: usize = 0;
    while k < n
        invariant
            n == depth@.len(),
            max == max_depth(depth@),
            forall|i: int| 0 <= i < depth@.len() ==> #[trigger] depth@[i] <= max,
            k <= n,
            levels@.len() == max + 1,
            forall|j: int| 0 <= j < levels@.len() ==> #[trigger] levels@[j]@ == level_members(depth@, j, k as int),
        decreases n - k,
    {
        let dk = depth[k];
        let ghost before = levels@;
        levels[dk].push(k);
        assert forall|j: int| 0 <= j < levels@.len() implies #[trigger] levels@[j]@ == level_members(depth@, j, k + 1) by {
            if j != dk {
                assert(levels@[j] == before[j]);
            }
        }
        k = k + 1;
    }
    levels
}

/// Name of demo node `i`: `N` and its one-based number.
pub fn demo_node_name(i: usize) -> (s: String)
    ensures
        s@ == "N"@ + decimal((i + 1) as nat),
{
    let mut s = String::from_str("N");
    s.append(decimal_text(i as u128 + 1).as_str());
    s
}

/// Data text of demo node `i` at depth `depth`.
pub fn demo_node_data(depth: usize, i: usize) -> (s: String)
    ensures
        s@ == "Depth: "@ + decimal(depth as nat) + "\nIndex: "@ + decimal(i as nat),
{
    let mut s = String::from_str("Depth: ");
    s.append(decimal_text(depth as u128).as_str());
    s.append("\nIndex: ");
    s.append(decimal_text(i as u128).as_str());
    s
}

/// Neighbour list of the request for demo node `i`: none for the root, else
/// the id the API gave the node's parent.
pub fn demo_request_edges(parent: &Vec<usize>, created: &Vec<String>, i: usize) -> (edges: Vec<String>)
    requires
        i < parent@.len(),
        i > 0 ==> parent@[i as int] < created@.len(),
    ensures
        i == 0 ==> edges@.len() == 0,
        i > 0 ==> edges@.len() == 1 && edges@[0]@ == created@[parent@[i as int] as int]@,
{
    let mut edges: Vec<String> = Vec::new();
    if i > 0 {
        edges.push(created[parent[i]].clone());
    }
    edges
}

/// Progress of the demo loop: the next node to send, how many were sent in
/// the current tick, and the ids the API returned, in order.
pub struct DemoState {
    pub next: usize,
    pub sent_this_tick: usize,
    pub created: Vec<String>,
}

/// What the demo loop does next.
pub enum DemoAction {
    /// Send the creation request for this node.
    Post { index: usize },
    /// Wait for the next tick.
    EndTick,
    /// All nodes were sent.
    Done,
}

/// How the API answered a creation request.
pub enum DemoReply {
    /// Created, with this id.
    Created { id: String },
    /// Answered without a readable id.
    NoId,
    /// The request failed; the loop pauses before going on.
    Failed,
}

pub fn demo_start() -> (s: DemoState)
    ensures
        s.next == 0,
        s.sent_this_tick == 0,
        s.created@.len() == 0,
{
    DemoState { next: 0, sent_this_tick: 0, created: Vec::new() }
}

/// The next step for `total` nodes sent `per_tick` at a time: a full tick
/// ends; else the next node is sent while any is left; else a started tick
/// ends; else the loop is done.
pub fn demo_next_action(state: &DemoState, total: usize, per_tick: usize) -> (a: DemoAction)
    ensures
        state.sent_this_tick == per_tick ==> (a is EndTick),
        state.sent_this_tick != per_tick && state.next < total ==> (a == DemoAction::Post { index: state.next }),
        state.sent_this_tick != per_tick && state.next >= total && state.sent_this_tick > 0 ==> (a is EndTick),
        state.sent_this_tick != per_tick && state.next >= total && state.sent_this_tick == 0 ==> (a is Done),
{
    if state.sent_this_tick == per_tick {
        DemoAction::EndTick
    } else if state.next < total {
        DemoAction::Post { index: state.next }
    } else if state.sent_this_tick > 0 {
        DemoAction::EndTick
    } else {
        DemoAction::Done
    }
}

/// After a request was answered: a returned id is kept, and the loop moves to
/// the next node.
pub fn demo_after_post(state: &mut DemoState, reply: DemoReply)
    requires
        old(state).next < usize::MAX,
        old(state).sent_this_tick < usize::MAX,
    ensures
        final(state).next == old(state).next + 1,
        final(state).sent_this_tick == old(state).sent_this_tick + 1,
        final(state).created@.map_values(|c: String| c@) == match reply {
            DemoReply::Created { id } => old(state).created@.map_values(|c: String| c@).push(id@),
            _ => old(state).created@.map_values(|c: String| c@),
        },
{
    let ghost before = state.created@;
    match reply {
        DemoReply::Created { id } => {
            let ghost v = id@;
            state.created.push(id);
            assert(state.created@.map_values(|c: String| c@) =~= before.map_values(|c: String| c@).push(v));
        },
        _ => {},
    }
    state.next = state.next + 1;
    state.sent_this_tick = state.sent_this_tick + 1;
}

/// A new tick starts with nothing sent in it.
pub fn demo_after_tick(state: &mut DemoState)
    ensures
        final(state).next == old(state).next,
        final(state).sent_this_tick == 0,
        final(state).created@ == old(state).created@,
{
    state.sent_this_tick = 0;
}

} // verus!