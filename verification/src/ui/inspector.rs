//! What the inspector panel shows for the selected node: its labels, its
//! neighbour and overlap lists, its text, and when the lists must be rebuilt.

use vstd::prelude::*;
use vstd::string::StringExecFns;

use crate::api::state::NodeUuidRegistry;
use crate::graph::model::{ascending_ids, ColorBits, GraphData, NodeId, TextSize, Vec2Bits};
use crate::uuid_text::{uuid_hyphenated, uuid_to_text};

verus! {

/// Whether two id lists are equal.
pub fn same_ids(a: &Vec<NodeId>, b: &Vec<NodeId>) -> (r: bool)
    ensures
        r == (a@ == b@),
{
    if a.len() != b.len() {
        return false;
    }
    let mut i: usize = 0;
    while i < a.len()
        invariant
            a@.len() == b@.len(),
            i <= a.len(),
            forall|j: int| 0 <= j < i ==> a@[j] == b@[j],
        decreases a.len() - i,
    {
        if a[i] != b[i] {
            return false;
        }
        i = i + 1;
    }
    assert(a@ =~= b@);
    true
}

/// What the panel last showed: the selected node, its overlaps and its neighbours.
pub struct InspectorCache {
    pub node_id: NodeId,
    pub overlaps: Vec<NodeId>,
    pub neighbors: Vec<NodeId>,
}

/// The lists must be rebuilt unless the panel last showed the same node with
/// the same overlaps and the same neighbours.
pub fn inspector_needs_rebuild(
    cache: &Option<InspectorCache>,
    node_id: NodeId,
    overlaps: &Vec<NodeId>,
    neighbors: &Vec<NodeId>,
) -> (r: bool)
    ensures
        r == match cache {
            None => true,
            Some(c) => c.node_id != node_id || c.overlaps@ != overlaps@ || c.neighbors@ != neighbors@,
        },
{
    match cache {
        None => true,
        Some(c) => c.node_id != node_id || !same_ids(&c.overlaps, overlaps) || !same_ids(&c.neighbors, neighbors),
    }
}

/// Decimal digits of `n`, most significant first (`"0"` for zero).
pub open spec fn decimal(n: nat) -> Seq<char>
    decreases n,
{
    if n < 10 {
        seq![(n + 48) as char]
    } else {
        decimal(n / 10).push(((n % 10) + 48) as char)
    }
}

fn digit_text(d: u128) -> (s: &'static str)
    requires
        d < 10,
    ensures
        s@ == seq![(d + 48) as char],
{
    let s = match d {
        0 => "0",
        1 => "1",
        2 => "2",
        3 => "3",
        4 => "4",
        5 => "5",
        6 => "6",
        7 => "7",
        8 => "8",
        _ => "9",
    };
    proof {
        reveal_strlit("0");
        reveal_strlit("1");
        reveal_strlit("2");
        reveal_strlit("3");
        reveal_strlit("4");
        reveal_strlit("5");
        reveal_strlit("6");
        reveal_strlit("7");
        reveal_strlit("8");
        reveal_strlit("9");
    }
    assert(s@ =~= seq![(d + 48) as char]);
    s
}

/// Decimal text of `n`.
pub fn decimal_text(n: u128) -> (s: String)
    ensures
        s@ == decimal(n as nat),
    decreases n,
{
    if n < 10 {
        String::from_str(digit_text(n))
    } else {
        let mut s = decimal_text(n / 10);
        s.append(digit_text(n % 10));
        s
    }
}

/// How a node is named in the panel: its UUID when it has one, else its id.
pub open spec fn node_label_text(registry: NodeUuidRegistry, id: NodeId) -> Seq<char> {
    if registry.node_to_uuid@.contains_key(id.0) {
        uuid_hyphenated(registry.node_to_uuid@[id.0])
    } else {
        decimal(id.0 as nat)
    }
}

/// The label of node `id`.
pub fn node_label(registry: &NodeUuidRegistry, id: NodeId) -> (s: String)
    ensures
        s@ == node_label_text(*registry, id),
{
    match registry.uuid_of(id) {
        Some(u) => uuid_to_text(u),
        None => decimal_text(id.0 as u128),
    }
}

/// The labels of `ids`, in order.
pub fn node_labels(registry: &NodeUuidRegistry, ids: &Vec<NodeId>) -> (out: Vec<String>)
    ensures
        out@.len() == ids@.len(),
        forall|i: int| 0 <= i < ids@.len() ==> #[trigger] out@[i]@ == node_label_text(*registry, ids@[i]),
{
    let mut out: Vec<String> = Vec::new();
    let mut i: usize = 0;
    while i < ids.len()
        invariant
            i <= ids.len(),
            out@.len() == i,
            forall|j: int| 0 <= j < i ==> #[trigger] out@[j]@ == node_label_text(*registry, ids@[j]),
        decreases ids.len() - i,
    {
        out.push(node_label(registry, ids[i]));
        i = i + 1;
    }
    out
}

/// What the panel shows for the selected node. `color` and `position` are
/// `f32` values as bit patterns.
pub struct InspectorView {
    pub node_id: NodeId,
    pub label: String,
    pub name: String,
    pub data: String,
    pub color: ColorBits,
    pub position: Vec2Bits,
    pub size: TextSize,
    pub neighbors: Vec<NodeId>,
    pub neighbor_labels: Vec<String>,
    pub overlaps: Vec<NodeId>,
    pub overlap_labels: Vec<String>,
}

/// The panel for the selection: hidden (`None`) when nothing is selected or
/// the selected node is gone; else the node's label and fields, its
/// neighbours ascending with their labels, and the given overlapping nodes
/// with theirs.
pub fn inspector_view(
    graph: &GraphData,
    registry: &NodeUuidRegistry,
    selected: Option<NodeId>,
    overlaps: Vec<NodeId>,
) -> (r: Option<InspectorView>)
    ensures
        match selected {
            None => r is None,
            Some(id) => if !graph.nodes@.contains_key(id.0) {
                r is None
            } else {
                &&& r is Some
                &&& r->0.node_id == id
                &&& r->0.label@ == node_label_text(*registry, id)
                &&& r->0.name@ == graph.nodes@[id.0].name@
                &&& r->0.data@ == graph.nodes@[id.0].data@
                &&& r->0.color == graph.nodes@[id.0].color
                &&& r->0.position == graph.nodes@[id.0].position
                &&& r->0.size == graph.nodes@[id.0].size
                &&& ascending_ids(r->0.neighbors@)
                &&& forall|m: NodeId| r->0.neighbors@.contains(m) <==> graph.is_neighbor(id, m)
                &&& r->0.neighbor_labels@.len() == r->0.neighbors@.len()
                &&& forall|i: int|
                    0 <= i < r->0.neighbors@.len() ==> #[trigger] r->0.neighbor_labels@[i]@ == node_label_text(
                        *registry,
                        r->0.neighbors@[i],
                    )
                &&& r->0.overlaps@ == overlaps@
                &&& r->0.overlap_labels@.len() == overlaps@.len()
                &&& forall|i: int|
                    0 <= i < overlaps@.len() ==> #[trigger] r->0.overlap_labels@[i]@ == node_label_text(
                        *registry,
                        overlaps@[i],
                    )
            },
        },
{
    let id = match selected {
        Some(id) => id,
        None => return None,
    };
    let d = match graph.nodes.get(&id.0) {
        Some(d) => d,
        None => return None,
    };
    let neighbors = graph.neighbor_node_ids(id);
    let neighbor_labels = node_labels(registry, &neighbors);
    let overlap_labels = node_labels(registry, &overlaps);
    Some(
        InspectorView {
            node_id: id,
            label: node_label(registry, id),
            name: d.name.clone(),
            data: d.data.clone(),
            color: d.color,
            position: d.position,
            size: d.size,
            neighbors,
            neighbor_labels,
            overlaps,
            overlap_labels,
        },
    )
}

/// The panel's text: id, name, colour, position, size and edge count on one
/// line each, then the data after a blank line when there is any.
pub open spec fn inspector_content(
    label: Seq<char>,
    name: Seq<char>,
    color_hex: Seq<char>,
    pos_x: Seq<char>,
    pos_y: Seq<char>,
    size: TextSize,
    edge_count: nat,
    data: Seq<char>,
) -> Seq<char> {
    let head = "ID: "@ + label + "\nName: "@ + name + "\nColor: "@ + color_hex + "\nPos: ("@ + pos_x + ", "@ + pos_y
        + ")\nSize: "@ + decimal(size.width as nat) + " x "@ + decimal(size.height as nat) + "\nEdges: "@
        + decimal(edge_count);
    if data.len() == 0 {
        head
    } else {
        head + "\n\nData:\n"@ + data
    }
}

/// The panel's text for `view`, with the colour already written as `#RRGGBB`
/// and the position coordinates already written as whole numbers.
pub fn inspector_text(view: &InspectorView, color_hex: &str, pos_x: &str, pos_y: &str) -> (s: String)
    ensures
        s@ == inspector_content(
            view.label@,
            view.name@,
            color_hex@,
            pos_x@,
            pos_y@,
            view.size,
            view.neighbors@.len(),
            view.data@,
        ),
{
    let mut s = String::new();
    s.append("ID: ");
    s.append(view.label.as_str());
    s.append("\nName: ");
    s.append(view.name.as_str());
    s.append("\nColor: ");
    s.append(color_hex);
    s.append("\nPos: (");
    s.append(pos_x);
    s.append(", ");
    s.append(pos_y);
    s.append(")\nSize: ");
    s.append(decimal_text(view.size.width).as_str());
    s.append(" x ");
    s.append(decimal_text(view.size.height).as_str());
    s.append("\nEdges: ");
    s.append(decimal_text(view.neighbors.len() as u128).as_str());
    if !view.data.as_str().is_empty() {
        s.append("\n\nData:\n");
        s.append(view.data.as_str());
    }
    s
}

} // verus!
