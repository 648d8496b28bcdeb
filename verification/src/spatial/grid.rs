//! The spatial grid: for each chunk of the plane, the nodes that sit in it,
//! the edges whose two ends share it, and the edges that cross into it.

use std::collections::HashMap;
use vstd::prelude::*;
use vstd::std_specs::iter::IteratorSpec;

use crate::graph::model::{remove_edge_id, remove_node_id, EdgeId, NodeId};
use crate::seqs::{lemma_without_contains, without};

verus! {

broadcast use vstd::std_specs::hash::group_hash_axioms;

/// Integer coordinate of a chunk of the plane.
#[derive(Clone, Copy, Debug, PartialEq, Eq, Hash, Structural)]
pub struct ChunkCoord {
    pub x: i32,
    pub y: i32,
}

pub open spec fn key_of(x: int, y: int) -> int {
    (x + 0x8000_0000) * 0x1_0000_0000 + (y + 0x8000_0000)
}

impl ChunkCoord {
    /// The 64-bit key under which the grid stores this chunk.
    pub open spec fn spec_key(self) -> u64 {
        key_of(self.x as int, self.y as int) as u64
    }

    pub proof fn lemma_key_range(self)
        ensures
            0 <= key_of(self.x as int, self.y as int) <= u64::MAX,
            self.spec_key() as int == key_of(self.x as int, self.y as int),
    {
        let a = self.x + 0x8000_0000;
        let b = self.y + 0x8000_0000;
        assert(0 <= a * 0x1_0000_0000 <= 0xFFFF_FFFF * 0x1_0000_0000) by (nonlinear_arith)
            requires
                0 <= a <= 0xFFFF_FFFF,
        ;
    }

    /// Distinct chunks have distinct keys.
    pub proof fn lemma_key_injective(a: ChunkCoord, b: ChunkCoord)
        ensures
            a.spec_key() == b.spec_key() ==> a == b,
    {
        a.lemma_key_range();
        b.lemma_key_range();
        let p = a.x + 0x8000_0000;
        let q = a.y + 0x8000_0000;
        let r = b.x + 0x8000_0000;
        let s = b.y + 0x8000_0000;
        if a.spec_key() == b.spec_key() {
            assert(p == r && q == s) by (nonlinear_arith)
                requires
                    p * 0x1_0000_0000 + q == r * 0x1_0000_0000 + s,
                    0 <= q < 0x1_0000_0000,
                    0 <= s < 0x1_0000_0000,
            ;
        }
    }

    pub fn key(&self) -> (k: u64)
        ensures
            k == self.spec_key(),
    {
        proof {
            self.lemma_key_range();
        }
        let a: u64 = (self.x as i64 + 0x8000_0000) as u64;
        let b: u64 = (self.y as i64 + 0x8000_0000) as u64;
        assert(a * 0x1_0000_0000 <= 0xFFFF_FFFF * 0x1_0000_0000) by (nonlinear_arith)
            requires
                a <= 0xFFFF_FFFF,
        ;
        a * 0x1_0000_0000 + b
    }

    /// The chunk stored under `key`.
    pub fn from_key(key: u64) -> (c: ChunkCoord)
        ensures
            c.spec_key() == key,
    {
        let hi: u64 = key / 0x1_0000_0000;
        let lo: u64 = key % 0x1_0000_0000;
        let c = ChunkCoord { x: (hi as i64 - 0x8000_0000) as i32, y: (lo as i64 - 0x8000_0000) as i32 };
        proof {
            c.lemma_key_range();
        }
        c
    }
}

/// What a chunk holds, as sequences.
pub struct ChunkView {
    pub node_ids: Seq<NodeId>,
    pub edge_ids: Seq<EdgeId>,
    pub cross_edges: Seq<EdgeId>,
    pub entity: Option<u64>,
    pub dirty: bool,
}

pub open spec fn empty_chunk() -> ChunkView {
    ChunkView {
        node_ids: Seq::empty(),
        edge_ids: Seq::empty(),
        cross_edges: Seq::empty(),
        entity: None,
        dirty: false,
    }
}

/// Contents of one chunk. `entity` is the render entity (its bits) once spawned;
/// `dirty` marks that the chunk's mesh must be rebuilt.
pub struct ChunkData {
    pub node_ids: Vec<NodeId>,
    pub edge_ids: Vec<EdgeId>,
    pub cross_edges: Vec<EdgeId>,
    pub entity: Option<u64>,
    pub dirty: bool,
}

impl View for ChunkData {
    type V = ChunkView;

    open spec fn view(&self) -> ChunkView {
        ChunkView {
            node_ids: self.node_ids@,
            edge_ids: self.edge_ids@,
            cross_edges: self.cross_edges@,
            entity: self.entity,
            dirty: self.dirty,
        }
    }
}

impl Default for ChunkData {
    fn default() -> (c: ChunkData)
        ensures
            c@ == empty_chunk(),
    {
        ChunkData {
            node_ids: Vec::new(),
            edge_ids: Vec::new(),
            cross_edges: Vec::new(),
            entity: None,
            dirty: false,
        }
    }
}

/// The grid: chunk key to chunk contents.
pub struct SpatialGrid {
    pub cells: HashMap<u64, ChunkData>,
}

impl View for SpatialGrid {
    type V = Map<u64, ChunkView>;

    open spec fn view(&self) -> Map<u64, ChunkView> {
        self.cells@.map_values(|c: ChunkData| c@)
    }
}

/// The chunk `c` as it is in `g`, empty where `g` has no entry for it.
pub open spec fn cell_of(g: Map<u64, ChunkView>, c: ChunkCoord) -> ChunkView {
    if g.contains_key(c.spec_key()) {
        g[c.spec_key()]
    } else {
        empty_chunk()
    }
}

pub open spec fn with_node(v: ChunkView, id: NodeId) -> ChunkView {
    ChunkView { node_ids: v.node_ids.push(id), dirty: true, ..v }
}

pub open spec fn with_edge(v: ChunkView, id: EdgeId) -> ChunkView {
    ChunkView { edge_ids: v.edge_ids.push(id), dirty: true, ..v }
}

pub open spec fn with_cross_edge(v: ChunkView, id: EdgeId) -> ChunkView {
    ChunkView { cross_edges: v.cross_edges.push(id), dirty: true, ..v }
}

pub open spec fn without_node(v: ChunkView, id: NodeId) -> ChunkView {
    ChunkView { node_ids: without(v.node_ids, id), dirty: true, ..v }
}

pub open spec fn without_edge(v: ChunkView, id: EdgeId) -> ChunkView {
    ChunkView { edge_ids: without(v.edge_ids, id), dirty: true, ..v }
}

pub open spec fn without_cross_edge(v: ChunkView, id: EdgeId) -> ChunkView {
    ChunkView { cross_edges: without(v.cross_edges, id), dirty: true, ..v }
}

pub open spec fn marked_dirty(v: ChunkView) -> ChunkView {
    ChunkView { dirty: true, ..v }
}

/// Grid after adding `id` to the nodes of chunk `c`.
pub open spec fn grid_insert_node(g: Map<u64, ChunkView>, id: NodeId, c: ChunkCoord) -> Map<u64, ChunkView> {
    g.insert(c.spec_key(), with_node(cell_of(g, c), id))
}

pub open spec fn grid_insert_edge(g: Map<u64, ChunkView>, id: EdgeId, c: ChunkCoord) -> Map<u64, ChunkView> {
    g.insert(c.spec_key(), with_edge(cell_of(g, c), id))
}

pub open spec fn grid_insert_cross_edge(g: Map<u64, ChunkView>, id: EdgeId, c: ChunkCoord) -> Map<u64, ChunkView> {
    g.insert(c.spec_key(), with_cross_edge(cell_of(g, c), id))
}

/// Grid after dropping `id` from the nodes of chunk `c`; no change where `c` has no entry.
pub open spec fn grid_remove_node(g: Map<u64, ChunkView>, id: NodeId, c: ChunkCoord) -> Map<u64, ChunkView> {
    if g.contains_key(c.spec_key()) {
        g.insert(c.spec_key(), without_node(g[c.spec_key()], id))
    } else {
        g
    }
}

pub open spec fn grid_remove_edge(g: Map<u64, ChunkView>, id: EdgeId, c: ChunkCoord) -> Map<u64, ChunkView> {
    if g.contains_key(c.spec_key()) {
        g.insert(c.spec_key(), without_edge(g[c.spec_key()], id))
    } else {
        g
    }
}

pub open spec fn grid_remove_cross_edge(g: Map<u64, ChunkView>, id: EdgeId, c: ChunkCoord) -> Map<u64, ChunkView> {
    if g.contains_key(c.spec_key()) {
        g.insert(c.spec_key(), without_cross_edge(g[c.spec_key()], id))
    } else {
        g
    }
}

/// Grid after marking chunk `c` dirty; no change where `c` has no entry.
pub open spec fn grid_mark_dirty(g: Map<u64, ChunkView>, c: ChunkCoord) -> Map<u64, ChunkView> {
    if g.contains_key(c.spec_key()) {
        g.insert(c.spec_key(), marked_dirty(g[c.spec_key()]))
    } else {
        g
    }
}

impl SpatialGrid {
    pub fn new() -> (g: SpatialGrid)
        ensures
            g@ == Map::<u64, ChunkView>::empty(),
    {
        let g = SpatialGrid { cells: HashMap::new() };
        assert(g@ =~= Map::<u64, ChunkView>::empty());
        g
    }

    /// Takes the chunk at `key` out of the grid (an empty one where there is none).
    fn take_cell(&mut self, key: u64) -> (c: ChunkData)
        ensures
            final(self)@ == old(self)@.remove(key),
            c@ == (if old(self)@.contains_key(key) { old(self)@[key] } else { empty_chunk() }),
    {
        let c = match self.cells.remove(&key) {
            Some(c) => c,
            None => ChunkData::default(),
        };
        assert(self@ =~= old(self)@.remove(key));
        c
    }

    fn put_cell(&mut self, key: u64, c: ChunkData)
        ensures
            final(self)@ == old(self)@.insert(key, c@),
    {
        self.cells.insert(key, c);
        assert(self@ =~= old(self)@.insert(key, c@));
    }

    pub fn insert_node(&mut self, id: NodeId, chunk: ChunkCoord)
        ensures
            final(self)@ == grid_insert_node(old(self)@, id, chunk),
    {
        let k = chunk.key();
        let mut cell = self.take_cell(k);
        cell.node_ids.push(id);
        cell.dirty = true;
        self.put_cell(k, cell);
        assert(self@ =~= grid_insert_node(old(self)@, id, chunk));
    }

    pub fn insert_edge(&mut self, id: EdgeId, chunk: ChunkCoord)
        ensures
            final(self)@ == grid_insert_edge(old(self)@, id, chunk),
    {
        let k = chunk.key();
        let mut cell = self.take_cell(k);
        cell.edge_ids.push(id);
        cell.dirty = true;
        self.put_cell(k, cell);
        assert(self@ =~= grid_insert_edge(old(self)@, id, chunk));
    }

    pub fn insert_cross_edge(&mut self, id: EdgeId, chunk: ChunkCoord)
        ensures
            final(self)@ == grid_insert_cross_edge(old(self)@, id, chunk),
    {
        let k = chunk.key();
        let mut cell = self.take_cell(k);
        cell.cross_edges.push(id);
        cell.dirty = true;
        self.put_cell(k, cell);
        assert(self@ =~= grid_insert_cross_edge(old(self)@, id, chunk));
    }

    pub fn move_node(&mut self, id: NodeId, old_chunk: ChunkCoord, new_chunk: ChunkCoord)
        ensures
            final(self)@ == grid_insert_node(grid_remove_node(old(self)@, id, old_chunk), id, new_chunk),
    {
        self.remove_node(id, old_chunk);
        self.insert_node(id, new_chunk);
    }

    pub fn remove_node(&mut self, id: NodeId, chunk: ChunkCoord)
        ensures
            final(self)@ == grid_remove_node(old(self)@, id, chunk),
    {
        let k = chunk.key();
        if self.cells.contains_key(&k) {
            let mut cell = self.take_cell(k);
            remove_node_id(&mut cell.node_ids, id);
            cell.dirty = true;
            self.put_cell(k, cell);
            assert(self@ =~= grid_remove_node(old(self)@, id, chunk));
        }
    }

    pub fn remove_edge(&mut self, id: EdgeId, chunk: ChunkCoord)
        ensures
            final(self)@ == grid_remove_edge(old(self)@, id, chunk),
    {
        let k = chunk.key();
        if self.cells.contains_key(&k) {
            let mut cell = self.take_cell(k);
            remove_edge_id(&mut cell.edge_ids, id);
            cell.dirty = true;
            self.put_cell(k, cell);
            assert(self@ =~= grid_remove_edge(old(self)@, id, chunk));
        }
    }

    pub fn remove_cross_edge(&mut self, id: EdgeId, chunk: ChunkCoord)
        ensures
            final(self)@ == grid_remove_cross_edge(old(self)@, id, chunk),
    {
        let k = chunk.key();
        if self.cells.contains_key(&k) {
            let mut cell = self.take_cell(k);
            remove_edge_id(&mut cell.cross_edges, id);
            cell.dirty = true;
            self.put_cell(k, cell);
            assert(self@ =~= grid_remove_cross_edge(old(self)@, id, chunk));
        }
    }

    /// Marks an existing chunk as needing a mesh rebuild.
    pub fn mark_dirty(&mut self, chunk: ChunkCoord)
        ensures
            final(self)@ == grid_mark_dirty(old(self)@, chunk),
    {
        let k = chunk.key();
        if self.cells.contains_key(&k) {
            let mut cell = self.take_cell(k);
            cell.dirty = true;
            self.put_cell(k, cell);
            assert(self@ =~= grid_mark_dirty(old(self)@, chunk));
        }
    }
}

/// The keys of `ks` (in order) whose chunk in `g` is dirty.
pub open spec fn dirty_keys(g: Map<u64, ChunkView>, ks: Seq<u64>) -> Seq<u64>
    decreases ks.len(),
{
    if ks.len() == 0 {
        Seq::empty()
    } else {
        let rest = dirty_keys(g, ks.drop_last());
        if g.contains_key(ks.last()) && g[ks.last()].dirty {
            rest.push(ks.last())
        } else {
            rest
        }
    }
}

/// The dirty keys picked from `ks` are exactly the keys of `ks` whose chunk
/// exists and is dirty, whatever else the chunk holds (a render entity
/// included); picked from keys each met once, each is picked once.
pub proof fn lemma_dirty_keys_are_dirty_chunks(g: Map<u64, ChunkView>, ks: Seq<u64>)
    ensures
        forall|k: u64| #[trigger] dirty_keys(g, ks).contains(k) <==> (ks.contains(k) && g.contains_key(k) && g[k].dirty),
        ks.no_duplicates() ==> dirty_keys(g, ks).no_duplicates(),
        dirty_keys(g, ks).len() <= ks.len(),
    decreases ks.len(),
{
    if ks.len() > 0 {
        let pre = ks.drop_last();
        let x = ks.last();
        lemma_dirty_keys_are_dirty_chunks(g, pre);
        let rest = dirty_keys(g, pre);
        assert forall|k: u64| ks.contains(k) <==> (pre.contains(k) || k == x) by {
            if ks.contains(k) {
                let i = choose|i: int| 0 <= i < ks.len() && ks[i] == k;
                if i < pre.len() {
                    assert(pre[i] == k);
                }
            }
            if pre.contains(k) {
                let i = choose|i: int| 0 <= i < pre.len() && pre[i] == k;
                assert(ks[i] == k);
            }
            if k == x {
                assert(ks[ks.len() - 1] == k);
            }
        }
        if g.contains_key(x) && g[x].dirty {
            assert forall|k: u64| #[trigger] rest.push(x).contains(k) <==> (rest.contains(k) || k == x) by {
                if rest.push(x).contains(k) {
                    let i = choose|i: int| 0 <= i < rest.push(x).len() && rest.push(x)[i] == k;
                    if i < rest.len() {
                        assert(rest[i] == k);
                    }
                }
                if rest.contains(k) {
                    let i = choose|i: int| 0 <= i < rest.len() && rest[i] == k;
                    assert(rest.push(x)[i] == k);
                }
                if k == x {
                    assert(rest.push(x)[rest.len() as int] == k);
                }
            }
            if ks.no_duplicates() {
                assert(!pre.contains(x)) by {
                    if pre.contains(x) {
                        let i = choose|i: int| 0 <= i < pre.len() && pre[i] == x;
                        assert(ks[i] == ks[ks.len() - 1]);
                    }
                }
                assert(pre.no_duplicates()) by {
                    assert forall|i: int, j: int| 0 <= i < pre.len() && 0 <= j < pre.len() && i != j implies pre[i] != pre[j] by {
                        assert(pre[i] == ks[i] && pre[j] == ks[j]);
                    }
                }
                assert forall|i: int, j: int|
                    0 <= i < rest.push(x).len() && 0 <= j < rest.push(x).len() && i != j implies rest.push(x)[i] != rest.push(
                    x,
                )[j] by {
                    if i < rest.len() && j < rest.len() {
                        assert(rest[i] != rest[j]);
                    } else if i < rest.len() {
                        assert(rest.contains(rest[i]));
                    } else if j < rest.len() {
                        assert(rest.contains(rest[j]));
                    }
                }
            }
        } else {
            if ks.no_duplicates() {
                assert(pre.no_duplicates()) by {
                    assert forall|i: int, j: int| 0 <= i < pre.len() && 0 <= j < pre.len() && i != j implies pre[i] != pre[j] by {
                        assert(pre[i] == ks[i] && pre[j] == ks[j]);
                    }
                }
            }
        }
    }
}

/// What picking at most `limit` dirty keys from all the keys gives.
proof fn lemma_picked_dirty_keys(g: Map<u64, ChunkView>, ks: Seq<u64>, keys: Seq<u64>, limit: int)
    requires
        ks.no_duplicates(),
        ks.to_set() == g.dom(),
        0 <= limit,
        keys == if dirty_keys(g, ks).len() <= limit {
            dirty_keys(g, ks)
        } else {
            dirty_keys(g, ks).take(limit)
        },
    ensures
        keys.len() <= limit,
        keys.no_duplicates(),
        forall|k: u64| #[trigger] keys.contains(k) ==> g.contains_key(k) && g[k].dirty,
        keys.len() < limit ==> forall|k: u64| g.contains_key(k) && #[trigger] g[k].dirty ==> keys.contains(k),
{
    let d = dirty_keys(g, ks);
    lemma_dirty_keys_are_dirty_chunks(g, ks);
    if d.len() > limit {
        assert forall|k: u64| #[trigger] keys.contains(k) implies d.contains(k) by {
            let i = choose|i: int| 0 <= i < keys.len() && keys[i] == k;
            assert(d[i] == k);
        }
        assert forall|i: int, j: int| 0 <= i < keys.len() && 0 <= j < keys.len() && i != j implies keys[i] != keys[j] by {
            assert(keys[i] == d[i] && keys[j] == d[j]);
        }
    } else {
        assert forall|k: u64| g.contains_key(k) && #[trigger] g[k].dirty implies keys.contains(k) by {
            assert(ks.to_set().contains(k));
        }
    }
}

impl SpatialGrid {
    /// Keys of the first `limit` dirty chunks met while walking the grid (all
    /// of them when there are fewer); the walking order is the hash map's.
    /// Every key returned is of a dirty chunk, each once, at most `limit` of
    /// them; when fewer than `limit` come back, every dirty chunk is among
    /// them, whether or not it already has a render entity.
    pub fn dirty_chunk_keys(&self, limit: usize) -> (keys: Vec<u64>)
        ensures
            keys@.len() <= limit,
            keys@.no_duplicates(),
            forall|k: u64| #[trigger] keys@.contains(k) ==> self@.contains_key(k) && self@[k].dirty,
            keys@.len() < limit ==> forall|k: u64|
                self@.contains_key(k) && #[trigger] self@[k].dirty ==> keys@.contains(k),
            exists|ks: Seq<u64>|
                #![trigger dirty_keys(self@, ks)]
                {
                    &&& ks.no_duplicates()
                    &&& ks.to_set() == self@.dom()
                    &&& keys@ == if dirty_keys(self@, ks).len() <= limit {
                        dirty_keys(self@, ks)
                    } else {
                        dirty_keys(self@, ks).take(limit as int)
                    }
                },
    {
        let mut keys: Vec<u64> = Vec::new();
        let ghost all = self.cells.keys().remaining().unref();
        assert(all.take(all.len() as int) =~= all);
        assert(all.take(0) =~= Seq::<u64>::empty());
        assert(self@.dom() =~= self.cells@.dom());
        for k in it: self.cells.keys()
            invariant
                it.seq().unref() == all,
                all.no_duplicates(),
                all.to_set() == self@.dom(),
                keys@.len() <= limit,
                keys@ == if dirty_keys(self@, all.take(it.index() as int)).len() <= limit {
                    dirty_keys(self@, all.take(it.index() as int))
                } else {
                    dirty_keys(self@, all.take(it.index() as int)).take(limit as int)
                },
        {
            let ghost i0 = it.index();
            let ghost pre = all.take(i0 as int);
            assert(all.take(i0 + 1).drop_last() =~= pre);
            assert(all.take(i0 + 1).last() == *k);
            let ghost d0 = dirty_keys(self@, pre);
            let ghost d1 = dirty_keys(self@, all.take(i0 + 1));
            let dirty = match self.cells.get(k) {
                Some(c) => c.dirty,
                None => false,
            };
            if dirty && keys.len() < limit {
                keys.push(*k);
                assert(d1 == d0.push(*k));
            } else if dirty {
                assert(d1 == d0.push(*k));
                assert(d1.take(limit as int) =~= (if d0.len() <= limit {
                    d0
                } else {
                    d0.take(limit as int)
                }));
            } else {
                assert(d1 == d0);
            }
        }
        proof {
            lemma_picked_dirty_keys(self@, all, keys@, limit as int);
        }
        keys
    }

    /// Records that the mesh of chunk `key` was rebuilt: it is clean, and it
    /// keeps its render entity or takes `spawned` when it had none.
    pub fn mark_rebuilt(&mut self, key: u64, spawned: Option<u64>)
        ensures
            final(self)@ == if old(self)@.contains_key(key) {
                old(self)@.insert(
                    key,
                    ChunkView {
                        dirty: false,
                        entity: if old(self)@[key].entity is Some {
                            old(self)@[key].entity
                        } else {
                            spawned
                        },
                        ..old(self)@[key]
                    },
                )
            } else {
                old(self)@
            },
    {
        if self.cells.contains_key(&key) {
            let mut cell = self.take_cell(key);
            if cell.entity.is_none() {
                cell.entity = spawned;
            }
            cell.dirty = false;
            self.put_cell(key, cell);
        }
    }
}

/// After moving a node between chunks it is listed in the new chunk and no
/// longer in the old one (when they differ); other chunks are untouched.
pub proof fn lemma_move_node(g: Map<u64, ChunkView>, id: NodeId, from: ChunkCoord, to: ChunkCoord, other: ChunkCoord)
    ensures
        ({
            let h = grid_insert_node(grid_remove_node(g, id, from), id, to);
            &&& cell_of(h, to).node_ids.contains(id)
            &&& from != to ==> !cell_of(h, from).node_ids.contains(id)
            &&& other != from && other != to ==> cell_of(h, other) == cell_of(g, other)
        }),
{
    let g1 = grid_remove_node(g, id, from);
    let h = grid_insert_node(g1, id, to);
    let l = cell_of(h, to).node_ids;
    assert(l[l.len() - 1] == id);
    ChunkCoord::lemma_key_injective(from, to);
    ChunkCoord::lemma_key_injective(other, to);
    ChunkCoord::lemma_key_injective(other, from);
    if from != to && g.contains_key(from.spec_key()) {
        lemma_without_contains(g[from.spec_key()].node_ids, id, id);
    }
}

} // verus!
