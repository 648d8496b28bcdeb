//! Per-node state of the force-directed layout. Vectors and scalars are
//! `f32` values held as bit patterns; the force computations themselves run
//! outside this crate.

use std::collections::HashMap;
use vstd::prelude::*;
use vstd::std_specs::iter::IteratorSpec;

use crate::graph::model::{NodeId, Vec2Bits};

verus! {

broadcast use vstd::std_specs::hash::group_hash_axioms;

/// The zero vector (both `0.0_f32`, whose bit pattern is 0).
pub open spec fn zero_vec() -> Vec2Bits {
    Vec2Bits { x: 0, y: 0 }
}

/// Bit pattern of `1.0_f32`.
pub const ONE_F32_BITS: u32 = 0x3F80_0000;

/// Persistent layout state that survives across frames.
pub struct LayoutEngine {
    /// Per-node velocity, accumulated between frames.
    pub velocities: HashMap<u64, Vec2Bits>,
    /// Per-node previous force, for the swing/traction estimate.
    pub prev_forces: HashMap<u64, Vec2Bits>,
    /// Per-node force accumulator, cleared at the start of each step.
    pub forces: HashMap<u64, Vec2Bits>,
    /// Global speed factor (`f32` bits; adapts automatically).
    pub global_speed: u32,
    /// Sum of per-node swing across the last step (`f32` bits).
    pub global_swing: u32,
    /// Sum of per-node traction across the last step (`f32` bits).
    pub global_traction: u32,
    /// True when the average displacement fell below the convergence threshold.
    pub is_converged: bool,
    /// Round-robin cursor into the node list for work-budget cycling.
    pub round_robin_cursor: usize,
    /// Edge count seen last frame, to notice edge-only topology changes.
    pub last_edge_count: usize,
}

impl Default for LayoutEngine {
    fn default() -> (e: LayoutEngine)
        ensures
            e.velocities@ == Map::<u64, Vec2Bits>::empty(),
            e.prev_forces@ == Map::<u64, Vec2Bits>::empty(),
            e.forces@ == Map::<u64, Vec2Bits>::empty(),
            e.global_speed == ONE_F32_BITS,
            e.global_swing == 0,
            e.global_traction == 0,
            !e.is_converged,
            e.round_robin_cursor == 0,
            e.last_edge_count == 0,
    {
        LayoutEngine {
            velocities: HashMap::new(),
            prev_forces: HashMap::new(),
            forces: HashMap::new(),
            global_speed: ONE_F32_BITS,
            global_swing: 0,
            global_traction: 0,
            is_converged: false,
            round_robin_cursor: 0,
            last_edge_count: 0,
        }
    }
}

/// `m` with `k` mapped to zero unless it already has `k`.
pub open spec fn with_zero_entry(m: Map<u64, Vec2Bits>, k: u64) -> Map<u64, Vec2Bits> {
    if m.contains_key(k) {
        m
    } else {
        m.insert(k, zero_vec())
    }
}

fn insert_zero_if_absent(m: &mut HashMap<u64, Vec2Bits>, k: u64)
    ensures
        final(m)@ == with_zero_entry(old(m)@, k),
{
    if !m.contains_key(&k) {
        m.insert(k, Vec2Bits { x: 0, y: 0 });
    }
}

impl LayoutEngine {
    /// Starts tracking a node with zero velocity and zero previous force
    /// (existing entries are kept); the layout is no longer converged.
    pub fn register_node(&mut self, id: NodeId)
        ensures
            final(self).velocities@ == with_zero_entry(old(self).velocities@, id.0),
            final(self).prev_forces@ == with_zero_entry(old(self).prev_forces@, id.0),
            final(self).forces@ == old(self).forces@,
            !final(self).is_converged,
            final(self).global_speed == old(self).global_speed,
            final(self).global_swing == old(self).global_swing,
            final(self).global_traction == old(self).global_traction,
            final(self).round_robin_cursor == old(self).round_robin_cursor,
            final(self).last_edge_count == old(self).last_edge_count,
    {
        insert_zero_if_absent(&mut self.velocities, id.0);
        insert_zero_if_absent(&mut self.prev_forces, id.0);
        self.is_converged = false;
    }

    /// Drops all state for a deleted node.
    pub fn remove_node(&mut self, id: NodeId)
        ensures
            final(self).velocities@ == old(self).velocities@.remove(id.0),
            final(self).prev_forces@ == old(self).prev_forces@.remove(id.0),
            final(self).forces@ == old(self).forces@.remove(id.0),
            final(self).is_converged == old(self).is_converged,
            final(self).global_speed == old(self).global_speed,
            final(self).global_swing == old(self).global_swing,
            final(self).global_traction == old(self).global_traction,
            final(self).round_robin_cursor == old(self).round_robin_cursor,
            final(self).last_edge_count == old(self).last_edge_count,
    {
        self.velocities.remove(&id.0);
        self.prev_forces.remove(&id.0);
        self.forces.remove(&id.0);
        assert(self.velocities@ =~= old(self).velocities@.remove(id.0));
        assert(self.prev_forces@ =~= old(self).prev_forces@.remove(id.0));
        assert(self.forces@ =~= old(self).forces@.remove(id.0));
    }

    /// Zeroes every force accumulator (the set of tracked nodes stays).
    pub fn clear_forces(&mut self)
        ensures
            final(self).forces@.dom() == old(self).forces@.dom(),
            forall|k: u64| #[trigger] final(self).forces@.contains_key(k) ==> final(self).forces@[k] == zero_vec(),
            final(self).velocities == old(self).velocities,
            final(self).prev_forces == old(self).prev_forces,
            final(self).is_converged == old(self).is_converged,
            final(self).global_speed == old(self).global_speed,
            final(self).global_swing == old(self).global_swing,
            final(self).global_traction == old(self).global_traction,
            final(self).round_robin_cursor == old(self).round_robin_cursor,
            final(self).last_edge_count == old(self).last_edge_count,
    {
        let mut keys: Vec<u64> = Vec::new();
        let ghost all = self.forces.keys().remaining().unref();
        assert(all.take(all.len() as int) =~= all);
        for k in it: self.forces.keys()
            invariant
                it.seq().unref() == all,
                all.to_set() == self.forces@.dom(),
                all.no_duplicates(),
                keys@ == all.take(it.index() as int),
        {
            let ghost i0 = it.index();
            keys.push(*k);
            assert(all.take(i0 + 1) =~= all.take(i0 as int).push(*k));
        }
        let ghost dom = self.forces@.dom();
        let mut i: usize = 0;
        while i < keys.len()
            invariant
                self.velocities == old(self).velocities,
                self.prev_forces == old(self).prev_forces,
                self.is_converged == old(self).is_converged,
                self.global_speed == old(self).global_speed,
                self.global_swing == old(self).global_swing,
                self.global_traction == old(self).global_traction,
                self.round_robin_cursor == old(self).round_robin_cursor,
                self.last_edge_count == old(self).last_edge_count,
                dom == old(self).forces@.dom(),
                keys@.to_set() == dom,
                i <= keys.len(),
                self.forces@.dom() == dom,
                forall|j: int| 0 <= j < i ==> #[trigger] self.forces@[keys@[j]] == zero_vec(),
            decreases keys.len() - i,
        {
            self.forces.insert(keys[i], Vec2Bits { x: 0, y: 0 });
            assert(keys@.to_set().contains(keys@[i as int]));
            assert(self.forces@.dom() =~= dom);
            i = i + 1;
        }
        assert forall|k: u64| #[trigger] self.forces@.contains_key(k) implies self.forces@[k] == zero_vec() by {
            assert(keys@.to_set().contains(k));
            let j = choose|j: int| 0 <= j < keys@.len() && keys@[j] == k;
            assert(self.forces@[keys@[j]] == zero_vec());
        }
    }

    /// Gives every tracked node a force entry (zero where it had none).
    pub fn ensure_force_entries(&mut self)
        ensures
            final(self).forces@.dom() == old(self).forces@.dom().union(old(self).velocities@.dom()),
            forall|k: u64| #[trigger] final(self).forces@.contains_key(k) ==> final(self).forces@[k] == if old(self).forces@.contains_key(k) {
                old(self).forces@[k]
            } else {
                zero_vec()
            },
            final(self).velocities == old(self).velocities,
            final(self).prev_forces == old(self).prev_forces,
            final(self).is_converged == old(self).is_converged,
            final(self).global_speed == old(self).global_speed,
            final(self).global_swing == old(self).global_swing,
            final(self).global_traction == old(self).global_traction,
            final(self).round_robin_cursor == old(self).round_robin_cursor,
            final(self).last_edge_count == old(self).last_edge_count,
    {
        let ghost all = self.velocities.keys().remaining().unref();
        let ghost f0 = self.forces@;
        assert(all.take(all.len() as int) =~= all);
        let mut keys: Vec<u64> = Vec::new();
        for k in it: self.velocities.keys()
            invariant
                it.seq().unref() == all,
                all.to_set() == self.velocities@.dom(),
                keys@ == all.take(it.index() as int),
        {
            let ghost i0 = it.index();
            keys.push(*k);
            assert(all.take(i0 + 1) =~= all.take(i0 as int).push(*k));
        }
        assert(keys@.take(0) =~= Seq::<u64>::empty());
        assert(f0.dom().union(Set::<u64>::empty()) =~= f0.dom());
        let mut i: usize = 0;
        while i < keys.len()
            invariant
                self.velocities == old(self).velocities,
                self.prev_forces == old(self).prev_forces,
                self.is_converged == old(self).is_converged,
                self.global_speed == old(self).global_speed,
                self.global_swing == old(self).global_swing,
                self.global_traction == old(self).global_traction,
                self.round_robin_cursor == old(self).round_robin_cursor,
                self.last_edge_count == old(self).last_edge_count,
                f0 == old(self).forces@,
                keys@.to_set() == old(self).velocities@.dom(),
                i <= keys.len(),
                self.forces@.dom() == f0.dom().union(keys@.take(i as int).to_set()),
                forall|k: u64| #[trigger] self.forces@.contains_key(k) ==> self.forces@[k] == if f0.contains_key(k) {
                    f0[k]
                } else {
                    zero_vec()
                },
            decreases keys.len() - i,
        {
            insert_zero_if_absent(&mut self.forces, keys[i]);
            assert(keys@.take(i + 1) =~= keys@.take(i as int).push(keys@[i as int]));
            proof {
                keys@.take(i as int).lemma_push_to_set_commute(keys@[i as int]);
            }
            assert(self.forces@.dom() =~= f0.dom().union(keys@.take(i + 1).to_set()));
            i = i + 1;
        }
        assert(keys@.take(keys.len() as int) =~= keys@);
    }

    /// Whether the engine already tracks node `id`.
    pub fn knows_node(&self, id: NodeId) -> (r: bool)
        ensures
            r == self.velocities@.contains_key(id.0),
    {
        self.velocities.contains_key(&id.0)
    }
}

/// A registered node is known, keeps any velocity it had, and starts at rest
/// otherwise; a removed node is not known.
pub proof fn lemma_register_then_known(velocities: Map<u64, Vec2Bits>, id: NodeId)
    ensures
        with_zero_entry(velocities, id.0).contains_key(id.0),
        velocities.contains_key(id.0) ==> with_zero_entry(velocities, id.0)[id.0] == velocities[id.0],
        !velocities.contains_key(id.0) ==> with_zero_entry(velocities, id.0)[id.0] == zero_vec(),
        !with_zero_entry(velocities, id.0).remove(id.0).contains_key(id.0),
{
}

} // verus!
