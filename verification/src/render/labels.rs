//! Which nodes carry a text label this frame.

use vstd::prelude::*;

verus! {

/// Labels spawned per frame at most, to avoid spikes.
pub const MAX_LABEL_SPAWNS_PER_FRAME: usize = 50;

/// A node shows its label when the camera is zoomed in and the node is on
/// screen, or when it is selected or hovered.
pub open spec fn label_shown(zoomed_in: bool, visible: bool, selected: bool, hovered: bool) -> bool {
    (zoomed_in && visible) || selected || hovered
}

/// What happens to one node's label.
pub enum LabelStep {
    /// Give the node a label.
    Spawn,
    /// Take the node's label away.
    Despawn,
    /// Leave it as it is.
    Keep,
    /// This frame's spawn budget is spent: handle no more nodes.
    Stop,
}

/// The step for a node that is (`labeled`) or is not labelled yet, after
/// `spawned` labels were spawned this frame.
pub fn label_step(
    zoomed_in: bool,
    visible: bool,
    selected: bool,
    hovered: bool,
    labeled: bool,
    spawned: usize,
) -> (step: LabelStep)
    ensures
        label_shown(zoomed_in, visible, selected, hovered) && !labeled ==> if spawned >= MAX_LABEL_SPAWNS_PER_FRAME {
            step is Stop
        } else {
            step is Spawn
        },
        !label_shown(zoomed_in, visible, selected, hovered) && labeled ==> (step is Despawn),
        label_shown(zoomed_in, visible, selected, hovered) == labeled ==> (step is Keep),
{
    let shown = (zoomed_in && visible) || selected || hovered;
    if shown && !labeled {
        if spawned >= MAX_LABEL_SPAWNS_PER_FRAME {
            LabelStep::Stop
        } else {
            LabelStep::Spawn
        }
    } else if !shown && labeled {
        LabelStep::Despawn
    } else {
        LabelStep::Keep
    }
}

} // verus!
