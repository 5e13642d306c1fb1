use vstd::prelude::*;

use crate::tile_id::TileId;

verus! {

/// What simplification may do to a tree.
#[derive(Clone, Copy, Debug, PartialEq, Eq, Structural)]
pub struct SimplificationOptions {
    /// Drop containers without children.
    pub prune_empty_containers: bool,
    /// Replace a container that has exactly one child by that child.
    pub collapse_single_child_containers: bool,
    /// Every pane must be the child of a tab container: a tab container whose
    /// only child is a pane stays, unless it is itself a tab of another.
    pub all_panes_must_have_tabs: bool,
}

impl Default for SimplificationOptions {
    fn default() -> (o: SimplificationOptions)
        ensures
            o == (SimplificationOptions {
                prune_empty_containers: true,
                collapse_single_child_containers: true,
                all_panes_must_have_tabs: false,
            }),
    {
        SimplificationOptions {
            prune_empty_containers: true,
            collapse_single_child_containers: true,
            all_panes_must_have_tabs: false,
        }
    }
}

/// What simplifying a tile asks of the container that holds it.
#[derive(Clone, Copy, Debug, PartialEq, Eq, Structural)]
pub enum SimplifyAction {
    /// The tile is gone: take it off the list of children.
    Remove,
    /// The tile stays.
    Keep,
    /// Another tile takes the place of the tile.
    Replace(TileId),
}

} // verus!
