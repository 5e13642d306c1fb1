use vstd::prelude::*;

use crate::container::drop_zones::{linear_drop_zones, DropZone};
use crate::container::{ContainerKind, LinearDir};
use crate::geometry::{distance_sq, distance_sq_of, Pos, Rect, Rects};
use crate::tile_id::TileId;

verus! {

/// Where among the children of a container a tile is to go, and of which
/// kind that container is to be.
#[derive(Clone, Copy, Debug, PartialEq, Eq, Structural)]
pub enum ContainerInsertion {
    Tabs(usize),
    Horizontal(usize),
    Vertical(usize),
    Grid(usize),
}

impl ContainerInsertion {
    /// The kind of container into which the tile goes.
    pub open spec fn spec_kind(self) -> ContainerKind {
        match self {
            ContainerInsertion::Tabs(_) => ContainerKind::Tabs,
            ContainerInsertion::Horizontal(_) => ContainerKind::Horizontal,
            ContainerInsertion::Vertical(_) => ContainerKind::Vertical,
            ContainerInsertion::Grid(_) => ContainerKind::Grid,
        }
    }

    /// The index at which the tile goes; one behind the end stands for the end.
    pub open spec fn spec_index(self) -> usize {
        match self {
            ContainerInsertion::Tabs(i) => i,
            ContainerInsertion::Horizontal(i) => i,
            ContainerInsertion::Vertical(i) => i,
            ContainerInsertion::Grid(i) => i,
        }
    }

    /// The kind of container into which the tile goes.
    #[verifier::when_used_as_spec(spec_kind)]
    pub fn kind(self) -> (k: ContainerKind)
        ensures
            k == self.spec_kind(),
    {
        match self {
            ContainerInsertion::Tabs(_) => ContainerKind::Tabs,
            ContainerInsertion::Horizontal(_) => ContainerKind::Horizontal,
            ContainerInsertion::Vertical(_) => ContainerKind::Vertical,
            ContainerInsertion::Grid(_) => ContainerKind::Grid,
        }
    }

    /// The index at which the tile goes.
    #[verifier::when_used_as_spec(spec_index)]
    pub fn index(self) -> (i: usize)
        ensures
            i == self.spec_index(),
    {
        match self {
            ContainerInsertion::Tabs(i) => i,
            ContainerInsertion::Horizontal(i) => i,
            ContainerInsertion::Vertical(i) => i,
            ContainerInsertion::Grid(i) => i,
        }
    }

    /// The insertion into a linear container of the given direction.
    pub fn linear(dir: LinearDir, index: usize) -> (insertion: ContainerInsertion)
        ensures
            insertion == (match dir {
                LinearDir::Horizontal => ContainerInsertion::Horizontal(index),
                LinearDir::Vertical => ContainerInsertion::Vertical(index),
            }),
    {
        match dir {
            LinearDir::Horizontal => ContainerInsertion::Horizontal(index),
            LinearDir::Vertical => ContainerInsertion::Vertical(index),
        }
    }
}

/// The place at which a tile is to go: a parent, and a position in it.
#[derive(Clone, Copy, Debug, PartialEq, Eq, Structural)]
pub struct InsertionPoint {
    pub parent_id: TileId,
    pub insertion: ContainerInsertion,
}

impl InsertionPoint {
    /// The place in `parent_id` that `insertion` names.
    pub fn new(parent_id: TileId, insertion: ContainerInsertion) -> (point: InsertionPoint)
        ensures
            point == (InsertionPoint { parent_id, insertion }),
    {
        InsertionPoint { parent_id, insertion }
    }
}

/// The best place found so far, in one frame, for the tile that is being
/// dragged: the one whose rectangle has its center nearest to the pointer.
#[derive(Clone, Copy, Debug, PartialEq, Eq, Structural)]
pub struct DropContext {
    /// Whether suggestions count. They do not while the dragged tile itself,
    /// or a tile inside it, is being visited.
    pub enabled: bool,
    pub dragged_tile_id: Option<TileId>,
    pub mouse_pos: Option<Pos>,
    /// The square of the distance from the pointer to the center of the best
    /// rectangle; none before the first suggestion.
    pub best_dist_sq: Option<u128>,
    pub best_insertion: Option<InsertionPoint>,
    pub preview_rect: Option<Rect>,
}

/// Whether a suggestion at the given distance beats the best so far: it must
/// be strictly nearer, so that of two equally near the first one stays.
pub open spec fn beats(dist_sq: nat, best: Option<u128>) -> bool {
    match best {
        Some(b) => dist_sq < b,
        None => true,
    }
}

impl DropContext {
    /// The context after the rectangle `rect` has been suggested for `insertion`.
    pub open spec fn suggested(self, insertion: InsertionPoint, rect: Rect) -> DropContext {
        if self.enabled && self.mouse_pos is Some && beats(
            distance_sq(self.mouse_pos->0, rect.spec_center()),
            self.best_dist_sq,
        ) {
            DropContext {
                best_dist_sq: Some(distance_sq(self.mouse_pos->0, rect.spec_center()) as u128),
                best_insertion: Some(insertion),
                preview_rect: Some(rect),
                ..self
            }
        } else {
            self
        }
    }

    /// The context after the given zones of the container `parent_id` have
    /// been suggested, one after the other.
    pub open spec fn suggested_zones(
        self,
        parent_id: TileId,
        dir: LinearDir,
        zones: Seq<DropZone>,
    ) -> DropContext
        decreases zones.len(),
    {
        if zones.len() == 0 {
            self
        } else {
            self.suggested_zones(parent_id, dir, zones.drop_last()).suggested(
                InsertionPoint {
                    parent_id,
                    insertion: match dir {
                        LinearDir::Horizontal => ContainerInsertion::Horizontal(zones.last().index),
                        LinearDir::Vertical => ContainerInsertion::Vertical(zones.last().index),
                    },
                },
                zones.last().rect,
            )
        }
    }

    /// The context at the start of a frame: nothing has been suggested yet.
    pub fn new(dragged_tile_id: Option<TileId>, mouse_pos: Option<Pos>) -> (context: DropContext)
        ensures
            context == (DropContext {
                enabled: true,
                dragged_tile_id,
                mouse_pos,
                best_dist_sq: None,
                best_insertion: None,
                preview_rect: None,
            }),
    {
        DropContext {
            enabled: true,
            dragged_tile_id,
            mouse_pos,
            best_dist_sq: None,
            best_insertion: None,
            preview_rect: None,
        }
    }

    /// Suggests `preview_rect` as the place that stands for `insertion`. It
    /// becomes the best place if its center is nearer to the pointer than
    /// that of every place suggested before.
    pub fn suggest_rect(&mut self, insertion: InsertionPoint, preview_rect: Rect)
        ensures
            *final(self) == old(self).suggested(insertion, preview_rect),
    {
        if !self.enabled {
            return ;
        }
        if let Some(mouse_pos) = self.mouse_pos {
            let dist_sq = distance_sq_of(mouse_pos, preview_rect.center());
            let better = match self.best_dist_sq {
                Some(best) => dist_sq < best,
                None => true,
            };
            if better {
                self.best_dist_sq = Some(dist_sq);
                self.best_insertion = Some(insertion);
                self.preview_rect = Some(preview_rect);
            }
        }
    }

    /// Suggests the drop zones of the linear container `parent_id`, from the
    /// rectangles that the last layout gave to its children.
    pub fn suggest_linear(
        &mut self,
        parent_id: TileId,
        rects: &Rects,
        children: &[TileId],
        dir: LinearDir,
    )
        ensures
            *final(self) == old(self).suggested_zones(
                parent_id,
                dir,
                crate::container::drop_zones::zones(
                    crate::container::drop_zones::rects_of(rects@, children@),
                    crate::container::drop_zones::first_index_of(
                        children@,
                        old(self).dragged_tile_id,
                    ),
                    dir,
                    crate::container::drop_zones::PREVIEW_THICKNESS as nat,
                ),
            ),
    {
        let found = linear_drop_zones(rects, children, dir, self.dragged_tile_id);
        let mut i: usize = 0;
        proof {
            assert(found@.take(0) =~= Seq::<DropZone>::empty());
        }
        while i < found.len()
            invariant
                i <= found@.len(),
                self.dragged_tile_id == old(self).dragged_tile_id,
                *self == old(self).suggested_zones(parent_id, dir, found@.take(i as int)),
            decreases found@.len() - i,
        {
            let zone = found[i];
            proof {
                assert(found@.take(i + 1).drop_last() =~= found@.take(i as int));
                assert(found@.take(i + 1).last() == zone);
            }
            self.suggest_rect(
                InsertionPoint::new(parent_id, ContainerInsertion::linear(dir, zone.index)),
                zone.rect,
            );
            i += 1;
        }
        proof {
            assert(found@.take(found@.len() as int) =~= found@);
        }
    }

    /// Stops suggestions from counting while the dragged tile, or a tile
    /// inside it, is visited: a tile cannot be dropped onto itself. Hands
    /// back whether suggestions counted before, for [`Self::leave_tile`].
    pub fn enter_tile(&mut self, tile_id: TileId) -> (was_enabled: bool)
        ensures
            was_enabled == old(self).enabled,
            *final(self) == (DropContext {
                enabled: old(self).enabled && old(self).dragged_tile_id != Some(tile_id),
                ..*old(self)
            }),
    {
        let was_enabled = self.enabled;
        if self.is_dragged(tile_id) {
            self.enabled = false;
        }
        was_enabled
    }

    /// Lets suggestions count again as they did before the tile was entered.
    pub fn leave_tile(&mut self, was_enabled: bool)
        ensures
            *final(self) == (DropContext { enabled: was_enabled, ..*old(self) }),
    {
        self.enabled = was_enabled;
    }

    /// Whether `tile_id` is the tile that is being dragged.
    pub fn is_dragged(&self, tile_id: TileId) -> (b: bool)
        ensures
            b == (self.dragged_tile_id == Some(tile_id)),
    {
        match self.dragged_tile_id {
            Some(id) => id == tile_id,
            None => false,
        }
    }
}

} // verus!
