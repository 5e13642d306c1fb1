use vstd::prelude::*;

use crate::geometry::Rect;
use crate::tile_id::TileId;
use crate::tiles::{Tile, TileView, Tiles};

verus! {

/// The tiles and the rectangles after a layout pass has given the tile `id`
/// the rectangle `rect`.
///
/// The tile's rectangle is recorded. A container then places its children
/// inside it, and each child that is placed is laid out in turn, in order,
/// over the tiles without the container: a tile that names one of its own
/// ancestors is not laid out a second time below it. A tile that the store
/// does not hold is passed over.
///
/// `depth` bounds how deep the pass goes; with the number of tiles in the
/// store it reaches every tile that it can reach at all.
pub open spec fn laid_out<Pane>(
    depth: nat,
    tiles: Map<u64, TileView<Pane>>,
    rects: Map<u64, Rect>,
    rect: Rect,
    id: TileId,
    gap: nat,
) -> (Map<u64, TileView<Pane>>, Map<u64, Rect>)
    decreases depth, 0nat,
{
    if depth == 0 || !tiles.contains_key(id.0) {
        (tiles, rects)
    } else {
        match tiles[id.0] {
            TileView::Pane(_) => (tiles, rects.insert(id.0, rect)),
            TileView::Container(container) => {
                let placements = container.placements(rect, gap);
                let below = laid_out_children(
                    (depth - 1) as nat,
                    tiles.remove(id.0),
                    rects.insert(id.0, rect),
                    placements,
                    gap,
                    placements.len(),
                );
                (below.0.insert(id.0, TileView::Container(container.laid_out())), below.1)
            },
        }
    }
}

/// The tiles and the rectangles after the first `count` of the given
/// children have been laid out, one after the other, each in its rectangle.
pub open spec fn laid_out_children<Pane>(
    depth: nat,
    tiles: Map<u64, TileView<Pane>>,
    rects: Map<u64, Rect>,
    placements: Seq<(TileId, Rect)>,
    gap: nat,
    count: nat,
) -> (Map<u64, TileView<Pane>>, Map<u64, Rect>)
    decreases depth, 1 + count,
{
    if count == 0 {
        (tiles, rects)
    } else {
        let before = laid_out_children(depth, tiles, rects, placements, gap, (count - 1) as nat);
        laid_out(
            depth,
            before.0,
            before.1,
            placements[count - 1].1,
            placements[count - 1].0,
            gap,
        )
    }
}

impl<Pane> Tiles<Pane> {
    /// Gives the tile `tile_id` the rectangle `rect`, and lays out all that
    /// is below it: each container places its children inside its own
    /// rectangle, with `gap` between neighbours.
    pub fn layout_tile(&mut self, rect: Rect, tile_id: TileId, gap: u32)
        requires
            old(self).wf(),
        ensures
            final(self).wf(),
            final(self)@.dom() == old(self)@.dom(),
            final(self).next_id() == old(self).next_id(),
            (final(self)@, final(self).rects()) == laid_out(
                old(self)@.dom().len(),
                old(self)@,
                old(self).rects(),
                rect,
                tile_id,
                gap as nat,
            ),
        decreases old(self)@.dom().len(),
    {
        proof {
            self.lemma_wf_finite();
        }
        let ghost depth = self@.dom().len();
        let tile = match self.remove(tile_id) {
            Some(tile) => tile,
            None => {
                assert(self@ =~= old(self)@);
                return ;
            },
        };
        self.record_rect(tile_id, rect);
        match tile {
            Tile::Pane(pane) => {
                self.insert(tile_id, Tile::Pane(pane));
                assert(self@ =~= old(self)@);
            },
            Tile::Container(mut container) => {
                let ghost before = container@;
                let ghost rest = self@;
                let ghost rects = self.rects();
                let placements = container.layout(rect, gap);
                let mut i: usize = 0;
                while i < placements.len()
                    invariant
                        i <= placements@.len(),
                        self.wf(),
                        self@.dom() == rest.dom(),
                        rest.dom().finite(),
                        rest.dom().len() == depth - 1,
                        depth == old(self)@.dom().len(),
                        self.next_id() == old(self).next_id(),
                        (self@, self.rects()) == laid_out_children(
                            (depth - 1) as nat,
                            rest,
                            rects,
                            placements@,
                            gap as nat,
                            i as nat,
                        ),
                    decreases placements@.len() - i,
                {
                    let (child, child_rect) = placements[i];
                    self.layout_tile(child_rect, child, gap);
                    i += 1;
                }
                self.insert(tile_id, Tile::Container(container));
                assert(self@.dom() =~= old(self)@.dom());
            },
        }
    }
}

} // verus!
