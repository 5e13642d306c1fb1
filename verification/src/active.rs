use vstd::prelude::*;

use crate::container::{Container, ContainerView};
use crate::tile_id::TileId;
use crate::tiles::{Tile, TileView, Tiles};

verus! {

/// Whether the closure `f` computes the predicate `p` on tiles: it can be
/// called on every tile, and whatever it returns for a tile is what `p` says
/// of what the tile holds.
pub open spec fn computes_on_tiles<Pane, F: Fn(&Tile<Pane>) -> bool>(
    f: F,
    p: spec_fn(TileView<Pane>) -> bool,
) -> bool {
    &&& forall|tile: &Tile<Pane>| f.requires((tile,))
    &&& forall|tile: &Tile<Pane>, b: bool| f.ensures((tile,), b) ==> b == p(tile@)
}

/// A container after the child `active` has been activated below it: a tab
/// container shows that child, if there is one.
pub open spec fn with_active_child(container: ContainerView, active: Option<TileId>) -> ContainerView {
    match (container, active) {
        (ContainerView::Tabs(tabs), Some(child)) => ContainerView::Tabs(tabs.with_active(child)),
        _ => container,
    }
}

/// The tiles after every tile at or below `it` that `pred` picks has been
/// made visible, and whether there is such a tile: every tab container on
/// the way to one shows the tab that leads to it; where several tabs do, the
/// last of them.
///
/// `depth` bounds how deep the pass goes; with the number of tiles in the
/// store it reaches every tile that it can reach at all.
pub open spec fn activated<Pane>(
    depth: nat,
    tiles: Map<u64, TileView<Pane>>,
    it: TileId,
    pred: spec_fn(TileView<Pane>) -> bool,
) -> (Map<u64, TileView<Pane>>, bool)
    decreases depth, 0nat,
{
    if depth == 0 || !tiles.contains_key(it.0) {
        (tiles, false)
    } else {
        match tiles[it.0] {
            TileView::Pane(_) => (tiles, pred(tiles[it.0])),
            TileView::Container(container) => {
                let below = activated_below(
                    (depth - 1) as nat,
                    tiles.remove(it.0),
                    container.children(),
                    pred,
                    container.children().len(),
                );
                (
                    below.0.insert(
                        it.0,
                        TileView::Container(with_active_child(container, below.1)),
                    ),
                    pred(tiles[it.0]) || below.1 is Some,
                )
            },
        }
    }
}

/// The tiles after the first `count` of the given children have been gone
/// through, and the last of them below which a tile was picked.
pub open spec fn activated_below<Pane>(
    depth: nat,
    tiles: Map<u64, TileView<Pane>>,
    children: Seq<TileId>,
    pred: spec_fn(TileView<Pane>) -> bool,
    count: nat,
) -> (Map<u64, TileView<Pane>>, Option<TileId>)
    decreases depth, 1 + count,
{
    if count == 0 {
        (tiles, None)
    } else {
        let before = activated_below(depth, tiles, children, pred, (count - 1) as nat);
        let step = activated(depth, before.0, children[count - 1], pred);
        (
            step.0,
            if step.1 {
                Some(children[count - 1])
            } else {
                before.1
            },
        )
    }
}

impl<Pane> Tiles<Pane> {
    /// Makes the tiles at or below `it` that `should_activate` picks
    /// visible: every tab container above such a tile shows the tab that
    /// leads to it. Says whether there is such a tile.
    pub fn make_active<F: Fn(&Tile<Pane>) -> bool>(&mut self, it: TileId, should_activate: &F) -> (found:
        bool)
        requires
            old(self).wf(),
            forall|tile: &Tile<Pane>| should_activate.requires((tile,)),
        ensures
            final(self).wf(),
            final(self)@.dom() == old(self)@.dom(),
            final(self).next_id() == old(self).next_id(),
            final(self).rects() == old(self).rects(),
            forall|p: spec_fn(TileView<Pane>) -> bool| #[trigger]
                computes_on_tiles(*should_activate, p) ==> (final(self)@, found) == activated(
                    old(self)@.dom().len(),
                    old(self)@,
                    it,
                    p,
                ),
        decreases old(self)@.dom().len(),
    {
        proof {
            self.lemma_wf_finite();
        }
        let ghost depth = self@.dom().len();
        let tile = match self.remove(it) {
            Some(tile) => tile,
            None => {
                assert(self@ =~= old(self)@);
                return false;
            },
        };
        let picked = should_activate(&tile);
        match tile {
            Tile::Pane(pane) => {
                self.insert(it, Tile::Pane(pane));
                assert(self@ =~= old(self)@);
                picked
            },
            Tile::Container(mut container) => {
                let ghost rest = self@;
                let ghost before = container@;
                let mut active_child: Option<TileId> = None;
                let n = container.children().len();
                let mut i: usize = 0;
                while i < n
                    invariant
                        i <= n,
                        n == before.children().len(),
                        before == container@,
                        self.wf(),
                        self@.dom() == rest.dom(),
                        rest.dom().finite(),
                        rest.dom().len() == depth - 1,
                        depth == old(self)@.dom().len(),
                        self.next_id() == old(self).next_id(),
                        self.rects() == old(self).rects(),
                        forall|tile: &Tile<Pane>| should_activate.requires((tile,)),
                        active_child is Some ==> before.children().contains(active_child->0),
                        forall|p: spec_fn(TileView<Pane>) -> bool| #[trigger]
                            computes_on_tiles(*should_activate, p) ==> (self@, active_child)
                                == activated_below(
                                (depth - 1) as nat,
                                rest,
                                before.children(),
                                p,
                                i as nat,
                            ),
                    decreases n - i,
                {
                    let child = container.children()[i];
                    if self.make_active(child, should_activate) {
                        active_child = Some(child);
                        assert(before.children().contains(before.children()[i as int]));
                    }
                    i += 1;
                }
                if let Some(child) = active_child {
                    if let Container::Tabs(tabs) = &mut container {
                        tabs.set_active(child);
                    }
                }
                assert(container@ == with_active_child(before, active_child));
                self.insert(it, Tile::Container(container));
                assert(self@.dom() =~= old(self)@.dom());
                picked || active_child.is_some()
            },
        }
    }
}

} // verus!
