use vstd::prelude::*;

use crate::container::{Container, ContainerKind, ContainerView};
use crate::tile_id::TileId;
use crate::tiles::{Tile, TileView, Tiles};

verus! {

/// The tiles, and the number of the next new tile, after every pane at or
/// below `it` that is not the child of a tab container has been given one.
///
/// Such a pane moves to a new identifier, and under its old one stands a
/// tab container that holds it alone. A pane is left as it is where the
/// store cannot name another tile. Containers are gone through child by
/// child, over the tiles without the container itself.
///
/// `depth` bounds how deep the pass goes.
pub open spec fn wrapped<Pane>(
    depth: nat,
    tiles: Map<u64, TileView<Pane>>,
    next: u64,
    parent_is_tabs: bool,
    it: TileId,
) -> (Map<u64, TileView<Pane>>, u64)
    decreases depth, 0nat,
{
    if depth == 0 || !tiles.contains_key(it.0) {
        (tiles, next)
    } else {
        match tiles[it.0] {
            TileView::Pane(_) => if !parent_is_tabs && next < u64::MAX {
                (
                    tiles.remove(it.0).insert(next, tiles[it.0]).insert(
                        it.0,
                        TileView::Container(
                            ContainerView::of_kind(ContainerKind::Tabs, seq![TileId(next)]),
                        ),
                    ),
                    (next + 1) as u64,
                )
            } else {
                (tiles, next)
            },
            TileView::Container(container) => {
                let below = wrapped_below(
                    (depth - 1) as nat,
                    tiles.remove(it.0),
                    next,
                    container.kind() == ContainerKind::Tabs,
                    container.children(),
                    container.children().len(),
                );
                (below.0.insert(it.0, tiles[it.0]), below.1)
            },
        }
    }
}

/// The tiles, and the number of the next new tile, after the first `count`
/// of the given children have been gone through.
pub open spec fn wrapped_below<Pane>(
    depth: nat,
    tiles: Map<u64, TileView<Pane>>,
    next: u64,
    parent_is_tabs: bool,
    children: Seq<TileId>,
    count: nat,
) -> (Map<u64, TileView<Pane>>, u64)
    decreases depth, 1 + count,
{
    if count == 0 {
        (tiles, next)
    } else {
        let before = wrapped_below(
            depth,
            tiles,
            next,
            parent_is_tabs,
            children,
            (count - 1) as nat,
        );
        wrapped(depth, before.0, before.1, parent_is_tabs, children[count - 1])
    }
}

/// How deep a pass over a store of `count` tiles goes: one deeper than the
/// number of tiles, as far as a depth can be counted.
pub open spec fn wrap_depth(count: nat) -> nat {
    if count < usize::MAX {
        count + 1
    } else {
        count
    }
}

impl<Pane> Tiles<Pane> {
    /// Gives a tab container to every pane at or below `it` that is not the
    /// child of one, down to the given depth.
    pub fn wrap_panes(&mut self, depth: usize, parent_is_tabs: bool, it: TileId)
        requires
            old(self).wf(),
        ensures
            final(self).wf(),
            final(self).rects() == old(self).rects(),
            final(self).next_id() >= old(self).next_id(),
            (final(self)@, final(self).next_id()) == wrapped(
                depth as nat,
                old(self)@,
                old(self).next_id(),
                parent_is_tabs,
                it,
            ),
        decreases depth,
    {
        if depth == 0 {
            return ;
        }
        proof {
            self.lemma_wf_finite();
        }
        let tile = match self.remove(it) {
            Some(tile) => tile,
            None => {
                assert(self@ =~= old(self)@);
                return ;
            },
        };
        match tile {
            Tile::Pane(pane) => {
                if !parent_is_tabs && self.can_allocate() {
                    let moved = self.insert_tile(Tile::Pane(pane));
                    let mut list: Vec<TileId> = Vec::new();
                    list.push(moved);
                    assert(list@ =~= seq![moved]);
                    self.insert(it, Tile::Container(Container::new_tabs(list)));
                } else {
                    self.insert(it, Tile::Pane(pane));
                    assert(self@ =~= old(self)@);
                }
            },
            Tile::Container(container) => {
                let is_tabs = container.kind() == ContainerKind::Tabs;
                let ghost rest = self@;
                let ghost next = self.next_id();
                let n = container.children().len();
                let mut i: usize = 0;
                while i < n
                    invariant
                        i <= n,
                        n == container@.children().len(),
                        depth > 0,
                        self.wf(),
                        self.rects() == old(self).rects(),
                        it.0 < old(self).next_id(),
                        self.next_id() >= old(self).next_id(),
                        (self@, self.next_id()) == wrapped_below(
                            (depth - 1) as nat,
                            rest,
                            next,
                            is_tabs,
                            container@.children(),
                            i as nat,
                        ),
                    decreases n - i,
                {
                    let child = container.children()[i];
                    self.wrap_panes(depth - 1, is_tabs, child);
                    i += 1;
                }
                self.insert(it, Tile::Container(container));
            },
        }
    }

    /// Gives a tab container to every pane at or below `it` that is not the
    /// child of one. `parent_is_tabs` says whether `it` itself is the child
    /// of a tab container.
    pub fn make_all_panes_children_of_tabs(&mut self, parent_is_tabs: bool, it: TileId)
        requires
            old(self).wf(),
        ensures
            final(self).wf(),
            final(self).rects() == old(self).rects(),
            (final(self)@, final(self).next_id()) == wrapped(
                wrap_depth(old(self)@.dom().len()),
                old(self)@,
                old(self).next_id(),
                parent_is_tabs,
                it,
            ),
    {
        let count = self.len();
        let depth = if count < usize::MAX {
            count + 1
        } else {
            count
        };
        self.wrap_panes(depth, parent_is_tabs, it);
    }
}

} // verus!
