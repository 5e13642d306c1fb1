use std::collections::HashSet;
use vstd::prelude::*;

use crate::container::{Container, ContainerView};
use crate::tile_id::TileId;
use crate::tiles::{detached, without_child, Tile, TileView, Tiles};

verus! {

/// Whether the tile under `from` is a container that names the tile `to`.
pub open spec fn is_edge<Pane>(tiles: Map<u64, TileView<Pane>>, from: u64, to: u64) -> bool {
    tiles.contains_key(from) && tiles[from].children().contains(TileId(to))
}

/// Whether `path` leads through tiles of the store, from each to one of its children.
pub open spec fn is_path<Pane>(tiles: Map<u64, TileView<Pane>>, path: Seq<u64>) -> bool {
    &&& path.len() > 0
    &&& forall|i: int| 0 <= i < path.len() ==> tiles.contains_key(#[trigger] path[i])
    &&& forall|i: int| 0 <= i < path.len() - 1 ==> is_edge(tiles, #[trigger] path[i], path[i + 1])
}

/// Whether the tile `id` can be reached from the root: the store holds it,
/// and a path of tiles of the store leads from the root to it.
pub open spec fn reachable<Pane>(tiles: Map<u64, TileView<Pane>>, root: Option<TileId>, id: u64) -> bool {
    root is Some && exists|path: Seq<u64>|
        is_path(tiles, path) && path[0] == (root->0).0 && #[trigger] path.last() == id
}

/// A tile without the shares that a linear container holds for tiles that
/// are not its children.
pub open spec fn purged_tile<Pane>(tile: TileView<Pane>) -> TileView<Pane> {
    match tile {
        TileView::Container(ContainerView::Linear(linear)) => TileView::Container(
            ContainerView::Linear(linear.purged()),
        ),
        _ => tile,
    }
}

/// The tiles that garbage collection leaves: those that can be reached from
/// the root, each without stale shares.
pub open spec fn collected<Pane>(tiles: Map<u64, TileView<Pane>>, root: Option<TileId>) -> Map<
    u64,
    TileView<Pane>,
> {
    Map::new(
        |k: u64| tiles.contains_key(k) && reachable(tiles, root, k),
        |k: u64| purged_tile(tiles[k]),
    )
}

/// The tiles after the tile `id` has been removed with all that is below it:
/// what can be reached from `id` is gone, and no container that stays names
/// `id` any more.
pub open spec fn removed_below<Pane>(tiles: Map<u64, TileView<Pane>>, id: TileId) -> Map<
    u64,
    TileView<Pane>,
> {
    Map::new(
        |k: u64| tiles.contains_key(k) && !reachable(tiles, Some(id), k),
        |k: u64| without_child(tiles[k], id),
    )
}

/// The root can be reached, if the store holds it.
pub proof fn lemma_root_reachable<Pane>(tiles: Map<u64, TileView<Pane>>, root: TileId)
    requires
        tiles.contains_key(root.0),
    ensures
        reachable(tiles, Some(root), root.0),
{
    let path = seq![root.0];
    assert(is_path(tiles, path));
    assert(path.last() == root.0);
}

/// A child of a tile that can be reached can be reached, if the store holds it.
pub proof fn lemma_child_reachable<Pane>(
    tiles: Map<u64, TileView<Pane>>,
    root: Option<TileId>,
    from: u64,
    to: u64,
)
    requires
        reachable(tiles, root, from),
        is_edge(tiles, from, to),
        tiles.contains_key(to),
    ensures
        reachable(tiles, root, to),
{
    let path = choose|path: Seq<u64>|
        is_path(tiles, path) && path[0] == (root->0).0 && #[trigger] path.last() == from;
    let longer = path.push(to);
    assert forall|i: int| 0 <= i < longer.len() - 1 implies is_edge(
        tiles,
        #[trigger] longer[i],
        longer[i + 1],
    ) by {
        if i < path.len() - 1 {
            assert(is_edge(tiles, path[i], path[i + 1]));
        }
    }
    assert(is_path(tiles, longer));
    assert(longer.last() == to);
}

/// A set of tiles that holds the first tile of a path, and with each tile
/// its children, holds every tile of the path.
proof fn lemma_closed_holds_path<Pane>(
    tiles: Map<u64, TileView<Pane>>,
    path: Seq<u64>,
    closed: Set<u64>,
    i: int,
)
    requires
        is_path(tiles, path),
        closed.contains(path[0]),
        forall|from: u64, to: u64|
            closed.contains(from) && is_edge(tiles, from, to) && tiles.contains_key(to)
                ==> closed.contains(to),
        0 <= i < path.len(),
    ensures
        closed.contains(path[i]),
    decreases i,
{
    if i > 0 {
        lemma_closed_holds_path(tiles, path, closed, i - 1);
        assert(is_edge(tiles, path[i - 1], path[i - 1 + 1]));
        assert(tiles.contains_key(path[i]));
    }
}

impl<Pane> Tiles<Pane> {
    /// The tiles that can be reached from the root.
    pub fn reachable_from(&self, root: Option<TileId>) -> (visited: HashSet<u64>)
        requires
            self.wf(),
        ensures
            forall|k: u64| visited@.contains(k) <==> reachable(self@, root, k),
    {
        let ghost tiles = self@;
        proof {
            self.lemma_wf_finite();
        }
        let mut visited: HashSet<u64> = HashSet::new();
        let mut stack: Vec<u64> = Vec::new();
        if let Some(r) = root {
            if self.contains(r) {
                stack.push(r.0);
                proof {
                    lemma_root_reachable(tiles, r);
                    assert(stack@[0] == r.0);
                }
            }
        }
        while stack.len() > 0
            invariant
                tiles == self@,
                tiles.dom().finite(),
                visited@.finite(),
                visited@.subset_of(tiles.dom()),
                forall|k: u64| visited@.contains(k) ==> reachable(tiles, root, k),
                forall|j: int|
                    0 <= j < stack@.len() ==> tiles.contains_key(#[trigger] stack@[j]) && reachable(
                        tiles,
                        root,
                        stack@[j],
                    ),
                root is Some && tiles.contains_key((root->0).0) ==> visited@.contains((root->0).0)
                    || stack@.contains((root->0).0),
                forall|from: u64, to: u64|
                    visited@.contains(from) && is_edge(tiles, from, to) && tiles.contains_key(to)
                        ==> visited@.contains(to) || stack@.contains(to),
            decreases tiles.dom().len() - visited@.len(), stack@.len(),
        {
            proof {
                vstd::set_lib::lemma_len_subset(visited@, tiles.dom());
            }
            let ghost stack_before = stack@;
            let id = stack.pop().unwrap();
            assert(stack_before[stack_before.len() - 1] == id);
            assert(tiles.contains_key(id));
            assert(forall|k: u64|
                stack_before.contains(k) ==> k == id || stack@.contains(k)) by {
                assert forall|k: u64| stack_before.contains(k) implies k == id || stack@.contains(
                    k,
                ) by {
                    let j = choose|j: int| 0 <= j < stack_before.len() && stack_before[j] == k;
                    if j < stack_before.len() - 1 {
                        assert(stack@[j] == k);
                    }
                }
            }
            if !visited.contains(&id) {
                let ghost visited_before = visited@;
                visited.insert(id);
                proof {
                    assert(visited@.len() == visited_before.len() + 1);
                    vstd::set_lib::lemma_len_subset(visited@, tiles.dom());
                }
                if let Some(Tile::Container(container)) = self.get(TileId(id)) {
                    let children = container.children();
                    let mut j: usize = 0;
                    while j < children.len()
                        invariant
                            j <= children@.len(),
                            tiles == self@,
                            tiles.contains_key(id),
                            children@ == tiles[id].children(),
                            reachable(tiles, root, id),
                            forall|i: int|
                                0 <= i < stack@.len() ==> tiles.contains_key(#[trigger] stack@[i])
                                    && reachable(tiles, root, stack@[i]),
                            root is Some && tiles.contains_key((root->0).0) ==> visited@.contains(
                                (root->0).0,
                            ) || stack@.contains((root->0).0),
                            forall|from: u64, to: u64|
                                from != id && visited@.contains(from) && is_edge(tiles, from, to)
                                    && tiles.contains_key(to) ==> visited@.contains(to)
                                    || stack@.contains(to),
                            forall|i: int|
                                0 <= i < j && tiles.contains_key(children@[i].0) ==> stack@.contains(
                                    children@[i].0,
                                ),
                        decreases children@.len() - j,
                    {
                        let child = children[j];
                        if self.contains(child) {
                            let ghost before = stack@;
                            stack.push(child.0);
                            proof {
                                assert(children@.contains(children@[j as int]));
                                assert(is_edge(tiles, id, child.0));
                                lemma_child_reachable(tiles, root, id, child.0);
                                assert(stack@[before.len() as int] == child.0);
                                assert forall|k: u64| before.contains(k) implies stack@.contains(
                                    k,
                                ) by {
                                    let i = choose|i: int| 0 <= i < before.len() && before[i] == k;
                                    assert(stack@[i] == k);
                                }
                            }
                        }
                        j += 1;
                    }
                    proof {
                        assert forall|to: u64|
                            is_edge(tiles, id, to) && tiles.contains_key(to) implies stack@.contains(
                            to,
                        ) by {
                            let i = choose|i: int|
                                0 <= i < children@.len() && children@[i] == TileId(to);
                            assert(children@[i].0 == to);
                        }
                    }
                } else {
                    assert(tiles[id].children().len() == 0);
                }
            }
        }
        proof {
            assert forall|k: u64| reachable(tiles, root, k) implies visited@.contains(k) by {
                let path = choose|path: Seq<u64>|
                    is_path(tiles, path) && path[0] == (root->0).0 && #[trigger] path.last() == k;
                assert(tiles.contains_key(path[0]));
                assert(forall|to: u64| !stack@.contains(to));
                lemma_closed_holds_path(tiles, path, visited@, path.len() - 1);
            }
        }
        visited
    }

    /// Collects garbage: takes every tile out of the store that cannot be
    /// reached from the root, and drops the stale shares of the linear
    /// containers that stay.
    pub fn gc_root(&mut self, root_id: Option<TileId>)
        requires
            old(self).wf(),
        ensures
            final(self).wf(),
            final(self)@ == collected(old(self)@, root_id),
            final(self).rects() == old(self).rects(),
            final(self).next_id() == old(self).next_id(),
    {
        let visited = self.reachable_from(root_id);
        let ids = self.tile_ids();
        let mut i: usize = 0;
        proof {
            assert forall|j: int| 0 <= j < ids@.len() implies self@.contains_key(
                #[trigger] ids@[j].0,
            ) by {
                assert(ids@.contains(ids@[j]));
            }
        }
        while i < ids.len()
            invariant
                i <= ids@.len(),
                ids@.no_duplicates(),
                forall|id: TileId| ids@.contains(id) <==> old(self)@.contains_key(id.0),
                forall|k: u64| visited@.contains(k) <==> reachable(old(self)@, root_id, k),
                self.wf(),
                self.rects() == old(self).rects(),
                self.next_id() == old(self).next_id(),
                self@.dom().subset_of(old(self)@.dom()),
                forall|j: int|
                    0 <= j < i ==> (self@.contains_key(#[trigger] ids@[j].0) <==> reachable(
                        old(self)@,
                        root_id,
                        ids@[j].0,
                    )),
                forall|j: int|
                    0 <= j < i && self@.contains_key(#[trigger] ids@[j].0) ==> self@[ids@[j].0]
                        == purged_tile(old(self)@[ids@[j].0]),
                forall|j: int|
                    i <= j < ids@.len() ==> self@.contains_key(#[trigger] ids@[j].0)
                        && self@[ids@[j].0] == old(self)@[ids@[j].0],
            decreases ids@.len() - i,
        {
            let id = ids[i];
            assert(ids@.contains(id));
            proof {
                self.lemma_wf_finite();
            }
            let ghost before = self@;
            if visited.contains(&id.0) {
                match self.remove(id) {
                    Some(Tile::Container(Container::Linear(mut linear))) => {
                        linear.purge();
                        self.insert(id, Tile::Container(Container::Linear(linear)));
                    },
                    Some(tile) => {
                        self.insert(id, tile);
                    },
                    None => {},
                }
                assert(self@.dom() =~= before.dom());
            } else {
                self.remove(id);
            }
            proof {
                assert forall|j: int| 0 <= j < ids@.len() && j != i implies (self@.contains_key(
                    ids@[j].0,
                ) <==> before.contains_key(ids@[j].0)) && (before.contains_key(ids@[j].0)
                    ==> self@[ids@[j].0] == before[ids@[j].0]) by {
                    assert(ids@[j] != ids@[i as int]);
                }
            }
            i += 1;
        }
        proof {
            let want = collected(old(self)@, root_id);
            assert forall|k: u64| self@.contains_key(k) <==> want.contains_key(k) by {
                if old(self)@.contains_key(k) {
                    assert(ids@.contains(TileId(k)));
                    let j = choose|j: int| 0 <= j < ids@.len() && ids@[j] == TileId(k);
                    assert(ids@[j].0 == k);
                }
            }
            assert forall|k: u64| self@.contains_key(k) implies self@[k] == want[k] by {
                assert(ids@.contains(TileId(k)));
                let j = choose|j: int| 0 <= j < ids@.len() && ids@[j] == TileId(k);
                assert(ids@[j].0 == k);
            }
            assert(self@ =~= want);
        }
    }
}

impl<Pane> Tiles<Pane> {
    /// Removes the tile `id` and all that is below it from the store, and
    /// takes `id` off the children of every container that stays. Says how
    /// many tiles were removed.
    pub fn remove_recursively(&mut self, id: TileId) -> (count: usize)
        requires
            old(self).wf(),
        ensures
            final(self).wf(),
            final(self)@ == removed_below(old(self)@, id),
            final(self).rects() == old(self).rects(),
            final(self).next_id() == old(self).next_id(),
            count == old(self)@.dom().len() - final(self)@.dom().len(),
    {
        let before = self.len();
        let visited = self.reachable_from(Some(id));
        self.detach(id);
        let ghost loose = self@;
        proof {
            assert(loose.dom() =~= old(self)@.dom());
        }
        let ids = self.tile_ids();
        let mut i: usize = 0;
        proof {
            assert forall|j: int| 0 <= j < ids@.len() implies self@.contains_key(
                #[trigger] ids@[j].0,
            ) by {
                assert(ids@.contains(ids@[j]));
            }
        }
        while i < ids.len()
            invariant
                i <= ids@.len(),
                ids@.no_duplicates(),
                forall|k: TileId| ids@.contains(k) <==> loose.contains_key(k.0),
                forall|k: u64| visited@.contains(k) <==> reachable(old(self)@, Some(id), k),
                loose == detached(old(self)@, id),
                self.wf(),
                self.rects() == old(self).rects(),
                self.next_id() == old(self).next_id(),
                forall|k: u64| #[trigger]
                    self@.contains_key(k) ==> loose.contains_key(k) && self@[k] == loose[k],
                forall|j: int|
                    0 <= j < i ==> (self@.contains_key(#[trigger] ids@[j].0) <==> !reachable(
                        old(self)@,
                        Some(id),
                        ids@[j].0,
                    )),
                forall|j: int| i <= j < ids@.len() ==> self@.contains_key(#[trigger] ids@[j].0),
            decreases ids@.len() - i,
        {
            let k = ids[i];
            assert(ids@.contains(k));
            let ghost now = self@;
            if visited.contains(&k.0) {
                self.remove(k);
            }
            proof {
                assert forall|j: int| 0 <= j < ids@.len() && j != i implies (self@.contains_key(
                    ids@[j].0,
                ) <==> now.contains_key(ids@[j].0)) by {
                    assert(ids@[j] != ids@[i as int]);
                }
            }
            i += 1;
        }
        proof {
            let want = removed_below(old(self)@, id);
            assert forall|k: u64| self@.contains_key(k) <==> want.contains_key(k) by {
                if loose.contains_key(k) {
                    assert(ids@.contains(TileId(k)));
                    let j = choose|j: int| 0 <= j < ids@.len() && ids@[j] == TileId(k);
                    assert(ids@[j].0 == k);
                }
            }
            assert forall|k: u64| self@.contains_key(k) implies self@[k] == want[k] by {
                assert(loose.contains_key(k) && self@[k] == loose[k]);
                assert(old(self)@.contains_key(k));
                assert(loose[k] == without_child(old(self)@[k], id));
                assert(want.contains_key(k));
            }
            assert(self@ =~= want);
            self.lemma_wf_finite();
            old(self).lemma_wf_finite();
            vstd::set_lib::lemma_len_subset(self@.dom(), old(self)@.dom());
        }
        before - self.len()
    }
}

} // verus!
