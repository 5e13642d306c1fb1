use vstd::prelude::*;

use crate::active::{activated, computes_on_tiles};
use crate::container::children::computes;
use crate::container::{ContainerKind, ContainerView};
use crate::drop_context::{DropContext, InsertionPoint};
use crate::gc::{collected, removed_below};
use crate::geometry::Rect;
use crate::layout::laid_out;
use crate::simplification::{SimplificationOptions, SimplifyAction};
use crate::simplify::simplified;
use crate::tile_id::TileId;
use crate::tiles::{
    detached, inserted_at, is_parent_of, lemma_move_gives_one_parent, occurs_once, wraps_parent,
    Tile, TileView, Tiles,
};
use crate::tree_shape::{is_tree, tree_below, trees_below};
use crate::wrap::{wrap_depth, wrapped};

verus! {

/// The tiles with which a tree over the given panes starts: the panes under
/// the numbers from zero up, in order, and behind them a container of the
/// given kind that holds them all.
pub open spec fn initial_tiles<Pane>(kind: ContainerKind, panes: Seq<Pane>) -> Map<
    u64,
    TileView<Pane>,
> {
    Map::new(
        |k: u64| k <= panes.len(),
        |k: u64|
            if k < panes.len() {
                TileView::Pane(panes[k as int])
            } else {
                TileView::Container(
                    ContainerView::of_kind(kind, Seq::new(panes.len(), |i: int| TileId(i as u64))),
                )
            },
    )
}

proof fn lemma_initial_children_are_trees<Pane>(kind: ContainerKind, panes: Seq<Pane>, count: nat)
    requires
        panes.len() < u64::MAX,
        count <= panes.len(),
    ensures
        trees_below(
            panes.len(),
            initial_tiles(kind, panes),
            Seq::new(panes.len(), |i: int| TileId(i as u64)),
            count,
            set![panes.len() as u64],
        ) == Some(Set::new(|k: u64| k < count || k == panes.len())),
    decreases count,
{
    let tiles = initial_tiles(kind, panes);
    let children = Seq::new(panes.len(), |i: int| TileId(i as u64));
    let seen = set![panes.len() as u64];
    if count == 0 {
        assert(seen =~= Set::new(|k: u64| k < count || k == panes.len()));
    } else {
        lemma_initial_children_are_trees(kind, panes, (count - 1) as nat);
        let before = Set::new(|k: u64| k < count - 1 || k == panes.len());
        let child = children[count - 1];
        assert(tiles.contains_key(child.0));
        assert(tiles[child.0].children().len() == 0);
        assert(tree_below(panes.len(), tiles, child) == Some(set![child.0]));
        assert(set![child.0].disjoint(before));
        assert(before.union(set![child.0]) =~= Set::new(|k: u64| k < count || k == panes.len()));
    }
}

/// The tiles with which a tree starts form a tree.
pub proof fn lemma_initial_tiles_form_a_tree<Pane>(kind: ContainerKind, panes: Seq<Pane>)
    requires
        panes.len() < u64::MAX,
    ensures
        is_tree(initial_tiles(kind, panes), Some(TileId(panes.len() as u64))),
{
    let tiles = initial_tiles(kind, panes);
    let n = panes.len();
    let keys = Set::new(|k: u64| k <= n);
    assert(tiles.dom() =~= keys);
    lemma_count_up_to(n);
    lemma_initial_children_are_trees(kind, panes, n);
    let root = TileId(n as u64);
    assert(tiles[root.0].children() =~= Seq::new(n, |i: int| TileId(i as u64))) by {
        match kind {
            ContainerKind::Tabs => {},
            ContainerKind::Horizontal => {},
            ContainerKind::Vertical => {},
            ContainerKind::Grid => {},
        }
    }
}

/// There are `n + 1` numbers up to `n`.
proof fn lemma_count_up_to(n: nat)
    requires
        n < u64::MAX,
    ensures
        Set::new(|k: u64| k <= n).finite(),
        Set::new(|k: u64| k <= n).len() == n + 1,
    decreases n,
{
    let all = Set::new(|k: u64| k <= n);
    if n == 0 {
        assert(all =~= set![0u64]);
    } else {
        lemma_count_up_to((n - 1) as nat);
        let fewer = Set::new(|k: u64| k <= n - 1);
        assert(all =~= fewer.insert(n as u64));
    }
}

/// The root after the old root has been simplified: the old root where it
/// stays, its replacement where it is replaced, none where it is removed.
pub open spec fn root_after(root: TileId, action: SimplifyAction) -> Option<TileId> {
    match action {
        SimplifyAction::Keep => Some(root),
        SimplifyAction::Remove => None,
        SimplifyAction::Replace(new_root) => Some(new_root),
    }
}

/// The tiles and the root of a tree after it has been simplified.
pub open spec fn simplified_tree<Pane>(
    tiles: Map<u64, TileView<Pane>>,
    root: Option<TileId>,
    options: SimplificationOptions,
) -> (Map<u64, TileView<Pane>>, Option<TileId>) {
    match root {
        Some(r) => {
            let below = simplified(tiles.dom().len(), tiles, options, r, None);
            (below.0, root_after(r, below.1))
        },
        None => (tiles, None),
    }
}

/// The tiles and the rectangles of a tree after a layout pass that gives the
/// root the rectangle `rect`: the rectangles of an earlier pass are gone.
pub open spec fn laid_out_tree<Pane>(
    tiles: Map<u64, TileView<Pane>>,
    root: Option<TileId>,
    rect: Rect,
    gap: nat,
) -> (Map<u64, TileView<Pane>>, Map<u64, Rect>) {
    match root {
        Some(r) => laid_out(tiles.dom().len(), tiles, Map::empty(), rect, r, gap),
        None => (tiles, Map::empty()),
    }
}

/// The tiles of a tree, and the number of the next new tile, after every
/// pane has been given a tab container, where the options ask for that: the
/// tiles as they are where they do not.
pub open spec fn tabbed_tree<Pane>(
    tiles: Map<u64, TileView<Pane>>,
    next: u64,
    root: Option<TileId>,
    options: SimplificationOptions,
) -> (Map<u64, TileView<Pane>>, u64) {
    if options.all_panes_must_have_tabs && root is Some {
        wrapped(wrap_depth(tiles.dom().len()), tiles, next, false, root->0)
    } else {
        (tiles, next)
    }
}

/// The top level type: all the tiles, and which of them is the root.
#[derive(Clone, Debug)]
pub struct Tree<Pane> {
    /// None for a tree without tiles on screen.
    pub root: Option<TileId>,
    /// All the tiles of the tree.
    pub tiles: Tiles<Pane>,
}

impl<Pane> Default for Tree<Pane> {
    fn default() -> (t: Tree<Pane>)
        ensures
            t.root is None,
            t.tiles@ == Map::<u64, TileView<Pane>>::empty(),
            t.wf(),
    {
        Tree { root: None, tiles: Tiles::new() }
    }
}

impl<Pane> Tree<Pane> {
    /// The tree's store is well-formed.
    pub open spec fn wf(&self) -> bool {
        self.tiles.wf()
    }

    /// A tree without tiles.
    pub fn empty() -> (t: Tree<Pane>)
        ensures
            t.root is None,
            t.tiles@ == Map::<u64, TileView<Pane>>::empty(),
            t.wf(),
    {
        Tree { root: None, tiles: Tiles::new() }
    }

    /// The tree over the given tiles with the given root.
    pub fn new(root: TileId, tiles: Tiles<Pane>) -> (t: Tree<Pane>)
        ensures
            t.root == Some(root),
            t.tiles == tiles,
    {
        Tree { root: Some(root), tiles }
    }

    /// A tree whose root is a tab container with the given panes.
    pub fn new_tabs(panes: Vec<Pane>) -> (t: Tree<Pane>)
        requires
            panes@.len() < u64::MAX,
        ensures
            t.wf(),
            t.root == Some(TileId(panes@.len() as u64)),
            t.tiles@ == initial_tiles(ContainerKind::Tabs, panes@),
            is_tree(t.tiles@, t.root),
    {
        Self::new_container(ContainerKind::Tabs, panes)
    }

    /// A tree whose root is a horizontal container with the given panes.
    pub fn new_horizontal(panes: Vec<Pane>) -> (t: Tree<Pane>)
        requires
            panes@.len() < u64::MAX,
        ensures
            t.wf(),
            t.root == Some(TileId(panes@.len() as u64)),
            t.tiles@ == initial_tiles(ContainerKind::Horizontal, panes@),
            is_tree(t.tiles@, t.root),
    {
        Self::new_container(ContainerKind::Horizontal, panes)
    }

    /// A tree whose root is a vertical container with the given panes.
    pub fn new_vertical(panes: Vec<Pane>) -> (t: Tree<Pane>)
        requires
            panes@.len() < u64::MAX,
        ensures
            t.wf(),
            t.root == Some(TileId(panes@.len() as u64)),
            t.tiles@ == initial_tiles(ContainerKind::Vertical, panes@),
            is_tree(t.tiles@, t.root),
    {
        Self::new_container(ContainerKind::Vertical, panes)
    }

    /// A tree whose root is a grid with the given panes.
    pub fn new_grid(panes: Vec<Pane>) -> (t: Tree<Pane>)
        requires
            panes@.len() < u64::MAX,
        ensures
            t.wf(),
            t.root == Some(TileId(panes@.len() as u64)),
            t.tiles@ == initial_tiles(ContainerKind::Grid, panes@),
            is_tree(t.tiles@, t.root),
    {
        Self::new_container(ContainerKind::Grid, panes)
    }

    /// A tree whose root is a container of the given kind with the given panes.
    pub fn new_container(kind: ContainerKind, panes: Vec<Pane>) -> (t: Tree<Pane>)
        requires
            panes@.len() < u64::MAX,
        ensures
            t.wf(),
            t.root == Some(TileId(panes@.len() as u64)),
            t.tiles@ == initial_tiles(kind, panes@),
            is_tree(t.tiles@, t.root),
    {
        let mut tiles: Tiles<Pane> = Tiles::new();
        let mut tile_ids: Vec<TileId> = Vec::new();
        let ghost all = panes@;
        for pane in it: panes
            invariant
                it.seq() == all,
                all.len() < u64::MAX,
                tiles.wf(),
                tiles.next_id() == it.index(),
                tile_ids@.len() == it.index(),
                forall|j: int| 0 <= j < it.index() ==> tile_ids@[j] == TileId(j as u64),
                tiles@.dom() == Set::new(|k: u64| k < it.index()),
                forall|k: u64| k < it.index() ==> tiles@[k] == TileView::Pane(all[k as int]),
        {
            let id = tiles.insert_pane(pane);
            tile_ids.push(id);
            assert(tiles@.dom() =~= Set::new(|k: u64| k < it.index() + 1));
        }
        assert(tile_ids@ =~= Seq::new(all.len(), |i: int| TileId(i as u64)));
        let root = tiles.insert_new_container(kind, tile_ids);
        assert(tiles@ =~= initial_tiles(kind, all));
        proof {
            lemma_initial_tiles_form_a_tree(kind, all);
        }
        Self::new(root, tiles)
    }

    /// The root, if the tree has one.
    pub fn root(&self) -> (r: Option<TileId>)
        ensures
            r == self.root,
    {
        self.root
    }

    /// Whether `tile` is the root.
    pub fn is_root(&self, tile: TileId) -> (b: bool)
        ensures
            b == (self.root == Some(tile)),
    {
        match self.root {
            Some(root) => root == tile,
            None => false,
        }
    }

    /// Takes the tile off the children of every container that names it.
    ///
    /// The tile itself stays in the store, and nothing is simplified. Where
    /// no container names the tile, nothing changes at all.
    pub fn remove_tile_id_from_parent(&mut self, remove_me: TileId)
        requires
            old(self).wf(),
        ensures
            final(self).wf(),
            final(self).root == old(self).root,
            final(self).tiles@ == detached(old(self).tiles@, remove_me),
            final(self).tiles.rects() == old(self).tiles.rects(),
            final(self).tiles.next_id() == old(self).tiles.next_id(),
            (forall|k: u64| !is_parent_of(old(self).tiles@, k, remove_me)) ==> final(self).tiles@
                == old(self).tiles@,
    {
        self.tiles.detach(remove_me);
    }

    /// Removes the tile and all that is below it from the tree. A tree whose
    /// root is removed has no root.
    pub fn remove_tile(&mut self, id: TileId) -> (count: usize)
        requires
            old(self).wf(),
        ensures
            final(self).wf(),
            final(self).root == (if old(self).root == Some(id) {
                None
            } else {
                old(self).root
            }),
            final(self).tiles@ == removed_below(old(self).tiles@, id),
            final(self).tiles.rects() == old(self).tiles.rects(),
            final(self).tiles.next_id() == old(self).tiles.next_id(),
            count == old(self).tiles@.dom().len() - final(self).tiles@.dom().len(),
    {
        if self.is_root(id) {
            self.root = None;
        }
        self.tiles.remove_recursively(id)
    }

    /// Moves the tile to the insertion point: takes it off the children of
    /// every container that names it, then puts it where the point says.
    /// Where the store holds the tile and the parent that the point names,
    /// that parent alone names the tile afterwards, and names it once.
    pub fn move_tile(&mut self, moved_tile_id: TileId, insertion_point: InsertionPoint)
        requires
            old(self).wf(),
            old(self).tiles.next_id() < u64::MAX,
        ensures
            final(self).wf(),
            final(self).root == old(self).root,
            final(self).tiles@ == inserted_at(
                detached(old(self).tiles@, moved_tile_id),
                old(self).tiles.next_id(),
                insertion_point,
                moved_tile_id,
            ),
            final(self).tiles.rects() == old(self).tiles.rects(),
            final(self).tiles.next_id() == (if wraps_parent(
                detached(old(self).tiles@, moved_tile_id),
                insertion_point,
            ) {
                (old(self).tiles.next_id() + 1) as u64
            } else {
                old(self).tiles.next_id()
            }),
            old(self).tiles@.contains_key(insertion_point.parent_id.0) && old(
                self,
            ).tiles@.contains_key(moved_tile_id.0) ==> (forall|k: u64|
                is_parent_of(final(self).tiles@, k, moved_tile_id) <==> k
                    == insertion_point.parent_id.0) && occurs_once(
                final(self).tiles@[insertion_point.parent_id.0].children(),
                moved_tile_id,
            ),
    {
        proof {
            self.tiles.lemma_wf_finite();
            if self.tiles@.contains_key(insertion_point.parent_id.0) && self.tiles@.contains_key(
                moved_tile_id.0,
            ) {
                lemma_move_gives_one_parent(
                    self.tiles@,
                    self.tiles.next_id(),
                    insertion_point,
                    moved_tile_id,
                );
            }
        }
        self.remove_tile_id_from_parent(moved_tile_id);
        self.tiles.insert_at(insertion_point, moved_tile_id);
    }
}

impl<Pane> Tree<Pane> {
    /// Simplifies the tree from the root down: containers without children
    /// go, and containers with a single child give way to it, as far as the
    /// options say.
    pub fn simplify(&mut self, options: &SimplificationOptions)
        requires
            old(self).wf(),
        ensures
            final(self).wf(),
            (final(self).tiles@, final(self).root) == simplified_tree(
                old(self).tiles@,
                old(self).root,
                *options,
            ),
            final(self).tiles.rects() == old(self).tiles.rects(),
            final(self).tiles.next_id() == old(self).tiles.next_id(),
    {
        if let Some(root) = self.root {
            match self.tiles.simplify(options, root, None) {
                SimplifyAction::Keep => {},
                SimplifyAction::Remove => {
                    self.root = None;
                },
                SimplifyAction::Replace(new_root) => {
                    self.root = Some(new_root);
                },
            }
        }
    }

    /// Takes every tile out of the store that cannot be reached from the
    /// root, and drops the stale shares of the containers that stay.
    pub fn gc(&mut self)
        requires
            old(self).wf(),
        ensures
            final(self).wf(),
            final(self).root == old(self).root,
            final(self).tiles@ == collected(old(self).tiles@, old(self).root),
            final(self).tiles.rects() == old(self).tiles.rects(),
            final(self).tiles.next_id() == old(self).tiles.next_id(),
    {
        self.tiles.gc_root(self.root);
    }

    /// Lays the tree out in `rect`, with `gap` between neighbours in a
    /// container: every tile that is shown gets its rectangle.
    pub fn layout(&mut self, rect: Rect, gap: u32)
        requires
            old(self).wf(),
        ensures
            final(self).wf(),
            final(self).root == old(self).root,
            (final(self).tiles@, final(self).tiles.rects()) == laid_out_tree(
                old(self).tiles@,
                old(self).root,
                rect,
                gap as nat,
            ),
            final(self).tiles.next_id() == old(self).tiles.next_id(),
    {
        self.tiles.clear_rects();
        if let Some(root) = self.root {
            self.tiles.layout_tile(rect, root, gap);
        }
    }

    /// Gives every pane a tab container, where the options ask for that.
    pub fn ensure_tabs(&mut self, options: &SimplificationOptions)
        requires
            old(self).wf(),
        ensures
            final(self).wf(),
            final(self).root == old(self).root,
            (final(self).tiles@, final(self).tiles.next_id()) == tabbed_tree(
                old(self).tiles@,
                old(self).tiles.next_id(),
                old(self).root,
                *options,
            ),
            final(self).tiles.rects() == old(self).tiles.rects(),
    {
        if options.all_panes_must_have_tabs {
            if let Some(root) = self.root {
                self.tiles.make_all_panes_children_of_tabs(false, root);
            }
        }
    }

    /// What a frame does to the tree before anything is shown: the tree is
    /// simplified, panes are given tabs where the options ask for that,
    /// garbage is collected, and what is left is laid out in `rect`.
    pub fn prepare_frame(&mut self, options: &SimplificationOptions, rect: Rect, gap: u32)
        requires
            old(self).wf(),
        ensures
            final(self).wf(),
            ({
                let simple = simplified_tree(old(self).tiles@, old(self).root, *options);
                let tabbed = tabbed_tree(simple.0, old(self).tiles.next_id(), simple.1, *options);
                let kept = collected(tabbed.0, simple.1);
                &&& final(self).root == simple.1
                &&& final(self).tiles.next_id() == tabbed.1
                &&& (final(self).tiles@, final(self).tiles.rects()) == laid_out_tree(
                    kept,
                    simple.1,
                    rect,
                    gap as nat,
                )
            }),
    {
        self.simplify(options);
        self.ensure_tabs(options);
        self.gc();
        self.layout(rect, gap);
    }

    /// Makes the tiles that `should_activate` picks visible: every tab
    /// container above such a tile shows the tab that leads to it.
    pub fn make_active<F: Fn(&Tile<Pane>) -> bool>(&mut self, should_activate: F)
        requires
            old(self).wf(),
            forall|tile: &Tile<Pane>| should_activate.requires((tile,)),
        ensures
            final(self).wf(),
            final(self).root == old(self).root,
            final(self).tiles@.dom() == old(self).tiles@.dom(),
            final(self).tiles.rects() == old(self).tiles.rects(),
            final(self).tiles.next_id() == old(self).tiles.next_id(),
            forall|p: spec_fn(TileView<Pane>) -> bool| #[trigger]
                computes_on_tiles(should_activate, p) ==> final(self).tiles@ == (match old(
                    self,
                ).root {
                    Some(root) => activated(
                        old(self).tiles@.dom().len(),
                        old(self).tiles@,
                        root,
                        p,
                    ).0,
                    None => old(self).tiles@,
                }),
    {
        if let Some(root) = self.root {
            self.tiles.make_active(root, &should_activate);
        }
    }
}

impl<Pane> Tree<Pane> {
    /// Whether a tile can be dragged at all and `dragged` says that it is
    /// being dragged: a tile of the store other than the root.
    pub open spec fn is_drag_source(&self, dragged: spec_fn(TileId) -> bool, id: TileId) -> bool {
        self.tiles@.contains_key(id.0) && self.root != Some(id) && dragged(id)
    }

    /// Finds the tile that is being dragged, if any.
    ///
    /// `possible_drag` says whether the pointer can be dragging anything yet,
    /// and `is_being_dragged` which tiles it has taken hold of. The root
    /// cannot be dragged, and `escape_pressed` ends every drag. Where several
    /// tiles are being dragged, one of them is found.
    pub fn dragged_id<F: Fn(TileId) -> bool>(
        &self,
        possible_drag: bool,
        is_being_dragged: &F,
        escape_pressed: bool,
    ) -> (dragged: Option<TileId>)
        requires
            forall|id: TileId| is_being_dragged.requires((id,)),
        ensures
            forall|p: spec_fn(TileId) -> bool| #[trigger]
                computes(*is_being_dragged, p) ==> match dragged {
                    Some(id) => possible_drag && !escape_pressed && self.is_drag_source(p, id),
                    None => !possible_drag || escape_pressed || forall|id: TileId|
                        !self.is_drag_source(p, id),
                },
    {
        if !possible_drag {
            return None;
        }
        let ids = self.tiles.tile_ids();
        let mut i: usize = 0;
        while i < ids.len()
            invariant
                i <= ids@.len(),
                possible_drag,
                forall|id: TileId| ids@.contains(id) <==> self.tiles@.contains_key(id.0),
                forall|id: TileId| is_being_dragged.requires((id,)),
                forall|p: spec_fn(TileId) -> bool| #[trigger]
                    computes(*is_being_dragged, p) ==> forall|j: int|
                        0 <= j < i ==> !self.is_drag_source(p, ids@[j]),
            decreases ids@.len() - i,
        {
            let tile_id = ids[i];
            assert(ids@.contains(tile_id));
            if !self.is_root(tile_id) {
                let held = is_being_dragged(tile_id);
                assert(forall|p: spec_fn(TileId) -> bool| #[trigger]
                    computes(*is_being_dragged, p) ==> p(tile_id) == held);
                if held {
                    if escape_pressed {
                        return None;
                    }
                    return Some(tile_id);
                }
            }
            i += 1;
        }
        proof {
            assert forall|p: spec_fn(TileId) -> bool| #[trigger]
                computes(*is_being_dragged, p) implies forall|id: TileId|
                !self.is_drag_source(p, id) by {
                assert forall|id: TileId| !self.is_drag_source(p, id) by {
                    if self.tiles@.contains_key(id.0) {
                        assert(ids@.contains(id));
                        let j = choose|j: int| 0 <= j < ids@.len() && ids@[j] == id;
                        assert(!self.is_drag_source(p, ids@[j]));
                    }
                }
            }
        }
        None
    }

    /// Ends a drag when the pointer is released: the dragged tile moves to
    /// the best place that was found for it, if one was found. Says whether
    /// the tile was moved.
    pub fn finish_drag(&mut self, drop_context: &DropContext, released: bool) -> (moved: bool)
        requires
            old(self).wf(),
            old(self).tiles.next_id() < u64::MAX,
        ensures
            final(self).wf(),
            final(self).root == old(self).root,
            final(self).tiles.rects() == old(self).tiles.rects(),
            moved == (released && drop_context.mouse_pos is Some && drop_context.dragged_tile_id
                is Some && drop_context.best_insertion is Some),
            final(self).tiles@ == (if moved {
                inserted_at(
                    detached(old(self).tiles@, drop_context.dragged_tile_id->0),
                    old(self).tiles.next_id(),
                    drop_context.best_insertion->0,
                    drop_context.dragged_tile_id->0,
                )
            } else {
                old(self).tiles@
            }),
            final(self).tiles.next_id() == (if moved && wraps_parent(
                detached(old(self).tiles@, drop_context.dragged_tile_id->0),
                drop_context.best_insertion->0,
            ) {
                (old(self).tiles.next_id() + 1) as u64
            } else {
                old(self).tiles.next_id()
            }),
    {
        if !released || drop_context.mouse_pos.is_none() {
            return false;
        }
        match (drop_context.dragged_tile_id, drop_context.best_insertion) {
            (Some(dragged), Some(insertion_point)) => {
                self.move_tile(dragged, insertion_point);
                true
            },
            _ => false,
        }
    }
}

} // verus!
