use vstd::prelude::*;

use crate::container::{ContainerKind, ContainerView};
use crate::simplification::{SimplificationOptions, SimplifyAction};
use crate::tile_id::TileId;
use crate::tiles::{Tile, TileView, Tiles};

verus! {

/// What becomes of a container once its children are simplified: an empty
/// one is removed and one with a single child gives way to that child, where
/// the options say so. A tab container whose only child is a pane stays
/// where every pane must have tabs, unless it is itself a tab.
pub open spec fn container_verdict<Pane>(
    options: SimplificationOptions,
    container: ContainerView,
    tiles: Map<u64, TileView<Pane>>,
    parent_kind: Option<ContainerKind>,
) -> SimplifyAction {
    let children = container.children();
    if options.prune_empty_containers && children.len() == 0 {
        SimplifyAction::Remove
    } else if options.collapse_single_child_containers && children.len() == 1 {
        if container.kind() == ContainerKind::Tabs && options.all_panes_must_have_tabs
            && tiles.contains_key(children[0].0) && tiles[children[0].0] is Pane && parent_kind
            != Some(ContainerKind::Tabs) {
            SimplifyAction::Keep
        } else {
            SimplifyAction::Replace(children[0])
        }
    } else {
        SimplifyAction::Keep
    }
}

/// The tiles after the tile `it` and all below it have been simplified, and
/// what the container that holds `it` is to do with it.
///
/// A tile that the store does not hold is to be removed. A pane stays. A
/// container first has its children simplified, in order and over the tiles
/// without the container itself, and applies to each child what came of it.
/// It then stays in the store, or leaves it where it is to be removed or
/// replaced.
///
/// `depth` bounds how deep the pass goes; any bound from the number of tiles
/// in the store upwards gives the same.
pub open spec fn simplified<Pane>(
    depth: nat,
    tiles: Map<u64, TileView<Pane>>,
    options: SimplificationOptions,
    it: TileId,
    parent_kind: Option<ContainerKind>,
) -> (Map<u64, TileView<Pane>>, SimplifyAction)
    decreases depth, 0nat,
{
    if depth == 0 || !tiles.contains_key(it.0) {
        (tiles, SimplifyAction::Remove)
    } else {
        match tiles[it.0] {
            TileView::Pane(_) => (tiles, SimplifyAction::Keep),
            TileView::Container(container) => {
                let below = simplified_below(
                    (depth - 1) as nat,
                    tiles.remove(it.0),
                    options,
                    container.children(),
                    Some(container.kind()),
                    container.children().len(),
                );
                let after = container.simplified(below.1);
                let verdict = container_verdict(options, after, below.0, parent_kind);
                if verdict == SimplifyAction::Keep {
                    (below.0.insert(it.0, TileView::Container(after)), verdict)
                } else {
                    (below.0, verdict)
                }
            },
        }
    }
}

/// The tiles after the first `count` of the given children have been
/// simplified, one after the other, and what came of each.
pub open spec fn simplified_below<Pane>(
    depth: nat,
    tiles: Map<u64, TileView<Pane>>,
    options: SimplificationOptions,
    children: Seq<TileId>,
    parent_kind: Option<ContainerKind>,
    count: nat,
) -> (Map<u64, TileView<Pane>>, Seq<SimplifyAction>)
    decreases depth, 1 + count,
{
    if count == 0 {
        (tiles, Seq::empty())
    } else {
        let before = simplified_below(
            depth,
            tiles,
            options,
            children,
            parent_kind,
            (count - 1) as nat,
        );
        let step = simplified(depth, before.0, options, children[count - 1], parent_kind);
        (step.0, before.1.push(step.1))
    }
}

/// Simplifying adds no tile to the store.
pub proof fn lemma_simplified_dom<Pane>(
    depth: nat,
    tiles: Map<u64, TileView<Pane>>,
    options: SimplificationOptions,
    it: TileId,
    parent_kind: Option<ContainerKind>,
)
    ensures
        simplified(depth, tiles, options, it, parent_kind).0.dom().subset_of(tiles.dom()),
    decreases depth, 0nat,
{
    if depth > 0 && tiles.contains_key(it.0) {
        if let TileView::Container(container) = tiles[it.0] {
            lemma_simplified_below_dom(
                (depth - 1) as nat,
                tiles.remove(it.0),
                options,
                container.children(),
                Some(container.kind()),
                container.children().len(),
            );
        }
    }
}

/// Simplifying children adds no tile to the store.
pub proof fn lemma_simplified_below_dom<Pane>(
    depth: nat,
    tiles: Map<u64, TileView<Pane>>,
    options: SimplificationOptions,
    children: Seq<TileId>,
    parent_kind: Option<ContainerKind>,
    count: nat,
)
    ensures
        simplified_below(depth, tiles, options, children, parent_kind, count).0.dom().subset_of(
            tiles.dom(),
        ),
        simplified_below(depth, tiles, options, children, parent_kind, count).1.len() == count,
    decreases depth, 1 + count,
{
    if count > 0 {
        lemma_simplified_below_dom(
            depth,
            tiles,
            options,
            children,
            parent_kind,
            (count - 1) as nat,
        );
        let before = simplified_below(
            depth,
            tiles,
            options,
            children,
            parent_kind,
            (count - 1) as nat,
        );
        lemma_simplified_dom(depth, before.0, options, children[count - 1], parent_kind);
    }
}

/// No bound on the depth matters once it is as large as the store.
pub proof fn lemma_simplified_depth<Pane>(
    a: nat,
    b: nat,
    tiles: Map<u64, TileView<Pane>>,
    options: SimplificationOptions,
    it: TileId,
    parent_kind: Option<ContainerKind>,
)
    requires
        tiles.dom().finite(),
        tiles.dom().len() <= a,
        tiles.dom().len() <= b,
    ensures
        simplified(a, tiles, options, it, parent_kind) == simplified(
            b,
            tiles,
            options,
            it,
            parent_kind,
        ),
    decreases a, 0nat,
{
    if tiles.contains_key(it.0) {
        assert(tiles.dom().len() > 0) by {
            if tiles.dom().len() == 0 {
                assert(tiles.dom() =~= Set::empty());
            }
        }
        if let TileView::Container(container) = tiles[it.0] {
            lemma_simplified_below_depth(
                (a - 1) as nat,
                (b - 1) as nat,
                tiles.remove(it.0),
                options,
                container.children(),
                Some(container.kind()),
                container.children().len(),
            );
        }
    }
}

/// No bound on the depth matters once it is as large as the store.
pub proof fn lemma_simplified_below_depth<Pane>(
    a: nat,
    b: nat,
    tiles: Map<u64, TileView<Pane>>,
    options: SimplificationOptions,
    children: Seq<TileId>,
    parent_kind: Option<ContainerKind>,
    count: nat,
)
    requires
        tiles.dom().finite(),
        tiles.dom().len() <= a,
        tiles.dom().len() <= b,
    ensures
        simplified_below(a, tiles, options, children, parent_kind, count) == simplified_below(
            b,
            tiles,
            options,
            children,
            parent_kind,
            count,
        ),
    decreases a, 1 + count,
{
    if count > 0 {
        lemma_simplified_below_depth(
            a,
            b,
            tiles,
            options,
            children,
            parent_kind,
            (count - 1) as nat,
        );
        let before = simplified_below(a, tiles, options, children, parent_kind, (count - 1) as nat);
        lemma_simplified_below_dom(a, tiles, options, children, parent_kind, (count - 1) as nat);
        vstd::set_lib::lemma_len_subset(before.0.dom(), tiles.dom());
        lemma_simplified_depth(a, b, before.0, options, children[count - 1], parent_kind);
    }
}

impl<Pane> Tiles<Pane> {
    /// Simplifies the tile `it` and all below it, and says what the
    /// container that holds it is to do with it. `parent_kind` is the kind
    /// of that container, if there is one.
    pub fn simplify(
        &mut self,
        options: &SimplificationOptions,
        it: TileId,
        parent_kind: Option<ContainerKind>,
    ) -> (action: SimplifyAction)
        requires
            old(self).wf(),
        ensures
            final(self).wf(),
            final(self)@.dom().subset_of(old(self)@.dom()),
            final(self).next_id() == old(self).next_id(),
            final(self).rects() == old(self).rects(),
            (final(self)@, action) == simplified(
                old(self)@.dom().len(),
                old(self)@,
                *options,
                it,
                parent_kind,
            ),
        decreases old(self)@.dom().len(),
    {
        proof {
            self.lemma_wf_finite();
        }
        let ghost depth = self@.dom().len();
        let tile = match self.remove(it) {
            Some(tile) => tile,
            None => {
                assert(self@ =~= old(self)@);
                return SimplifyAction::Remove;
            },
        };
        match tile {
            Tile::Pane(pane) => {
                self.insert(it, Tile::Pane(pane));
                assert(self@ =~= old(self)@);
                SimplifyAction::Keep
            },
            Tile::Container(mut container) => {
                let kind = container.kind();
                let ghost rest = self@;
                let ghost children = container@.children();
                let mut actions: Vec<SimplifyAction> = Vec::new();
                let n = container.children().len();
                let mut i: usize = 0;
                while i < n
                    invariant
                        i <= n,
                        n == children.len(),
                        children == container@.children(),
                        self.wf(),
                        self@.dom().subset_of(rest.dom()),
                        rest.dom().finite(),
                        rest.dom().len() == depth - 1,
                        depth == old(self)@.dom().len(),
                        self.next_id() == old(self).next_id(),
                        self.rects() == old(self).rects(),
                        (self@, actions@) == simplified_below(
                            (depth - 1) as nat,
                            rest,
                            *options,
                            children,
                            Some(kind),
                            i as nat,
                        ),
                    decreases n - i,
                {
                    let child = container.children()[i];
                    proof {
                        self.lemma_wf_finite();
                        vstd::set_lib::lemma_len_subset(self@.dom(), rest.dom());
                        lemma_simplified_depth(
                            self@.dom().len(),
                            (depth - 1) as nat,
                            self@,
                            *options,
                            child,
                            Some(kind),
                        );
                    }
                    let action = self.simplify(options, child, Some(kind));
                    actions.push(action);
                    i += 1;
                }
                container.simplify_children(actions.as_slice());
                let verdict = if options.prune_empty_containers && container.is_empty() {
                    SimplifyAction::Remove
                } else if options.collapse_single_child_containers {
                    match container.only_child() {
                        Some(only) => {
                            let child_is_pane = match self.get(only) {
                                Some(tile) => tile.is_pane(),
                                None => false,
                            };
                            if kind == ContainerKind::Tabs && options.all_panes_must_have_tabs
                                && child_is_pane && parent_kind != Some(ContainerKind::Tabs) {
                                SimplifyAction::Keep
                            } else {
                                SimplifyAction::Replace(only)
                            }
                        },
                        None => SimplifyAction::Keep,
                    }
                } else {
                    SimplifyAction::Keep
                };
                assert(container@.kind() == kind);
                assert(verdict == container_verdict(*options, container@, self@, parent_kind));
                if verdict == SimplifyAction::Keep {
                    self.insert(it, Tile::Container(container));
                }
                verdict
            },
        }
    }
}

} // verus!
