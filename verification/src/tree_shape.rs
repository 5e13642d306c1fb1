use vstd::prelude::*;

use crate::tile_id::TileId;
use crate::tiles::TileView;

verus! {

/// The tiles at and below `x`, if they form a tree: the store holds `x` and
/// every tile below it, and none of them is named twice.
///
/// `depth` bounds the height of the tree; no tree in a store is higher than
/// the store has tiles.
pub open spec fn tree_below<Pane>(depth: nat, tiles: Map<u64, TileView<Pane>>, x: TileId) -> Option<
    Set<u64>,
>
    decreases depth, 0nat,
{
    if depth == 0 || !tiles.contains_key(x.0) {
        None
    } else {
        trees_below(
            (depth - 1) as nat,
            tiles,
            tiles[x.0].children(),
            tiles[x.0].children().len(),
            set![x.0],
        )
    }
}

/// The tiles of `seen` and those at and below the first `count` of the given
/// children, if each child is the root of a tree and no tile is met twice.
pub open spec fn trees_below<Pane>(
    depth: nat,
    tiles: Map<u64, TileView<Pane>>,
    children: Seq<TileId>,
    count: nat,
    seen: Set<u64>,
) -> Option<Set<u64>>
    decreases depth, 1 + count,
{
    if count == 0 {
        Some(seen)
    } else {
        match trees_below(depth, tiles, children, (count - 1) as nat, seen) {
            None => None,
            Some(before) => match tree_below(depth, tiles, children[count - 1]) {
                None => None,
                Some(ids) => if ids.disjoint(before) {
                    Some(before.union(ids))
                } else {
                    None
                },
            },
        }
    }
}

/// Whether the tiles below the root form a tree.
pub open spec fn is_tree<Pane>(tiles: Map<u64, TileView<Pane>>, root: Option<TileId>) -> bool {
    match root {
        Some(r) => tree_below(tiles.dom().len(), tiles, r) is Some,
        None => true,
    }
}

/// Whether two stores hold the same tiles under the given identifiers.
pub open spec fn agree_on<Pane>(
    a: Map<u64, TileView<Pane>>,
    b: Map<u64, TileView<Pane>>,
    ids: Set<u64>,
) -> bool {
    forall|k: u64| #[trigger]
        ids.contains(k) ==> a.contains_key(k) && b.contains_key(k) && a[k] == b[k]
}

/// The root of a tree is one of its tiles, and the store holds them all.
pub proof fn lemma_tree_in_store<Pane>(depth: nat, tiles: Map<u64, TileView<Pane>>, x: TileId)
    requires
        tree_below(depth, tiles, x) is Some,
    ensures
        tree_below(depth, tiles, x)->0.contains(x.0),
        forall|k: u64| #[trigger] tree_below(depth, tiles, x)->0.contains(k) ==> tiles.contains_key(k),
    decreases depth, 0nat,
{
    lemma_trees_in_store(
        (depth - 1) as nat,
        tiles,
        tiles[x.0].children(),
        tiles[x.0].children().len(),
        set![x.0],
    );
}

/// What has been seen stays seen, and all else that is met is in the store.
pub proof fn lemma_trees_in_store<Pane>(
    depth: nat,
    tiles: Map<u64, TileView<Pane>>,
    children: Seq<TileId>,
    count: nat,
    seen: Set<u64>,
)
    requires
        trees_below(depth, tiles, children, count, seen) is Some,
    ensures
        seen.subset_of(trees_below(depth, tiles, children, count, seen)->0),
        forall|k: u64| #[trigger]
            trees_below(depth, tiles, children, count, seen)->0.contains(k) ==> seen.contains(k)
                || tiles.contains_key(k),
    decreases depth, 1 + count,
{
    if count > 0 {
        lemma_trees_in_store(depth, tiles, children, (count - 1) as nat, seen);
        lemma_tree_in_store(depth, tiles, children[count - 1]);
    }
}

/// A tree stays the tree it is when its height is bounded less tightly.
pub proof fn lemma_tree_deeper<Pane>(depth: nat, tiles: Map<u64, TileView<Pane>>, x: TileId)
    requires
        tree_below(depth, tiles, x) is Some,
    ensures
        tree_below(depth + 1, tiles, x) == tree_below(depth, tiles, x),
    decreases depth, 0nat,
{
    lemma_trees_deeper(
        (depth - 1) as nat,
        tiles,
        tiles[x.0].children(),
        tiles[x.0].children().len(),
        set![x.0],
    );
}

/// Trees stay the trees they are when their height is bounded less tightly.
pub proof fn lemma_trees_deeper<Pane>(
    depth: nat,
    tiles: Map<u64, TileView<Pane>>,
    children: Seq<TileId>,
    count: nat,
    seen: Set<u64>,
)
    requires
        trees_below(depth, tiles, children, count, seen) is Some,
    ensures
        trees_below(depth + 1, tiles, children, count, seen) == trees_below(
            depth,
            tiles,
            children,
            count,
            seen,
        ),
    decreases depth, 1 + count,
{
    if count > 0 {
        lemma_trees_deeper(depth, tiles, children, (count - 1) as nat, seen);
        lemma_tree_deeper(depth, tiles, children[count - 1]);
    }
}

/// A tree is the same tree in every store that holds the same tiles under
/// its identifiers.
pub proof fn lemma_tree_frame<Pane>(
    depth: nat,
    tiles: Map<u64, TileView<Pane>>,
    other: Map<u64, TileView<Pane>>,
    x: TileId,
)
    requires
        tree_below(depth, tiles, x) is Some,
        agree_on(other, tiles, tree_below(depth, tiles, x)->0),
    ensures
        tree_below(depth, other, x) == tree_below(depth, tiles, x),
    decreases depth, 0nat,
{
    let ids = tree_below(depth, tiles, x)->0;
    lemma_tree_in_store(depth, tiles, x);
    assert(ids.contains(x.0));
    let children = tiles[x.0].children();
    lemma_trees_in_store((depth - 1) as nat, tiles, children, children.len(), set![x.0]);
    assert(agree_on(other, tiles, ids.difference(set![x.0])));
    lemma_trees_frame((depth - 1) as nat, tiles, other, children, children.len(), set![x.0]);
}

/// Trees are the same trees in every store that holds the same tiles under
/// their identifiers.
pub proof fn lemma_trees_frame<Pane>(
    depth: nat,
    tiles: Map<u64, TileView<Pane>>,
    other: Map<u64, TileView<Pane>>,
    children: Seq<TileId>,
    count: nat,
    seen: Set<u64>,
)
    requires
        trees_below(depth, tiles, children, count, seen) is Some,
        agree_on(
            other,
            tiles,
            trees_below(depth, tiles, children, count, seen)->0.difference(seen),
        ),
    ensures
        trees_below(depth, other, children, count, seen) == trees_below(
            depth,
            tiles,
            children,
            count,
            seen,
        ),
    decreases depth, 1 + count,
{
    if count > 0 {
        let all = trees_below(depth, tiles, children, count, seen)->0;
        let before = trees_below(depth, tiles, children, (count - 1) as nat, seen)->0;
        let ids = tree_below(depth, tiles, children[count - 1])->0;
        lemma_trees_in_store(depth, tiles, children, (count - 1) as nat, seen);
        assert(all == before.union(ids));
        assert(agree_on(other, tiles, before.difference(seen))) by {
            assert forall|k: u64| #[trigger] before.difference(seen).contains(k) implies other.contains_key(
                k,
            ) && tiles.contains_key(k) && other[k] == tiles[k] by {
                assert(all.difference(seen).contains(k));
            }
        }
        lemma_trees_frame(depth, tiles, other, children, (count - 1) as nat, seen);
        assert(agree_on(other, tiles, ids)) by {
            assert forall|k: u64| #[trigger] ids.contains(k) implies other.contains_key(k)
                && tiles.contains_key(k) && other[k] == tiles[k] by {
                assert(!before.contains(k));
                assert(all.difference(seen).contains(k));
            }
        }
        lemma_tree_frame(depth, tiles, other, children[count - 1]);
    }
}

/// Only the children that are gone through matter.
pub proof fn lemma_trees_prefix<Pane>(
    depth: nat,
    tiles: Map<u64, TileView<Pane>>,
    a: Seq<TileId>,
    b: Seq<TileId>,
    count: nat,
    seen: Set<u64>,
)
    requires
        count <= a.len(),
        count <= b.len(),
        forall|i: int| 0 <= i < count ==> a[i] == b[i],
    ensures
        trees_below(depth, tiles, a, count, seen) == trees_below(depth, tiles, b, count, seen),
    decreases count,
{
    if count > 0 {
        lemma_trees_prefix(depth, tiles, a, b, (count - 1) as nat, seen);
    }
}

} // verus!
