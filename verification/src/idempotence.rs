use vstd::prelude::*;

use crate::container::children::{action_at, simplified_children};
use crate::container::linear::simplified_shares;
use crate::container::tabs::simplified_active;
use crate::container::{ContainerKind, ContainerView};
use crate::simplification::{SimplificationOptions, SimplifyAction};
use crate::simplify::{container_verdict, simplified, simplified_below};
use crate::tile_id::TileId;
use crate::tiles::TileView;
use crate::tree::simplified_tree;
use crate::tree_shape::{
    agree_on, is_tree, lemma_tree_deeper, lemma_tree_frame, lemma_tree_in_store,
    lemma_trees_frame, lemma_trees_in_store, lemma_trees_prefix, tree_below, trees_below,
};

verus! {

/// Whether simplification looks at a container alone to decide what becomes
/// of it: it does unless it is both to collapse containers with one child
/// and to keep tabs around panes, for then the kind of the container above
/// decides too.
pub open spec fn plain(options: SimplificationOptions) -> bool {
    !(options.all_panes_must_have_tabs && options.collapse_single_child_containers)
}

/// As many actions as asked for, each of them to keep the child.
pub open spec fn keeps(count: nat) -> Seq<SimplifyAction> {
    Seq::new(count, |i: int| SimplifyAction::Keep)
}

/// Whether simplification leaves the tile alone, once it has left alone all
/// that is below it.
pub open spec fn at_rest<Pane>(options: SimplificationOptions, tile: TileView<Pane>) -> bool {
    match tile {
        TileView::Pane(_) => true,
        TileView::Container(container) => {
            &&& container_verdict(options, container, Map::<u64, TileView<Pane>>::empty(), None)
                == SimplifyAction::Keep
            &&& container.simplified(keeps(container.children().len())) == container
        },
    }
}

/// Whether the tiles at and below `x` form a tree in which every tile is at rest.
pub open spec fn settled<Pane>(
    depth: nat,
    options: SimplificationOptions,
    tiles: Map<u64, TileView<Pane>>,
    x: TileId,
) -> bool {
    &&& tree_below(depth, tiles, x) is Some
    &&& forall|k: u64| #[trigger]
        tree_below(depth, tiles, x)->0.contains(k) ==> at_rest(options, tiles[k])
}

/// Whether the first `count` of the given children are the roots of trees
/// that share no tile with each other or with `seen`, and in which every
/// tile is at rest.
pub open spec fn settled_below<Pane>(
    depth: nat,
    options: SimplificationOptions,
    tiles: Map<u64, TileView<Pane>>,
    children: Seq<TileId>,
    count: nat,
    seen: Set<u64>,
) -> bool {
    &&& trees_below(depth, tiles, children, count, seen) is Some
    &&& forall|k: u64| #[trigger]
        trees_below(depth, tiles, children, count, seen)->0.contains(k) && !seen.contains(k)
            ==> at_rest(options, tiles[k])
}

/// What a child leaves in its place: itself where it is kept, its
/// replacement where it is replaced, nothing where it is removed.
pub open spec fn result_of(child: TileId, action: SimplifyAction) -> Option<TileId> {
    match action {
        SimplifyAction::Keep => Some(child),
        SimplifyAction::Replace(new) => Some(new),
        SimplifyAction::Remove => None,
    }
}

proof fn lemma_keep_all_children(children: Seq<TileId>, actions: Seq<SimplifyAction>)
    requires
        forall|i: int| 0 <= i < children.len() ==> action_at(actions, i) == SimplifyAction::Keep,
    ensures
        simplified_children(children, actions) == children,
    decreases children.len(),
{
    if children.len() > 0 {
        lemma_keep_all_children(children.drop_last(), actions);
        assert(children.drop_last().push(children.last()) =~= children);
    }
}

proof fn lemma_keep_all_shares(shares: Map<u64, u32>, children: Seq<TileId>, actions: Seq<SimplifyAction>)
    requires
        forall|i: int| 0 <= i < children.len() ==> action_at(actions, i) == SimplifyAction::Keep,
    ensures
        simplified_shares(shares, children, actions) == shares,
    decreases children.len(),
{
    if children.len() > 0 {
        lemma_keep_all_shares(shares, children.drop_last(), actions);
    }
}

proof fn lemma_keep_all_active(
    children: Seq<TileId>,
    actions: Seq<SimplifyAction>,
    active: Option<TileId>,
)
    requires
        forall|i: int| 0 <= i < children.len() ==> action_at(actions, i) == SimplifyAction::Keep,
    ensures
        simplified_active(children, actions, active) == active,
    decreases children.len(),
{
    if children.len() > 0 {
        lemma_keep_all_active(children.drop_last(), actions, active);
    }
}

/// The children that come of simplification depend on the actions of those
/// children alone.
proof fn lemma_simplified_children_prefix(
    children: Seq<TileId>,
    a: Seq<SimplifyAction>,
    b: Seq<SimplifyAction>,
)
    requires
        forall|i: int| 0 <= i < children.len() ==> action_at(a, i) == action_at(b, i),
    ensures
        simplified_children(children, a) == simplified_children(children, b),
    decreases children.len(),
{
    if children.len() > 0 {
        lemma_simplified_children_prefix(children.drop_last(), a, b);
    }
}

/// A container that has met the actions of its children changes no more
/// when all its children are kept.
proof fn lemma_simplified_is_normal(container: ContainerView, actions: Seq<SimplifyAction>)
    ensures
        container.simplified(actions).simplified(
            keeps(container.simplified(actions).children().len()),
        ) == container.simplified(actions),
{
    let after = container.simplified(actions);
    let all = keeps(after.children().len());
    lemma_keep_all_children(after.children(), all);
    match after {
        ContainerView::Tabs(tabs) => {
            lemma_keep_all_active(tabs.children, all, tabs.active);
        },
        ContainerView::Linear(linear) => {
            lemma_keep_all_shares(linear.shares, linear.children, all);
        },
        ContainerView::Grid(_) => {},
    }
}

/// Where the options are plain, what becomes of a container depends on the
/// container alone.
proof fn lemma_verdict_plain<Pane>(
    options: SimplificationOptions,
    container: ContainerView,
    a: Map<u64, TileView<Pane>>,
    pa: Option<ContainerKind>,
    b: Map<u64, TileView<Pane>>,
    pb: Option<ContainerKind>,
)
    requires
        plain(options),
    ensures
        container_verdict(options, container, a, pa) == container_verdict(
            options,
            container,
            b,
            pb,
        ),
{
}

/// Simplification changes nothing at or below a settled tile, and keeps it.
pub proof fn lemma_settled_is_kept<Pane>(
    bound: nat,
    depth: nat,
    tiles: Map<u64, TileView<Pane>>,
    options: SimplificationOptions,
    x: TileId,
    parent_kind: Option<ContainerKind>,
)
    requires
        plain(options),
        tiles.dom().finite(),
        tiles.dom().len() <= bound,
        settled(depth, options, tiles, x),
    ensures
        simplified(bound, tiles, options, x, parent_kind) == (tiles, SimplifyAction::Keep),
    decreases bound, 0nat,
{
    lemma_tree_in_store(depth, tiles, x);
    assert(tiles.dom().len() > 0) by {
        if tiles.dom().len() == 0 {
            assert(tiles.dom() =~= Set::empty());
        }
    }
    let ids = tree_below(depth, tiles, x)->0;
    assert(ids.contains(x.0));
    match tiles[x.0] {
        TileView::Pane(_) => {},
        TileView::Container(container) => {
            let rest = tiles.remove(x.0);
            let children = container.children();
            lemma_trees_in_store((depth - 1) as nat, tiles, children, children.len(), set![x.0]);
            assert(agree_on(rest, tiles, ids.difference(set![x.0])));
            lemma_trees_frame((depth - 1) as nat, tiles, rest, children, children.len(), set![x.0]);
            assert(settled_below(
                (depth - 1) as nat,
                options,
                rest,
                children,
                children.len(),
                set![x.0],
            )) by {
                assert forall|k: u64| #[trigger]
                    ids.contains(k) && !set![x.0].contains(k) implies at_rest(options, rest[k]) by {
                    assert(ids.difference(set![x.0]).contains(k));
                }
            }
            lemma_settled_are_kept(
                (bound - 1) as nat,
                (depth - 1) as nat,
                rest,
                options,
                children,
                children.len(),
                set![x.0],
                Some(container.kind()),
            );
            let below = simplified_below(
                (bound - 1) as nat,
                rest,
                options,
                children,
                Some(container.kind()),
                children.len(),
            );
            assert(below.1 =~= keeps(children.len()));
            assert(at_rest(options, tiles[x.0]));
            lemma_verdict_plain(
                options,
                container,
                Map::<u64, TileView<Pane>>::empty(),
                None,
                rest,
                parent_kind,
            );
            assert(rest.insert(x.0, tiles[x.0]) =~= tiles);
        },
    }
}

/// Simplification changes nothing at or below settled children, and keeps each.
pub proof fn lemma_settled_are_kept<Pane>(
    bound: nat,
    depth: nat,
    tiles: Map<u64, TileView<Pane>>,
    options: SimplificationOptions,
    children: Seq<TileId>,
    count: nat,
    seen: Set<u64>,
    parent_kind: Option<ContainerKind>,
)
    requires
        plain(options),
        tiles.dom().finite(),
        tiles.dom().len() <= bound,
        count <= children.len(),
        settled_below(depth, options, tiles, children, count, seen),
    ensures
        simplified_below(bound, tiles, options, children, parent_kind, count) == (
            tiles,
            keeps(count),
        ),
    decreases bound, 1 + count,
{
    if count > 0 {
        let all = trees_below(depth, tiles, children, count, seen)->0;
        let before = trees_below(depth, tiles, children, (count - 1) as nat, seen)->0;
        let ids = tree_below(depth, tiles, children[count - 1])->0;
        assert(all == before.union(ids));
        assert(settled_below(depth, options, tiles, children, (count - 1) as nat, seen)) by {
            assert forall|k: u64| #[trigger] before.contains(k) && !seen.contains(k) implies at_rest(
                options,
                tiles[k],
            ) by {
                assert(all.contains(k));
            }
        }
        lemma_settled_are_kept(
            bound,
            depth,
            tiles,
            options,
            children,
            (count - 1) as nat,
            seen,
            parent_kind,
        );
        lemma_trees_in_store(depth, tiles, children, (count - 1) as nat, seen);
        assert(settled(depth, options, tiles, children[count - 1])) by {
            assert forall|k: u64| #[trigger] ids.contains(k) implies at_rest(options, tiles[k]) by {
                assert(all.contains(k));
                assert(!before.contains(k));
            }
        }
        lemma_settled_is_kept(bound, depth, tiles, options, children[count - 1], parent_kind);
        assert(keeps((count - 1) as nat).push(SimplifyAction::Keep) =~= keeps(count));
    } else {
        assert(keeps(0) =~= Seq::<SimplifyAction>::empty());
    }
}

/// Whether two stores hold the same under the identifier `k`: the same tile, or none.
pub open spec fn same_at<Pane>(a: Map<u64, TileView<Pane>>, b: Map<u64, TileView<Pane>>, k: u64) -> bool {
    (a.contains_key(k) <==> b.contains_key(k)) && (a.contains_key(k) ==> a[k] == b[k])
}

/// Simplifying the root of a tree changes nothing outside the tree, and
/// leaves what it puts in the root's place, if anything, settled.
pub proof fn lemma_simplify_settles<Pane>(
    bound: nat,
    depth: nat,
    store: Map<u64, TileView<Pane>>,
    options: SimplificationOptions,
    x: TileId,
    parent_kind: Option<ContainerKind>,
)
    requires
        plain(options),
        store.dom().finite(),
        store.dom().len() <= bound,
        tree_below(depth, store, x) is Some,
    ensures
        ({
            let ids = tree_below(depth, store, x)->0;
            let after = simplified(bound, store, options, x, parent_kind);
            &&& after.0.dom().subset_of(store.dom())
            &&& forall|k: u64| !ids.contains(k) ==> #[trigger] same_at(after.0, store, k)
            &&& match result_of(x, after.1) {
                Some(r) => settled(depth, options, after.0, r) && tree_below(
                    depth,
                    after.0,
                    r,
                )->0.subset_of(ids),
                None => true,
            }
        }),
    decreases bound, 0nat,
{
    lemma_tree_in_store(depth, store, x);
    assert(store.dom().len() > 0) by {
        if store.dom().len() == 0 {
            assert(store.dom() =~= Set::empty());
        }
    }
    let ids = tree_below(depth, store, x)->0;
    assert(ids.contains(x.0));
    let after = simplified(bound, store, options, x, parent_kind);
    match store[x.0] {
        TileView::Pane(_) => {
            assert forall|k: u64| #[trigger]
                tree_below(depth, store, x)->0.contains(k) implies at_rest(options, store[k]) by {
                assert(ids =~= set![x.0]);
            }
        },
        TileView::Container(container) => {
            let rest = store.remove(x.0);
            let children = container.children();
            let seen = set![x.0];
            lemma_trees_in_store((depth - 1) as nat, store, children, children.len(), seen);
            assert(agree_on(rest, store, ids.difference(seen)));
            lemma_trees_frame((depth - 1) as nat, store, rest, children, children.len(), seen);
            lemma_simplify_settles_below(
                (bound - 1) as nat,
                (depth - 1) as nat,
                rest,
                options,
                children,
                children.len(),
                seen,
                Some(container.kind()),
            );
            let below = simplified_below(
                (bound - 1) as nat,
                rest,
                options,
                children,
                Some(container.kind()),
                children.len(),
            );
            assert(children.take(children.len() as int) =~= children);
            let kids = simplified_children(children, below.1);
            let done = container.simplified(below.1);
            assert(done.children() == kids);
            let verdict = container_verdict(options, done, below.0, parent_kind);
            lemma_verdict_plain(
                options,
                done,
                below.0,
                parent_kind,
                Map::<u64, TileView<Pane>>::empty(),
                None,
            );
            let met = trees_below((depth - 1) as nat, below.0, kids, kids.len(), seen)->0;
            lemma_trees_in_store((depth - 1) as nat, below.0, kids, kids.len(), seen);
            assert forall|k: u64| !ids.contains(k) implies #[trigger] same_at(after.0, store, k) by {
                assert(same_at(below.0, rest, k));
            }
            match verdict {
                SimplifyAction::Keep => {
                    let last = below.0.insert(x.0, TileView::Container(done));
                    assert(after.0 == last);
                    assert(agree_on(last, below.0, met.difference(seen)));
                    lemma_trees_frame((depth - 1) as nat, below.0, last, kids, kids.len(), seen);
                    assert(tree_below(depth, last, x) == Some(met));
                    lemma_simplified_is_normal(container, below.1);
                    assert forall|k: u64| #[trigger] met.contains(k) implies at_rest(
                        options,
                        last[k],
                    ) by {
                        if k != x.0 {
                            assert(!seen.contains(k));
                            assert(last[k] == below.0[k]);
                        }
                    }
                },
                SimplifyAction::Replace(r) => {
                    assert(kids.len() == 1 && kids[0] == r);
                    let first = tree_below((depth - 1) as nat, below.0, r)->0;
                    assert(trees_below((depth - 1) as nat, below.0, kids, 0, seen) == Some(seen));
                    assert(met == seen.union(first));
                    lemma_tree_deeper((depth - 1) as nat, below.0, r);
                    assert forall|k: u64| #[trigger] first.contains(k) implies at_rest(
                        options,
                        below.0[k],
                    ) by {
                        assert(met.contains(k));
                        assert(!seen.contains(k));
                    }
                    assert(first.subset_of(ids));
                },
                SimplifyAction::Remove => {},
            }
        },
    }
}

/// Simplifying the roots of trees that share no tile changes nothing outside
/// them, and leaves what it puts in their places settled.
pub proof fn lemma_simplify_settles_below<Pane>(
    bound: nat,
    depth: nat,
    store: Map<u64, TileView<Pane>>,
    options: SimplificationOptions,
    children: Seq<TileId>,
    count: nat,
    seen: Set<u64>,
    parent_kind: Option<ContainerKind>,
)
    requires
        plain(options),
        store.dom().finite(),
        store.dom().len() <= bound,
        count <= children.len(),
        trees_below(depth, store, children, count, seen) is Some,
    ensures
        ({
            let ids = trees_below(depth, store, children, count, seen)->0;
            let after = simplified_below(bound, store, options, children, parent_kind, count);
            let kids = simplified_children(children.take(count as int), after.1);
            &&& after.1.len() == count
            &&& after.0.dom().subset_of(store.dom())
            &&& forall|k: u64|
                !ids.contains(k) || seen.contains(k) ==> #[trigger] same_at(after.0, store, k)
            &&& settled_below(depth, options, after.0, kids, kids.len(), seen)
            &&& trees_below(depth, after.0, kids, kids.len(), seen)->0.subset_of(ids)
        }),
    decreases bound, 1 + count,
{
    if count == 0 {
        assert(children.take(0) =~= Seq::<TileId>::empty());
    } else {
        let ids = trees_below(depth, store, children, count, seen)->0;
        let ids_before = trees_below(depth, store, children, (count - 1) as nat, seen)->0;
        let child = children[count - 1];
        let ids_child = tree_below(depth, store, child)->0;
        assert(ids == ids_before.union(ids_child));
        lemma_simplify_settles_below(
            bound,
            depth,
            store,
            options,
            children,
            (count - 1) as nat,
            seen,
            parent_kind,
        );
        let before = simplified_below(
            bound,
            store,
            options,
            children,
            parent_kind,
            (count - 1) as nat,
        );
        let kids_before = simplified_children(children.take(count - 1), before.1);
        let met_before = trees_below(depth, before.0, kids_before, kids_before.len(), seen)->0;
        lemma_trees_in_store(depth, store, children, (count - 1) as nat, seen);
        lemma_trees_in_store(depth, before.0, kids_before, kids_before.len(), seen);
        lemma_tree_in_store(depth, store, child);
        assert(agree_on(before.0, store, ids_child)) by {
            assert forall|k: u64| #[trigger] ids_child.contains(k) implies before.0.contains_key(k)
                && store.contains_key(k) && before.0[k] == store[k] by {
                assert(!ids_before.contains(k));
                assert(same_at(before.0, store, k));
            }
        }
        lemma_tree_frame(depth, store, before.0, child);
        vstd::set_lib::lemma_len_subset(before.0.dom(), store.dom());
        lemma_simplify_settles(bound, depth, before.0, options, child, parent_kind);
        let step = simplified(bound, before.0, options, child, parent_kind);
        let after = simplified_below(bound, store, options, children, parent_kind, count);
        assert(after == (step.0, before.1.push(step.1)));
        let kids = simplified_children(children.take(count as int), after.1);
        assert(children.take(count as int).drop_last() =~= children.take(count - 1));
        lemma_simplified_children_prefix(children.take(count - 1), after.1, before.1);
        assert(action_at(after.1, count - 1) == step.1);
        assert forall|k: u64| !ids.contains(k) || seen.contains(k) implies #[trigger] same_at(
            after.0,
            store,
            k,
        ) by {
            assert(!ids_child.contains(k));
            assert(same_at(step.0, before.0, k));
            assert(same_at(before.0, store, k));
        }
        assert(agree_on(step.0, before.0, met_before.difference(seen))) by {
            assert forall|k: u64| #[trigger]
                met_before.difference(seen).contains(k) implies step.0.contains_key(k)
                && before.0.contains_key(k) && step.0[k] == before.0[k] by {
                assert(ids_before.contains(k));
                assert(!ids_child.contains(k));
                assert(same_at(step.0, before.0, k));
            }
        }
        lemma_trees_frame(depth, before.0, step.0, kids_before, kids_before.len(), seen);
        match result_of(child, step.1) {
            Some(r) => {
                assert(kids =~= kids_before.push(r));
                let ids_r = tree_below(depth, step.0, r)->0;
                lemma_trees_prefix(depth, step.0, kids, kids_before, kids_before.len(), seen);
                assert(ids_r.disjoint(met_before));
                assert(trees_below(depth, step.0, kids, kids.len(), seen) == Some(
                    met_before.union(ids_r),
                ));
                assert forall|k: u64| #[trigger]
                    met_before.union(ids_r).contains(k) && !seen.contains(k) implies at_rest(
                    options,
                    step.0[k],
                ) by {
                    if met_before.contains(k) {
                        assert(met_before.difference(seen).contains(k));
                        assert(at_rest(options, before.0[k]));
                    }
                }
            },
            None => {
                assert(kids =~= kids_before);
                assert forall|k: u64| #[trigger]
                    met_before.contains(k) && !seen.contains(k) implies at_rest(
                    options,
                    step.0[k],
                ) by {
                    assert(met_before.difference(seen).contains(k));
                    assert(at_rest(options, before.0[k]));
                }
            },
        }
    }
}

/// Simplification is idempotent: where the tiles below the root form a
/// tree, and the options are plain, simplifying a tree that has been
/// simplified changes nothing.
pub proof fn lemma_simplify_idempotent<Pane>(
    tiles: Map<u64, TileView<Pane>>,
    root: Option<TileId>,
    options: SimplificationOptions,
)
    requires
        plain(options),
        tiles.dom().finite(),
        is_tree(tiles, root),
    ensures
        simplified_tree(
            simplified_tree(tiles, root, options).0,
            simplified_tree(tiles, root, options).1,
            options,
        ) == simplified_tree(tiles, root, options),
{
    if let Some(r) = root {
        let size = tiles.dom().len();
        lemma_simplify_settles(size, size, tiles, options, r, None);
        let once = simplified(size, tiles, options, r, None);
        vstd::set_lib::lemma_len_subset(once.0.dom(), tiles.dom());
        if let Some(kept) = result_of(r, once.1) {
            lemma_settled_is_kept(once.0.dom().len(), size, once.0, options, kept, None);
        }
    }
}

} // verus!
