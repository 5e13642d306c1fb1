use vstd::prelude::*;

use crate::container::children::{action_at, simplified_children};
use crate::container::linear::lemma_replacement_without_entry;
use crate::container::{ContainerKind, ContainerView, LinearView};
use crate::simplification::{SimplificationOptions, SimplifyAction};
use crate::simplify::{container_verdict, simplified, simplified_below};
use crate::tile_id::TileId;
use crate::tiles::TileView;
use crate::tree::simplified_tree;

verus! {

/// The actions that keep every child but child `at`, which `new` replaces.
pub open spec fn replace_one(count: nat, at: int, new: TileId) -> Seq<SimplifyAction> {
    Seq::new(
        count,
        |i: int|
            if i == at {
                SimplifyAction::Replace(new)
            } else {
                SimplifyAction::Keep
            },
    )
}

/// Whether the container `parent` holds panes and, as child `at`, a tab
/// container whose only tab is the pane `only`; all of them tiles of the
/// store, and none of them named twice.
pub open spec fn holds_single_tab<Pane>(
    tiles: Map<u64, TileView<Pane>>,
    parent: TileId,
    at: int,
    only: TileId,
) -> bool {
    let children = tiles[parent.0].children();
    &&& tiles.dom().finite()
    &&& tiles.contains_key(parent.0)
    &&& tiles[parent.0] is Container
    &&& 0 <= at < children.len()
    &&& children.len() >= 2
    &&& tiles.contains_key(children[at].0)
    &&& tiles[children[at].0] is Container
    &&& tiles[children[at].0]->Container_0 is Tabs
    &&& tiles[children[at].0].children() == seq![only]
    &&& tiles.contains_key(only.0)
    &&& tiles[only.0] is Pane
    &&& children[at] != parent
    &&& only != parent
    &&& only != children[at]
    &&& forall|i: int|
        0 <= i < children.len() && i != at ==> children[i] != parent && children[i] != children[at]
            && tiles.contains_key(children[i].0) && tiles[children[i].0] is Pane
}

proof fn lemma_pane_is_kept<Pane>(
    depth: nat,
    tiles: Map<u64, TileView<Pane>>,
    options: SimplificationOptions,
    x: TileId,
    parent_kind: Option<ContainerKind>,
)
    requires
        depth > 0,
        tiles.contains_key(x.0),
        tiles[x.0] is Pane,
    ensures
        simplified(depth, tiles, options, x, parent_kind) == (tiles, SimplifyAction::Keep),
{
}

proof fn lemma_single_tab_gives_way<Pane>(
    depth: nat,
    tiles: Map<u64, TileView<Pane>>,
    options: SimplificationOptions,
    tabs: TileId,
    only: TileId,
    parent_kind: Option<ContainerKind>,
)
    requires
        depth >= 2,
        options.collapse_single_child_containers,
        !options.all_panes_must_have_tabs,
        tiles.contains_key(tabs.0),
        tiles[tabs.0] is Container,
        tiles[tabs.0]->Container_0 is Tabs,
        tiles[tabs.0].children() == seq![only],
        tiles.contains_key(only.0),
        tiles[only.0] is Pane,
        only != tabs,
    ensures
        simplified(depth, tiles, options, tabs, parent_kind) == (
            tiles.remove(tabs.0),
            SimplifyAction::Replace(only),
        ),
{
    let container = tiles[tabs.0]->Container_0;
    let rest = tiles.remove(tabs.0);
    let children = container.children();
    let kind = Some(container.kind());
    lemma_pane_is_kept((depth - 1) as nat, rest, options, only, kind);
    let none = simplified_below((depth - 1) as nat, rest, options, children, kind, 0);
    assert(none == (rest, Seq::<SimplifyAction>::empty()));
    let below = simplified_below((depth - 1) as nat, rest, options, children, kind, 1);
    assert(below == (rest, Seq::<SimplifyAction>::empty().push(SimplifyAction::Keep)));
    let after = container.simplified(below.1);
    assert(children.drop_last() =~= Seq::<TileId>::empty());
    assert(simplified_children(children.drop_last(), below.1) =~= Seq::<TileId>::empty());
    assert(simplified_children(children, below.1) =~= seq![only]);
    assert(after.children() =~= seq![only]);
    assert(container_verdict(options, after, rest, parent_kind) == SimplifyAction::Replace(only));
}

proof fn lemma_children_with_one_replaced(children: Seq<TileId>, at: int, new: TileId, count: int)
    requires
        0 <= at < children.len(),
        0 <= count <= children.len(),
    ensures
        simplified_children(children.take(count), replace_one(children.len(), at, new)) == (
        if at < count {
            children.take(count).update(at, new)
        } else {
            children.take(count)
        }),
    decreases count,
{
    let actions = replace_one(children.len(), at, new);
    if count > 0 {
        lemma_children_with_one_replaced(children, at, new, count - 1);
        assert(children.take(count).drop_last() =~= children.take(count - 1));
        assert(action_at(actions, count - 1) == actions[count - 1]);
        if at == count - 1 {
            assert(children.take(count - 1).push(new) =~= children.take(count).update(at, new));
        } else if at < count - 1 {
            assert(children.take(count - 1).update(at, new).push(children[count - 1])
                =~= children.take(count).update(at, new));
        } else {
            assert(children.take(count - 1).push(children[count - 1]) =~= children.take(count));
        }
    } else {
        assert(children.take(0) =~= Seq::<TileId>::empty());
    }
}

proof fn lemma_single_tab_below<Pane>(
    depth: nat,
    tiles: Map<u64, TileView<Pane>>,
    options: SimplificationOptions,
    parent: TileId,
    at: int,
    only: TileId,
    count: nat,
)
    requires
        depth >= 2,
        options.collapse_single_child_containers,
        !options.all_panes_must_have_tabs,
        holds_single_tab(tiles, parent, at, only),
        count <= tiles[parent.0].children().len(),
    ensures
        ({
            let children = tiles[parent.0].children();
            let rest = tiles.remove(parent.0);
            let below = simplified_below(
                depth,
                rest,
                options,
                children,
                tiles[parent.0].kind(),
                count,
            );
            &&& below.0 == (if at < count {
                rest.remove(children[at].0)
            } else {
                rest
            })
            &&& below.1 == replace_one(children.len(), at, only).take(count as int)
        }),
    decreases count,
{
    let children = tiles[parent.0].children();
    let rest = tiles.remove(parent.0);
    let kind = tiles[parent.0].kind();
    let actions = replace_one(children.len(), at, only);
    if count == 0 {
        assert(actions.take(0) =~= Seq::<SimplifyAction>::empty());
    } else {
        lemma_single_tab_below(depth, tiles, options, parent, at, only, (count - 1) as nat);
        let before = simplified_below(depth, rest, options, children, kind, (count - 1) as nat);
        let child = children[count - 1];
        if count - 1 == at {
            lemma_single_tab_gives_way(depth, before.0, options, child, only, kind);
        } else {
            lemma_pane_is_kept(depth, before.0, options, child, kind);
        }
        assert(actions.take(count as int) =~= actions.take(count - 1).push(actions[count - 1]));
    }
}

/// A tab container with a single pane gives way to the pane, and gives it no
/// weight: where a linear container at the root holds panes and one such tab
/// container, for which it has no share of its own, simplification puts the
/// pane in the place of the tab container, takes the tab container out of
/// the store, and leaves the shares as they are.
pub proof fn lemma_collapsed_tabs_pass_no_weight<Pane>(
    tiles: Map<u64, TileView<Pane>>,
    options: SimplificationOptions,
    parent: TileId,
    at: int,
    only: TileId,
)
    requires
        options.collapse_single_child_containers,
        !options.all_panes_must_have_tabs,
        holds_single_tab(tiles, parent, at, only),
        tiles[parent.0]->Container_0 is Linear,
        !tiles[parent.0]->Container_0->Linear_0.shares.contains_key(
            tiles[parent.0].children()[at].0,
        ),
    ensures
        ({
            let linear = tiles[parent.0]->Container_0->Linear_0;
            simplified_tree(tiles, Some(parent), options) == (
                tiles.remove(linear.children[at].0).insert(
                    parent.0,
                    TileView::Container(
                        ContainerView::Linear(
                            LinearView { children: linear.children.update(at, only), ..linear },
                        ),
                    ),
                ),
                Some(parent),
            )
        }),
{
    let linear = tiles[parent.0]->Container_0->Linear_0;
    let children = linear.children;
    let tabs = children[at];
    let size = tiles.dom().len();
    assert(size >= 3) by {
        let three = set![parent.0, tabs.0, only.0];
        assert(three.subset_of(tiles.dom()));
        vstd::set_lib::lemma_len_subset(three, tiles.dom());
        assert(three =~= set![parent.0].insert(tabs.0).insert(only.0));
    }
    lemma_single_tab_below((size - 1) as nat, tiles, options, parent, at, only, children.len());
    let actions = replace_one(children.len(), at, only);
    assert(actions.take(children.len() as int) =~= actions);
    lemma_children_with_one_replaced(children, at, only, children.len() as int);
    assert(children.take(children.len() as int) =~= children);
    assert forall|i: int|
        0 <= i < children.len() && action_at(actions, i) is Replace implies !linear.shares.contains_key(
        children[i].0,
    ) by {
        assert(i == at);
    }
    lemma_replacement_without_entry(linear.shares, children, actions);
    let rest = tiles.remove(parent.0);
    let done = tiles[parent.0]->Container_0.simplified(actions);
    assert(done == ContainerView::Linear(
        LinearView { children: children.update(at, only), ..linear },
    ));
    assert(rest.remove(tabs.0).insert(parent.0, TileView::Container(done)) =~= tiles.remove(
        tabs.0,
    ).insert(parent.0, TileView::Container(done)));
}

} // verus!
