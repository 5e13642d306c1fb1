use egui_tiles::container::shares::ONE_SHARE;
use egui_tiles::{
    Container, ContainerKind, Linear, LinearDir, Rect, SimplificationOptions, SimplifyAction,
    Tabs, Tile, TileId, Tiles, Tree,
};

const PRUNE_AND_COLLAPSE: SimplificationOptions = SimplificationOptions {
    prune_empty_containers: true,
    collapse_single_child_containers: true,
    all_panes_must_have_tabs: false,
};

const NOTHING: SimplificationOptions = SimplificationOptions {
    prune_empty_containers: false,
    collapse_single_child_containers: false,
    all_panes_must_have_tabs: false,
};

fn children_of<Pane>(tiles: &Tiles<Pane>, id: TileId) -> Vec<TileId> {
    match tiles.get(id) {
        Some(Tile::Container(container)) => container.children().to_vec(),
        _ => panic!("no container"),
    }
}

fn sorted_ids<Pane>(tiles: &Tiles<Pane>) -> Vec<u64> {
    let mut ids: Vec<u64> = tiles.tile_ids().into_iter().map(|id| id.0).collect();
    ids.sort();
    ids
}

#[test]
fn the_default_options_prune_and_collapse() {
    assert_eq!(SimplificationOptions::default(), PRUNE_AND_COLLAPSE);
}

#[test]
fn a_container_with_one_child_gives_way_to_it() {
    let mut tiles = Tiles::new();
    let pane = tiles.insert_pane("p");
    let other = tiles.insert_pane("q");
    let inner = tiles.insert_tab_tile(vec![pane]);
    let root = tiles.insert_horizontal_tile(vec![inner, other]);
    let mut tree = Tree::new(root, tiles);
    tree.simplify(&PRUNE_AND_COLLAPSE);
    assert_eq!(tree.root(), Some(root));
    assert_eq!(children_of(&tree.tiles, root), vec![pane, other]);
    assert!(!tree.tiles.contains(inner));
    match tree.tiles.get(root) {
        Some(Tile::Container(Container::Linear(linear))) => {
            assert!(!linear.shares.contains(pane));
            assert_eq!(linear.shares.get(pane), ONE_SHARE);
        }
        _ => panic!("no linear container"),
    }
}

#[test]
fn a_replacement_inherits_the_weight() {
    let mut tiles = Tiles::new();
    let pane = tiles.insert_pane("p");
    let other = tiles.insert_pane("q");
    let inner = tiles.insert_vertical_tile(vec![pane]);
    let mut linear = Linear::new(LinearDir::Horizontal, vec![inner, other]);
    linear.shares.set(inner, 3 * ONE_SHARE);
    let root = tiles.insert_container(Container::Linear(linear));
    let mut tree = Tree::new(root, tiles);
    tree.simplify(&PRUNE_AND_COLLAPSE);
    match tree.tiles.get(root) {
        Some(Tile::Container(Container::Linear(linear))) => {
            assert_eq!(linear.children, vec![pane, other]);
            assert_eq!(linear.shares.get(pane), 3 * ONE_SHARE);
            assert!(!linear.shares.contains(inner));
        }
        _ => panic!("no linear container"),
    }
}

#[test]
fn the_root_gives_way_too() {
    let mut tree = Tree::new_tabs(vec!["only"]);
    tree.simplify(&PRUNE_AND_COLLAPSE);
    assert_eq!(tree.root(), Some(TileId(0)));
    assert_eq!(sorted_ids(&tree.tiles), vec![0]);
    tree.simplify(&PRUNE_AND_COLLAPSE);
    assert_eq!(tree.root(), Some(TileId(0)));
    assert_eq!(sorted_ids(&tree.tiles), vec![0]);
}

#[test]
fn empty_containers_are_pruned() {
    let mut tiles: Tiles<&str> = Tiles::new();
    let empty = tiles.insert_grid_tile(vec![]);
    let pane = tiles.insert_pane("p");
    let other = tiles.insert_pane("q");
    let root = tiles.insert_vertical_tile(vec![empty, pane, other]);
    let mut tree = Tree::new(root, tiles);
    tree.simplify(&PRUNE_AND_COLLAPSE);
    assert_eq!(children_of(&tree.tiles, root), vec![pane, other]);
    assert!(!tree.tiles.contains(empty));

    let mut tree: Tree<&str> = Tree::new_horizontal(vec![]);
    tree.simplify(&PRUNE_AND_COLLAPSE);
    assert_eq!(tree.root(), None);
    assert!(tree.tiles.is_empty());
}

#[test]
fn nothing_happens_where_the_options_ask_for_nothing() {
    let mut tiles: Tiles<&str> = Tiles::new();
    let empty = tiles.insert_grid_tile(vec![]);
    let pane = tiles.insert_pane("p");
    let single = tiles.insert_tab_tile(vec![pane]);
    let root = tiles.insert_vertical_tile(vec![empty, single]);
    let mut tree = Tree::new(root, tiles);
    tree.simplify(&NOTHING);
    assert_eq!(tree.root(), Some(root));
    assert_eq!(children_of(&tree.tiles, root), vec![empty, single]);
    assert_eq!(sorted_ids(&tree.tiles), vec![0, 1, 2, 3]);
}

#[test]
fn children_that_are_not_there_are_taken_off() {
    let mut tiles = Tiles::new();
    let pane = tiles.insert_pane("p");
    let other = tiles.insert_pane("q");
    let root = tiles.insert_horizontal_tile(vec![pane, TileId(40), other, TileId(41)]);
    let mut tree = Tree::new(root, tiles);
    tree.simplify(&NOTHING);
    assert_eq!(children_of(&tree.tiles, root), vec![pane, other]);
}

#[test]
fn a_root_that_is_not_there_leaves_no_root() {
    let tiles: Tiles<&str> = Tiles::new();
    let mut tree = Tree::new(TileId(3), tiles);
    tree.simplify(&NOTHING);
    assert_eq!(tree.root(), None);
}

#[test]
fn tabs_stay_around_a_pane_where_panes_must_have_tabs() {
    let options = SimplificationOptions {
        prune_empty_containers: true,
        collapse_single_child_containers: true,
        all_panes_must_have_tabs: true,
    };
    let mut tiles = Tiles::new();
    let pane = tiles.insert_pane("p");
    let other = tiles.insert_pane("q");
    let tabs = tiles.insert_tab_tile(vec![pane]);
    let more_tabs = tiles.insert_tab_tile(vec![other]);
    let root = tiles.insert_horizontal_tile(vec![tabs, more_tabs]);
    let mut tree = Tree::new(root, tiles);
    tree.simplify(&options);
    assert_eq!(children_of(&tree.tiles, root), vec![tabs, more_tabs]);
    assert_eq!(children_of(&tree.tiles, tabs), vec![pane]);

    let mut tiles = Tiles::new();
    let pane = tiles.insert_pane("p");
    let other = tiles.insert_pane("q");
    let inner = tiles.insert_tab_tile(vec![pane]);
    let root = tiles.insert_tab_tile(vec![inner, other]);
    let mut tree = Tree::new(root, tiles);
    tree.simplify(&options);
    assert_eq!(children_of(&tree.tiles, root), vec![pane, other]);
}

#[test]
fn simplifying_twice_is_simplifying_once() {
    let mut tiles = Tiles::new();
    let a = tiles.insert_pane("a");
    let b = tiles.insert_pane("b");
    let c = tiles.insert_pane("c");
    let empty = tiles.insert_tab_tile(vec![]);
    let single = tiles.insert_vertical_tile(vec![b]);
    let nested = tiles.insert_horizontal_tile(vec![single]);
    let row = tiles.insert_horizontal_tile(vec![a, empty, nested, TileId(70)]);
    let tabs = tiles.insert_tab_tile(vec![c]);
    let root = tiles.insert_vertical_tile(vec![row, tabs]);
    let mut tree = Tree::new(root, tiles);
    tree.simplify(&PRUNE_AND_COLLAPSE);
    let once_root = tree.root();
    let once_ids = sorted_ids(&tree.tiles);
    let once_root_children = children_of(&tree.tiles, root);
    let once_row_children = children_of(&tree.tiles, row);
    assert_eq!(once_root, Some(root));
    assert_eq!(once_root_children, vec![row, c]);
    assert_eq!(once_row_children, vec![a, b]);
    assert_eq!(once_ids, vec![a.0, b.0, c.0, row.0, root.0]);
    tree.simplify(&PRUNE_AND_COLLAPSE);
    assert_eq!(tree.root(), once_root);
    assert_eq!(sorted_ids(&tree.tiles), once_ids);
    assert_eq!(children_of(&tree.tiles, root), once_root_children);
    assert_eq!(children_of(&tree.tiles, row), once_row_children);
}

#[test]
fn garbage_collection_keeps_what_the_root_reaches() {
    let mut tiles = Tiles::new();
    let a = tiles.insert_pane("a");
    let b = tiles.insert_pane("b");
    let orphan = tiles.insert_pane("orphan");
    let lost_child = tiles.insert_pane("lost child");
    let lost = tiles.insert_tab_tile(vec![lost_child]);
    let inner = tiles.insert_tab_tile(vec![b]);
    let mut linear = Linear::new(LinearDir::Horizontal, vec![a, inner, TileId(90)]);
    linear.shares.set(a, 2 * ONE_SHARE);
    linear.shares.set(orphan, 5 * ONE_SHARE);
    let root = tiles.insert_container(Container::Linear(linear));
    let mut tree = Tree::new(root, tiles);
    tree.gc();
    assert_eq!(sorted_ids(&tree.tiles), vec![a.0, b.0, inner.0, root.0]);
    assert!(!tree.tiles.contains(orphan));
    assert!(!tree.tiles.contains(lost));
    assert!(!tree.tiles.contains(lost_child));
    match tree.tiles.get(root) {
        Some(Tile::Container(Container::Linear(linear))) => {
            assert_eq!(linear.children, vec![a, inner, TileId(90)]);
            assert_eq!(linear.shares.get(a), 2 * ONE_SHARE);
            assert!(!linear.shares.contains(orphan));
            assert_eq!(linear.shares.sum(), 2 * ONE_SHARE as u128);
        }
        _ => panic!("no linear container"),
    }
    tree.gc();
    assert_eq!(sorted_ids(&tree.tiles), vec![a.0, b.0, inner.0, root.0]);
}

#[test]
fn garbage_collection_without_a_root_empties_the_store() {
    let mut tiles = Tiles::new();
    tiles.insert_pane("a");
    tiles.insert_tab_tile(vec![TileId(0)]);
    let mut tree = Tree::empty();
    tree.tiles = tiles;
    tree.gc();
    assert!(tree.tiles.is_empty());

    let mut tiles = Tiles::new();
    tiles.insert_pane("a");
    let mut tree = Tree::new(TileId(8), tiles);
    tree.gc();
    assert!(tree.tiles.is_empty());
}

#[test]
fn garbage_collection_ends_on_a_cycle() {
    let mut tiles: Tiles<&str> = Tiles::new();
    tiles.insert(TileId(0), Tile::Container(Container::new_tabs(vec![TileId(1)])));
    tiles.insert(TileId(1), Tile::Container(Container::new_tabs(vec![TileId(0), TileId(1)])));
    tiles.insert(TileId(2), Tile::Container(Container::new_tabs(vec![TileId(0)])));
    let mut tree = Tree::new(TileId(0), tiles);
    tree.gc();
    assert_eq!(sorted_ids(&tree.tiles), vec![0, 1]);
    tree.layout(Rect::new(0, 0, 10, 10), 0);
    tree.simplify(&NOTHING);
    assert_eq!(tree.root(), Some(TileId(0)));
}

#[test]
fn a_frame_simplifies_collects_and_lays_out() {
    let mut tiles = Tiles::new();
    let a = tiles.insert_pane("a");
    let b = tiles.insert_pane("b");
    let orphan = tiles.insert_pane("orphan");
    let empty = tiles.insert_tab_tile(vec![]);
    let root = tiles.insert_horizontal_tile(vec![a, empty, b]);
    let mut tree = Tree::new(root, tiles);
    tree.prepare_frame(&PRUNE_AND_COLLAPSE, Rect::new(0, 0, 210, 50), 10);
    assert_eq!(sorted_ids(&tree.tiles), vec![a.0, b.0, root.0]);
    assert!(!tree.tiles.contains(orphan));
    assert_eq!(tree.tiles.rect(a), Rect::new(0, 0, 100, 50));
    assert_eq!(tree.tiles.rect(b), Rect::new(110, 0, 210, 50));
}

#[test]
fn panes_get_tabs_where_the_options_ask_for_them() {
    let options = SimplificationOptions {
        prune_empty_containers: true,
        collapse_single_child_containers: true,
        all_panes_must_have_tabs: true,
    };
    let mut tiles = Tiles::new();
    let a = tiles.insert_pane("a");
    let b = tiles.insert_pane("b");
    let tabs = tiles.insert_tab_tile(vec![b]);
    let root = tiles.insert_horizontal_tile(vec![a, tabs]);
    let mut tree = Tree::new(root, tiles);
    tree.ensure_tabs(&options);
    assert_eq!(children_of(&tree.tiles, root), vec![a, tabs]);
    assert_eq!(children_of(&tree.tiles, a), vec![TileId(4)]);
    assert!(matches!(tree.tiles.get(TileId(4)), Some(Tile::Pane("a"))));
    assert_eq!(children_of(&tree.tiles, tabs), vec![b]);
    assert!(matches!(tree.tiles.get(b), Some(Tile::Pane("b"))));
    match tree.tiles.get(a) {
        Some(Tile::Container(c)) => assert_eq!(c.kind(), ContainerKind::Tabs),
        _ => panic!("no container"),
    }
    tree.ensure_tabs(&PRUNE_AND_COLLAPSE);
    assert_eq!(tree.tiles.len(), 5);
}

#[test]
fn simplify_says_what_the_parent_is_to_do() {
    let mut tiles = Tiles::new();
    let pane = tiles.insert_pane("p");
    let single = tiles.insert_tab_tile(vec![pane]);
    let empty = tiles.insert_tab_tile(vec![]);
    assert_eq!(tiles.simplify(&PRUNE_AND_COLLAPSE, pane, None), SimplifyAction::Keep);
    assert_eq!(tiles.simplify(&PRUNE_AND_COLLAPSE, TileId(9), None), SimplifyAction::Remove);
    assert_eq!(tiles.simplify(&PRUNE_AND_COLLAPSE, empty, None), SimplifyAction::Remove);
    assert_eq!(
        tiles.simplify(&PRUNE_AND_COLLAPSE, single, Some(ContainerKind::Grid)),
        SimplifyAction::Replace(pane)
    );
    assert!(!tiles.contains(single));
    assert!(!tiles.contains(empty));
    assert!(tiles.contains(pane));
}

#[test]
fn making_a_pane_active_shows_the_tabs_that_lead_to_it() {
    let mut tiles = Tiles::new();
    let a = tiles.insert_pane("a");
    let b = tiles.insert_pane("b");
    let c = tiles.insert_pane("c");
    let inner = tiles.insert_tab_tile(vec![b, c]);
    let root = tiles.insert_tab_tile(vec![a, inner]);
    let mut tree = Tree::new(root, tiles);
    let active = |tree: &Tree<&str>, id: TileId| match tree.tiles.get(id) {
        Some(Tile::Container(Container::Tabs(Tabs { active, .. }))) => *active,
        _ => panic!("no tabs"),
    };
    assert_eq!(active(&tree, root), Some(a));
    assert_eq!(active(&tree, inner), Some(b));
    tree.make_active(|tile| matches!(tile, Tile::Pane("c")));
    assert_eq!(active(&tree, root), Some(inner));
    assert_eq!(active(&tree, inner), Some(c));
    tree.make_active(|tile| matches!(tile, Tile::Pane("nothing")));
    assert_eq!(active(&tree, root), Some(inner));
    assert_eq!(active(&tree, inner), Some(c));
    tree.make_active(|tile| matches!(tile, Tile::Pane("a")));
    assert_eq!(active(&tree, root), Some(a));
    assert_eq!(active(&tree, inner), Some(c));
}

#[test]
fn with_tabs_around_panes_a_second_pass_may_go_further() {
    let options = SimplificationOptions {
        prune_empty_containers: true,
        collapse_single_child_containers: true,
        all_panes_must_have_tabs: true,
    };
    let mut tiles = Tiles::new();
    let pane = tiles.insert_pane("p");
    let other = tiles.insert_pane("q");
    let tabs = tiles.insert_tab_tile(vec![pane]);
    let row = tiles.insert_horizontal_tile(vec![tabs]);
    let root = tiles.insert_tab_tile(vec![row, other]);
    let mut tree = Tree::new(root, tiles);
    // below the row the tabs stay around the pane, and the row gives way to them
    tree.simplify(&options);
    assert_eq!(children_of(&tree.tiles, root), vec![tabs, other]);
    assert_eq!(children_of(&tree.tiles, tabs), vec![pane]);
    // as a tab of the root they give way to the pane
    tree.simplify(&options);
    assert_eq!(children_of(&tree.tiles, root), vec![pane, other]);
    assert!(!tree.tiles.contains(tabs));
    tree.simplify(&options);
    assert_eq!(children_of(&tree.tiles, root), vec![pane, other]);
}

#[test]
fn removing_a_tile_removes_all_that_is_below_it() {
    let mut tiles = Tiles::new();
    let a = tiles.insert_pane("a");
    let b = tiles.insert_pane("b");
    let c = tiles.insert_pane("c");
    let inner = tiles.insert_tab_tile(vec![b, c]);
    let root = tiles.insert_horizontal_tile(vec![a, inner]);
    let mut tree = Tree::new(root, tiles);
    assert_eq!(tree.remove_tile(TileId(50)), 0);
    assert_eq!(tree.tiles.len(), 5);
    assert_eq!(tree.remove_tile(inner), 3);
    assert_eq!(sorted_ids(&tree.tiles), vec![a.0, root.0]);
    assert_eq!(children_of(&tree.tiles, root), vec![a]);
    assert_eq!(tree.root(), Some(root));
    assert_eq!(tree.remove_tile(root), 2);
    assert_eq!(tree.root(), None);
    assert!(tree.tiles.is_empty());
}

#[test]
fn a_frame_is_the_same_the_second_time() {
    let mut tiles = Tiles::new();
    let a = tiles.insert_pane("a");
    let b = tiles.insert_pane("b");
    let single = tiles.insert_vertical_tile(vec![b]);
    let empty = tiles.insert_grid_tile(vec![]);
    let root = tiles.insert_horizontal_tile(vec![a, single, empty]);
    let mut tree = Tree::new(root, tiles);
    let rect = Rect::new(0, 0, 400, 100);
    tree.prepare_frame(&PRUNE_AND_COLLAPSE, rect, 0);
    let ids = sorted_ids(&tree.tiles);
    let first = (tree.tiles.rect(a), tree.tiles.rect(b), tree.tiles.rect(root));
    assert_eq!(first, (Rect::new(0, 0, 200, 100), Rect::new(200, 0, 400, 100), rect));
    tree.prepare_frame(&PRUNE_AND_COLLAPSE, rect, 0);
    assert_eq!(sorted_ids(&tree.tiles), ids);
    assert_eq!((tree.tiles.rect(a), tree.tiles.rect(b), tree.tiles.rect(root)), first);
}
