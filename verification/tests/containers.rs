use egui_tiles::container::shares::ONE_SHARE;
use egui_tiles::{
    Container, ContainerKind, Grid, Linear, LinearDir, Shares, SimplifyAction, Tabs, Tile,
    TileId, Tiles, Tree,
};

fn ids(ns: &[u64]) -> Vec<TileId> {
    ns.iter().map(|n| TileId(*n)).collect()
}

#[test]
fn a_container_is_made_of_the_kind_asked_for() {
    for kind in ContainerKind::all() {
        let container = Container::new(kind, ids(&[4, 5]));
        assert_eq!(container.kind(), kind);
        assert_eq!(container.children(), &ids(&[4, 5])[..]);
        assert!(!container.is_empty());
    }
    assert_eq!(Container::new_horizontal(vec![]).kind(), ContainerKind::Horizontal);
    assert_eq!(Container::new_vertical(vec![]).kind(), ContainerKind::Vertical);
    assert_eq!(Container::new_tabs(vec![]).kind(), ContainerKind::Tabs);
    assert_eq!(Container::new_grid(vec![]).kind(), ContainerKind::Grid);
    assert_eq!(
        Container::new_linear(LinearDir::Vertical, vec![]).kind(),
        ContainerKind::Vertical
    );
    assert!(Container::new_grid(vec![]).is_empty());
    assert_eq!(ContainerKind::default(), ContainerKind::Tabs);
    assert_eq!(LinearDir::default(), LinearDir::Horizontal);
}

#[test]
fn containers_are_made_from_their_kinds() {
    assert_eq!(Container::from(Tabs::new(ids(&[1]))).kind(), ContainerKind::Tabs);
    assert_eq!(
        Container::from(Linear::new(LinearDir::Vertical, ids(&[1]))).kind(),
        ContainerKind::Vertical
    );
    assert_eq!(Container::from(Grid::new(ids(&[1]))).kind(), ContainerKind::Grid);
}

#[test]
fn children_are_added_at_the_end() {
    for kind in ContainerKind::all() {
        let mut container = Container::new(kind, ids(&[1]));
        container.add_child(TileId(2));
        container.add_child(TileId(1));
        assert_eq!(container.children(), &ids(&[1, 2, 1])[..]);
        assert_eq!(container.only_child(), None);
    }
    assert_eq!(Container::new_tabs(ids(&[6])).only_child(), Some(TileId(6)));
    assert_eq!(Container::new_tabs(vec![]).only_child(), None);
}

#[test]
fn children_go_in_at_their_index_or_at_the_end() {
    let mut container = Container::new_horizontal(ids(&[1, 2]));
    container.insert_child(1, TileId(9));
    assert_eq!(container.children(), &ids(&[1, 9, 2])[..]);
    container.insert_child(usize::MAX, TileId(8));
    assert_eq!(container.children(), &ids(&[1, 9, 2, 8])[..]);
    container.insert_child(0, TileId(7));
    assert_eq!(container.children(), &ids(&[7, 1, 9, 2, 8])[..]);
    let mut tabs = Container::new_tabs(ids(&[1, 2]));
    tabs.insert_child(5, TileId(3));
    match tabs {
        Container::Tabs(tabs) => {
            assert_eq!(tabs.children, ids(&[1, 2, 3]));
            assert_eq!(tabs.active, Some(TileId(3)));
        }
        _ => panic!("no tabs"),
    }
}

#[test]
fn setting_the_kind_keeps_the_children() {
    let mut linear = Linear::new(LinearDir::Horizontal, ids(&[1, 2]));
    linear.shares.set(TileId(1), 7);
    let mut container = Container::Linear(linear);
    container.set_kind(ContainerKind::Horizontal);
    match &container {
        Container::Linear(linear) => assert_eq!(linear.shares.get(TileId(1)), 7),
        _ => panic!("no linear container"),
    }
    container.set_kind(ContainerKind::Vertical);
    match &container {
        Container::Linear(linear) => {
            assert_eq!(linear.dir, LinearDir::Vertical);
            assert_eq!(linear.children, ids(&[1, 2]));
            assert_eq!(linear.shares.get(TileId(1)), ONE_SHARE);
        }
        _ => panic!("no linear container"),
    }
    container.set_kind(ContainerKind::Tabs);
    match &container {
        Container::Tabs(tabs) => {
            assert_eq!(tabs.children, ids(&[1, 2]));
            assert_eq!(tabs.active, Some(TileId(1)));
        }
        _ => panic!("no tabs"),
    }
    container.set_kind(ContainerKind::Grid);
    assert_eq!(container.kind(), ContainerKind::Grid);
    assert_eq!(container.children(), &ids(&[1, 2])[..]);
}

#[test]
fn retain_keeps_what_the_closure_accepts() {
    for kind in ContainerKind::all() {
        let mut container = Container::new(kind, ids(&[1, 2, 3, 2]));
        container.retain(&|id: TileId| id != TileId(2));
        assert_eq!(container.children(), &ids(&[1, 3])[..]);
    }
    let mut tabs = Tabs::new(ids(&[1, 2, 3]));
    tabs.retain(&|id: TileId| id != TileId(3));
    assert_eq!(tabs.children, ids(&[1, 2]));
    assert_eq!(tabs.active, Some(TileId(1)));
    tabs.retain(&|id: TileId| id != TileId(1));
    assert_eq!(tabs.active, Some(TileId(1)));
    assert_eq!(tabs.layout(), Some(TileId(2)));
    tabs.retain(&|_| false);
    assert_eq!(tabs.active, Some(TileId(2)));
    assert_eq!(tabs.layout(), None);
}

#[test]
fn actions_are_applied_child_by_child() {
    let actions = vec![
        SimplifyAction::Keep,
        SimplifyAction::Remove,
        SimplifyAction::Replace(TileId(30)),
    ];
    for kind in ContainerKind::all() {
        let mut container = Container::new(kind, ids(&[1, 2, 3, 4]));
        container.simplify_children(&actions);
        assert_eq!(container.children(), &ids(&[1, 30, 4])[..]);
    }
    let mut linear = Linear::new(LinearDir::Horizontal, ids(&[1, 2, 3]));
    linear.shares.set(TileId(3), 9);
    linear.shares.set(TileId(2), 8);
    linear.simplify_children(&actions);
    assert_eq!(linear.shares.get(TileId(30)), 9);
    assert!(!linear.shares.contains(TileId(3)));
    assert_eq!(linear.shares.get(TileId(2)), 8);

    let mut tabs = Tabs::new(ids(&[1, 2, 3]));
    tabs.set_active(TileId(3));
    tabs.simplify_children(&actions);
    assert_eq!(tabs.active, Some(TileId(30)));
    let mut tabs = Tabs::new(ids(&[1, 2, 3]));
    tabs.set_active(TileId(2));
    tabs.simplify_children(&actions);
    assert_eq!(tabs.active, Some(TileId(2)));
    assert_eq!(tabs.layout(), Some(TileId(1)));
    let mut late = Tabs::new(vec![]);
    late.add_child(TileId(1));
    late.simplify_children(&[SimplifyAction::Keep]);
    assert_eq!(late.active, None);
}

#[test]
fn the_active_tab_is_one_of_the_tabs() {
    let mut tabs = Tabs::new(ids(&[1, 2]));
    assert_eq!(tabs.active, Some(TileId(1)));
    assert!(tabs.is_active(TileId(1)));
    tabs.set_active(TileId(9));
    assert_eq!(tabs.active, Some(TileId(1)));
    tabs.set_active(TileId(2));
    assert!(tabs.is_active(TileId(2)));
    tabs.add_child(TileId(3));
    assert!(tabs.is_active(TileId(2)));
    tabs.active = Some(TileId(77));
    assert_eq!(tabs.layout(), Some(TileId(1)));
    let mut empty = Tabs::new(vec![]);
    assert_eq!(empty.active, None);
    assert_eq!(empty.layout(), None);
}

#[test]
fn shares_default_to_one_and_move_with_a_replacement() {
    let mut shares = Shares::default();
    assert_eq!(shares.get(TileId(1)), ONE_SHARE);
    assert_eq!(shares.sum(), 0);
    shares.set(TileId(1), 10);
    shares.set(TileId(2), 20);
    assert_eq!(shares.sum(), 30);
    shares.replace_with(TileId(1), TileId(5));
    assert_eq!(shares.get(TileId(5)), 10);
    assert!(!shares.contains(TileId(1)));
    shares.replace_with(TileId(9), TileId(2));
    assert_eq!(shares.get(TileId(2)), 20);
    assert!(!shares.contains(TileId(9)));
    let mut entries = shares.entries();
    entries.sort();
    assert_eq!(entries, vec![(TileId(2), 20), (TileId(5), 10)]);
    shares.retain(|id| id == TileId(5));
    assert_eq!(shares.entries(), vec![(TileId(5), 10)]);
    shares.retain_children(&ids(&[1, 2]));
    assert_eq!(shares.sum(), 0);
}

#[test]
fn a_tree_starts_with_its_panes_under_one_container() {
    let tree = Tree::new_container(ContainerKind::Grid, vec!["a", "b"]);
    assert_eq!(tree.root(), Some(TileId(2)));
    assert!(matches!(tree.tiles.get(TileId(0)), Some(Tile::Pane("a"))));
    assert!(matches!(tree.tiles.get(TileId(1)), Some(Tile::Pane("b"))));
    match tree.tiles.get(TileId(2)) {
        Some(Tile::Container(c)) => {
            assert_eq!(c.kind(), ContainerKind::Grid);
            assert_eq!(c.children(), &ids(&[0, 1])[..]);
        }
        _ => panic!("no container"),
    }
    assert_eq!(tree.tiles.len(), 3);
    assert!(tree.is_root(TileId(2)));
    assert!(!tree.is_root(TileId(0)));
    let empty: Tree<u8> = Tree::empty();
    assert_eq!(empty.root(), None);
    assert!(!empty.is_root(TileId(0)));
    assert!(empty.tiles.is_empty());
    let default: Tree<u8> = Tree::default();
    assert_eq!(default.root(), None);
}

#[test]
fn the_store_names_new_tiles_itself() {
    let mut tiles = Tiles::new();
    assert!(tiles.can_allocate());
    assert_eq!(tiles.insert_pane(1u8), TileId(0));
    assert!(tiles.insert(TileId(10), Tile::Pane(2)).is_none());
    assert!(matches!(tiles.insert(TileId(10), Tile::Pane(3)), Some(Tile::Pane(2))));
    assert_eq!(tiles.insert_pane(4), TileId(11));
    assert_eq!(tiles.insert_vertical_tile(vec![TileId(0)]), TileId(12));
    assert!(matches!(tiles.remove(TileId(10)), Some(Tile::Pane(3))));
    assert!(tiles.remove(TileId(10)).is_none());
    assert_eq!(tiles.insert_pane(5), TileId(13));
    assert_eq!(tiles.parent_of(TileId(0)), Some(TileId(12)));
    assert_eq!(tiles.parent_of(TileId(12)), None);
    assert_eq!(tiles.get(TileId(12)).and_then(|t| t.kind()), Some(ContainerKind::Vertical));
    assert!(tiles.get(TileId(0)).unwrap().is_pane());
    assert!(tiles.get(TileId(12)).unwrap().is_container());
    assert_eq!(TileId::from_u64(5).as_u64(), 5);
}
