use egui_tiles::container::drop_zones::{drop_zones, linear_drop_zones, DropZone};
use egui_tiles::{
    Container, ContainerInsertion, ContainerKind, DropContext, InsertionPoint, LinearDir, Pos,
    Rect, Rects, Tile, TileId, Tiles, Tree,
};

fn ids(ns: &[u64]) -> Vec<TileId> {
    ns.iter().map(|n| TileId(*n)).collect()
}

fn children_of<Pane>(tree: &Tree<Pane>, id: TileId) -> Vec<TileId> {
    match tree.tiles.get(id) {
        Some(Tile::Container(container)) => container.children().to_vec(),
        _ => panic!("no container"),
    }
}

fn three_in_a_row() -> (Vec<TileId>, Rects) {
    let mut rects = Rects::new();
    rects.insert(TileId(0), Rect::new(0, 0, 100, 60));
    rects.insert(TileId(1), Rect::new(100, 0, 200, 60));
    rects.insert(TileId(2), Rect::new(200, 0, 300, 60));
    (ids(&[0, 1, 2]), rects)
}

#[test]
fn zones_lie_before_between_and_after_the_children() {
    let (children, rects) = three_in_a_row();
    let zones = drop_zones(12, &children, None, LinearDir::Horizontal, &rects);
    assert_eq!(
        zones,
        vec![
            DropZone { rect: Rect::new(0, 0, 12, 60), index: 0 },
            DropZone { rect: Rect::new(94, 0, 106, 60), index: 1 },
            DropZone { rect: Rect::new(194, 0, 206, 60), index: 2 },
            DropZone { rect: Rect::new(288, 0, 300, 60), index: 4 },
        ]
    );
}

#[test]
fn the_dragged_child_is_a_zone_and_is_not_counted() {
    let (children, rects) = three_in_a_row();
    let zones = linear_drop_zones(&rects, &children, LinearDir::Horizontal, Some(TileId(1)));
    assert_eq!(
        zones,
        vec![
            DropZone { rect: Rect::new(0, 0, 12, 60), index: 0 },
            DropZone { rect: Rect::new(100, 0, 200, 60), index: 1 },
            DropZone { rect: Rect::new(288, 0, 300, 60), index: 3 },
        ]
    );
    let zones = linear_drop_zones(&rects, &children, LinearDir::Horizontal, Some(TileId(2)));
    assert_eq!(
        zones,
        vec![
            DropZone { rect: Rect::new(0, 0, 12, 60), index: 0 },
            DropZone { rect: Rect::new(94, 0, 106, 60), index: 1 },
            DropZone { rect: Rect::new(200, 0, 300, 60), index: 2 },
        ]
    );
    let zones = linear_drop_zones(&rects, &children, LinearDir::Horizontal, Some(TileId(0)));
    assert_eq!(
        zones,
        vec![
            DropZone { rect: Rect::new(0, 0, 100, 60), index: 0 },
            DropZone { rect: Rect::new(194, 0, 206, 60), index: 1 },
            DropZone { rect: Rect::new(288, 0, 300, 60), index: 3 },
        ]
    );
}

#[test]
fn vertical_zones_are_strips_across() {
    let mut rects = Rects::new();
    rects.insert(TileId(0), Rect::new(0, 0, 80, 100));
    rects.insert(TileId(1), Rect::new(0, 110, 80, 210));
    let zones = drop_zones(10, &ids(&[0, 1]), None, LinearDir::Vertical, &rects);
    assert_eq!(
        zones,
        vec![
            DropZone { rect: Rect::new(0, 0, 80, 10), index: 0 },
            DropZone { rect: Rect::new(0, 100, 80, 110), index: 1 },
            DropZone { rect: Rect::new(0, 200, 80, 210), index: 3 },
        ]
    );
}

#[test]
fn no_children_no_zones() {
    let rects = Rects::new();
    assert_eq!(drop_zones(12, &[], None, LinearDir::Horizontal, &rects), vec![]);
    assert_eq!(linear_drop_zones(&rects, &[], LinearDir::Vertical, Some(TileId(3))), vec![]);
}

#[test]
fn the_nearest_suggestion_wins_and_the_first_of_equals() {
    let mut context = DropContext::new(Some(TileId(7)), Some(Pos { x: 50, y: 50 }));
    let far = InsertionPoint::new(TileId(1), ContainerInsertion::Tabs(0));
    let near = InsertionPoint::new(TileId(2), ContainerInsertion::Horizontal(1));
    let as_near = InsertionPoint::new(TileId(3), ContainerInsertion::Vertical(2));
    context.suggest_rect(far, Rect::new(200, 200, 300, 300));
    assert_eq!(context.best_insertion, Some(far));
    assert_eq!(context.best_dist_sq, Some(2 * 200 * 200));
    context.suggest_rect(near, Rect::new(50, 50, 70, 70));
    assert_eq!(context.best_insertion, Some(near));
    assert_eq!(context.best_dist_sq, Some(200));
    context.suggest_rect(as_near, Rect::new(30, 30, 50, 50));
    assert_eq!(context.best_insertion, Some(near));
    assert_eq!(context.preview_rect, Some(Rect::new(50, 50, 70, 70)));
    context.suggest_rect(far, Rect::new(0, 0, 2, 2));
    assert_eq!(context.best_insertion, Some(near));
}

#[test]
fn suggestions_do_not_count_without_a_pointer_or_inside_the_dragged_tile() {
    let point = InsertionPoint::new(TileId(1), ContainerInsertion::Tabs(0));
    let mut context = DropContext::new(Some(TileId(7)), None);
    context.suggest_rect(point, Rect::new(0, 0, 10, 10));
    assert_eq!(context.best_insertion, None);

    let mut context = DropContext::new(Some(TileId(7)), Some(Pos { x: 0, y: 0 }));
    let outer = context.enter_tile(TileId(7));
    assert!(outer);
    assert!(!context.enabled);
    let inner = context.enter_tile(TileId(8));
    assert!(!inner);
    context.suggest_rect(point, Rect::new(0, 0, 10, 10));
    assert_eq!(context.best_insertion, None);
    context.leave_tile(inner);
    assert!(!context.enabled);
    context.leave_tile(outer);
    assert!(context.enabled);
    context.suggest_rect(point, Rect::new(0, 0, 10, 10));
    assert_eq!(context.best_insertion, Some(point));
}

fn two_containers() -> (Tree<&'static str>, TileId, TileId, Vec<TileId>) {
    let mut tiles = Tiles::new();
    let first = tiles.insert_pane("first");
    let second = tiles.insert_pane("second");
    let third = tiles.insert_pane("third");
    let row = tiles.insert_horizontal_tile(vec![first, second]);
    let tabs = tiles.insert_tab_tile(vec![third]);
    let root = tiles.insert_vertical_tile(vec![row, tabs]);
    (Tree::new(root, tiles), row, tabs, vec![first, second, third])
}

#[test]
fn dropping_behind_the_last_child_moves_the_tile_to_the_end() {
    let (mut tree, row, tabs, panes) = two_containers();
    tree.layout(Rect::new(0, 0, 200, 200), 0);
    assert_eq!(tree.tiles.rect(panes[0]), Rect::new(0, 0, 100, 100));
    assert_eq!(tree.tiles.rect(panes[1]), Rect::new(100, 0, 200, 100));
    assert_eq!(tree.tiles.rect(panes[2]), Rect::new(0, 100, 200, 200));

    let mut context = DropContext::new(Some(panes[2]), Some(Pos { x: 198, y: 50 }));
    let children = children_of(&tree, row);
    context.suggest_linear(row, tree.tiles.rect_table(), &children, LinearDir::Horizontal);
    assert_eq!(
        context.best_insertion,
        Some(InsertionPoint::new(row, ContainerInsertion::Horizontal(3)))
    );
    assert_eq!(context.preview_rect, Some(Rect::new(188, 0, 200, 100)));

    assert!(!tree.finish_drag(&context, false));
    assert_eq!(children_of(&tree, row), vec![panes[0], panes[1]]);
    assert!(tree.finish_drag(&context, true));
    assert_eq!(children_of(&tree, row), vec![panes[0], panes[1], panes[2]]);
    assert_eq!(children_of(&tree, tabs), vec![]);
    assert_eq!(tree.tiles.parent_of(panes[2]), Some(row));
    assert!(tree.tiles.contains(panes[2]));
}

#[test]
fn a_moved_tile_has_one_parent() {
    let (mut tree, row, tabs, panes) = two_containers();
    tree.move_tile(panes[0], InsertionPoint::new(tabs, ContainerInsertion::Tabs(0)));
    assert_eq!(children_of(&tree, row), vec![panes[1]]);
    assert_eq!(children_of(&tree, tabs), vec![panes[0], panes[2]]);
    let parents: Vec<TileId> = tree
        .tiles
        .tile_ids()
        .into_iter()
        .filter(|id| match tree.tiles.get(*id) {
            Some(Tile::Container(c)) => c.children().contains(&panes[0]),
            _ => false,
        })
        .collect();
    assert_eq!(parents, vec![tabs]);
    match tree.tiles.get(tabs) {
        Some(Tile::Container(Container::Tabs(t))) => assert_eq!(t.active, Some(panes[0])),
        _ => panic!("no tabs"),
    }
}

#[test]
fn moving_within_a_container_does_not_count_the_tile_twice() {
    let (mut tree, row, _, panes) = two_containers();
    tree.move_tile(panes[0], InsertionPoint::new(row, ContainerInsertion::Horizontal(1)));
    assert_eq!(children_of(&tree, row), vec![panes[1], panes[0]]);
    tree.move_tile(panes[0], InsertionPoint::new(row, ContainerInsertion::Horizontal(0)));
    assert_eq!(children_of(&tree, row), vec![panes[0], panes[1]]);
}

#[test]
fn dropping_onto_a_tile_of_another_kind_wraps_it() {
    let (mut tree, row, _, panes) = two_containers();
    tree.move_tile(panes[2], InsertionPoint::new(panes[0], ContainerInsertion::Vertical(0)));
    let wrapper = children_of(&tree, panes[0]);
    assert_eq!(wrapper, vec![panes[2], TileId(6)]);
    assert!(matches!(tree.tiles.get(TileId(6)), Some(Tile::Pane("first"))));
    match tree.tiles.get(panes[0]) {
        Some(Tile::Container(c)) => assert_eq!(c.kind(), ContainerKind::Vertical),
        _ => panic!("no container"),
    }
    assert_eq!(children_of(&tree, row), vec![panes[0], panes[1]]);
}

#[test]
fn moving_to_a_parent_that_is_not_there_only_detaches() {
    let (mut tree, row, _, panes) = two_containers();
    tree.move_tile(panes[1], InsertionPoint::new(TileId(99), ContainerInsertion::Grid(0)));
    assert_eq!(children_of(&tree, row), vec![panes[0]]);
    assert_eq!(tree.tiles.parent_of(panes[1]), None);
    assert!(tree.tiles.contains(panes[1]));
}

fn active_of<Pane>(tree: &Tree<Pane>, id: TileId) -> Option<TileId> {
    match tree.tiles.get(id) {
        Some(Tile::Container(Container::Tabs(tabs))) => tabs.active,
        _ => panic!("no tabs"),
    }
}

#[test]
fn detaching_a_tile_that_has_no_parent_changes_nothing() {
    let (mut tree, row, tabs, panes) = two_containers();
    // a tab container that was made empty and then given a tab has no active tab
    let mut late = Container::new_tabs(vec![]);
    late.add_child(panes[0]);
    let late = tree.tiles.insert_container(late);
    assert_eq!(active_of(&tree, late), None);
    tree.remove_tile_id_from_parent(TileId(55));
    tree.remove_tile_id_from_parent(tree.root().unwrap());
    assert_eq!(children_of(&tree, row), vec![panes[0], panes[1]]);
    assert_eq!(children_of(&tree, tabs), vec![panes[2]]);
    assert_eq!(children_of(&tree, late), vec![panes[0]]);
    assert_eq!(active_of(&tree, late), None);
    assert_eq!(active_of(&tree, tabs), Some(panes[2]));
    tree.remove_tile_id_from_parent(panes[2]);
    assert_eq!(children_of(&tree, tabs), vec![]);
    assert_eq!(active_of(&tree, tabs), Some(panes[2]));
    assert_eq!(active_of(&tree, late), None);
    tree.remove_tile_id_from_parent(panes[2]);
    assert_eq!(children_of(&tree, tabs), vec![]);
    assert_eq!(active_of(&tree, tabs), Some(panes[2]));
    assert_eq!(children_of(&tree, row), vec![panes[0], panes[1]]);
    assert!(tree.tiles.contains(panes[2]));
}

#[test]
fn the_root_is_not_dragged_and_escape_ends_a_drag() {
    let (tree, row, _, _) = two_containers();
    let root = tree.root().unwrap();
    assert!(tree.is_root(root));
    assert!(!tree.is_root(row));
    assert_eq!(tree.dragged_id(true, &|id| id == row, false), Some(row));
    assert_eq!(tree.dragged_id(true, &|id| id == row, true), None);
    assert_eq!(tree.dragged_id(false, &|id| id == row, false), None);
    assert_eq!(tree.dragged_id(true, &|id| id == root, false), None);
    assert_eq!(tree.dragged_id(true, &|id| id == TileId(99), false), None);
    assert_eq!(tree.dragged_id(true, &|_| false, false), None);
}
