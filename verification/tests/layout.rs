use egui_tiles::container::shares::ONE_SHARE;
use egui_tiles::{Container, Linear, LinearDir, Rect, Shares, Tile, TileId, Tiles, Tree};

fn ids(ns: &[u64]) -> Vec<TileId> {
    ns.iter().map(|n| TileId(*n)).collect()
}

#[test]
fn three_equal_panes_share_three_hundred_points() {
    let mut tree = Tree::new_horizontal(vec!["a", "b", "c"]);
    tree.layout(Rect::new(0, 0, 300, 50), 0);
    assert_eq!(tree.tiles.rect(TileId(0)), Rect::new(0, 0, 100, 50));
    assert_eq!(tree.tiles.rect(TileId(1)), Rect::new(100, 0, 200, 50));
    assert_eq!(tree.tiles.rect(TileId(2)), Rect::new(200, 0, 300, 50));
    assert_eq!(tree.tiles.rect(TileId(3)), Rect::new(0, 0, 300, 50));
}

#[test]
fn weights_two_and_one_give_two_hundred_and_one_hundred() {
    let mut shares = Shares::new();
    shares.set(TileId(0), 2 * ONE_SHARE);
    shares.set(TileId(1), ONE_SHARE);
    assert_eq!(shares.split(&ids(&[0, 1]), 300), vec![200, 100]);

    let mut tiles = Tiles::new();
    let a = tiles.insert_pane("a");
    let b = tiles.insert_pane("b");
    let mut linear = Linear::new(LinearDir::Horizontal, vec![a, b]);
    linear.shares.set(a, 2 * ONE_SHARE);
    linear.shares.set(b, ONE_SHARE);
    let root = tiles.insert_container(Container::Linear(linear));
    let mut tree = Tree::new(root, tiles);
    tree.layout(Rect::new(0, 0, 300, 10), 0);
    assert_eq!(tree.tiles.rect(a), Rect::new(0, 0, 200, 10));
    assert_eq!(tree.tiles.rect(b), Rect::new(200, 0, 300, 10));
}

#[test]
fn split_is_scale_invariant() {
    let children = ids(&[0, 1, 2]);
    let mut small = Shares::new();
    small.set(TileId(0), 1);
    small.set(TileId(1), 2);
    small.set(TileId(2), 4);
    let mut large = Shares::new();
    large.set(TileId(0), 1000);
    large.set(TileId(1), 2000);
    large.set(TileId(2), 4000);
    assert_eq!(small.split(&children, 701), large.split(&children, 701));
    assert_eq!(small.split(&children, 701), vec![100, 200, 401]);
}

#[test]
fn split_leaves_nothing_over() {
    let children = ids(&[0, 1, 2]);
    let shares = Shares::new();
    let widths = shares.split(&children, 100);
    assert_eq!(widths, vec![33, 33, 34]);
    assert_eq!(widths.iter().sum::<u32>(), 100);
    let mut uneven = Shares::new();
    uneven.set(TileId(0), 3);
    uneven.set(TileId(1), 7);
    uneven.set(TileId(2), 11);
    for available in [0u32, 1, 2, 20, 21, 1000, u32::MAX] {
        let widths = uneven.split(&children, available);
        assert_eq!(widths.iter().map(|w| *w as u64).sum::<u64>(), available as u64);
        for (width, weight) in widths.iter().zip([3u64, 7, 11]) {
            let exact = available as u64 * weight;
            assert!(*width as u64 * 21 < exact + 21 && exact < *width as u64 * 21 + 21);
        }
    }
    assert_eq!(uneven.split(&children, 20), vec![2, 7, 11]);
}

#[test]
fn the_children_of_a_linear_container_fill_it() {
    for dir in [LinearDir::Horizontal, LinearDir::Vertical] {
        let mut linear = Linear::new(dir, ids(&[0, 1, 2]));
        let rects = linear.layout(Rect::new(0, 0, 100, 100), 0);
        let extents: Vec<u32> = rects
            .iter()
            .map(|r| if dir == LinearDir::Horizontal { r.width() } else { r.height() })
            .collect();
        assert_eq!(extents, vec![33, 33, 34]);
        let mut linear = Linear::new(dir, ids(&[0, 1, 2, 3]));
        linear.shares.set(TileId(2), 12345);
        let rects = linear.layout(Rect::new(-7, -7, 94, 94), 3);
        let sum: u32 = rects
            .iter()
            .map(|r| if dir == LinearDir::Horizontal { r.width() } else { r.height() })
            .sum();
        assert_eq!(sum + 3 * 3, 101);
        for r in &rects {
            if dir == LinearDir::Horizontal {
                assert_eq!((r.min.y, r.max.y), (-7, 94));
            } else {
                assert_eq!((r.min.x, r.max.x), (-7, 94));
            }
        }
        if dir == LinearDir::Horizontal {
            assert_eq!(rects[3].max.x, 94);
        } else {
            assert_eq!(rects[3].max.y, 94);
        }
    }
}

#[test]
fn weights_of_zero_split_evenly() {
    let children = ids(&[0, 1]);
    let mut shares = Shares::new();
    shares.set(TileId(0), 0);
    shares.set(TileId(1), 0);
    assert_eq!(shares.split(&children, 300), vec![150, 150]);
    assert_eq!(shares.split(&children, 301), vec![150, 151]);
    assert_eq!(shares.split(&[], 300), Vec::<u32>::new());
}

#[test]
fn gaps_are_taken_off_before_the_split() {
    let mut tree = Tree::new_vertical(vec![1u8, 2, 3]);
    tree.layout(Rect::new(10, 20, 110, 340), 10);
    assert_eq!(tree.tiles.rect(TileId(0)), Rect::new(10, 20, 110, 120));
    assert_eq!(tree.tiles.rect(TileId(1)), Rect::new(10, 130, 110, 230));
    assert_eq!(tree.tiles.rect(TileId(2)), Rect::new(10, 240, 110, 340));
}

#[test]
fn a_container_narrower_than_its_gaps_gives_its_children_nothing() {
    let mut linear = Linear::new(LinearDir::Horizontal, ids(&[0, 1, 2]));
    let rects = linear.layout(Rect::new(0, 0, 5, 9), 10);
    assert_eq!(rects, vec![Rect::new(0, 0, 0, 9), Rect::new(10, 0, 10, 9), Rect::new(20, 0, 20, 9)]);
}

#[test]
fn layout_drops_stale_shares() {
    let mut linear = Linear::new(LinearDir::Horizontal, ids(&[1, 2]));
    linear.shares.set(TileId(1), 3 * ONE_SHARE);
    linear.shares.set(TileId(9), 5 * ONE_SHARE);
    assert!(linear.shares.contains(TileId(9)));
    linear.layout(Rect::new(0, 0, 400, 10), 0);
    assert!(!linear.shares.contains(TileId(9)));
    assert_eq!(linear.shares.get(TileId(1)), 3 * ONE_SHARE);
    assert_eq!(linear.shares.get(TileId(9)), ONE_SHARE);
}

#[test]
fn tabs_give_the_whole_rectangle_to_the_active_tab_only() {
    let mut tree = Tree::new_tabs(vec!["a", "b"]);
    tree.layout(Rect::new(0, 0, 300, 200), 4);
    assert_eq!(tree.tiles.try_rect(TileId(0)), Some(Rect::new(0, 0, 300, 200)));
    assert_eq!(tree.tiles.try_rect(TileId(1)), None);
    assert_eq!(tree.tiles.try_rect(TileId(2)), Some(Rect::new(0, 0, 300, 200)));
}

#[test]
fn a_grid_of_four_is_two_by_two() {
    let mut tree = Tree::new_grid(vec![0u8, 1, 2, 3]);
    tree.layout(Rect::new(0, 0, 210, 110), 10);
    assert_eq!(tree.tiles.rect(TileId(0)), Rect::new(0, 0, 100, 50));
    assert_eq!(tree.tiles.rect(TileId(1)), Rect::new(110, 0, 210, 50));
    assert_eq!(tree.tiles.rect(TileId(2)), Rect::new(0, 60, 100, 110));
    assert_eq!(tree.tiles.rect(TileId(3)), Rect::new(110, 60, 210, 110));
}

#[test]
fn an_empty_container_places_nothing() {
    let mut tree: Tree<u8> = Tree::new_horizontal(vec![]);
    tree.layout(Rect::new(0, 0, 300, 200), 4);
    assert_eq!(tree.tiles.try_rect(TileId(0)), Some(Rect::new(0, 0, 300, 200)));
    assert_eq!(tree.tiles.len(), 1);
}

#[test]
fn a_missing_child_is_passed_over() {
    let mut tiles = Tiles::new();
    let a = tiles.insert_pane("a");
    let root = tiles.insert_horizontal_tile(vec![a, TileId(77)]);
    let mut tree = Tree::new(root, tiles);
    tree.layout(Rect::new(0, 0, 200, 10), 0);
    assert_eq!(tree.tiles.try_rect(a), Some(Rect::new(0, 0, 100, 10)));
    assert_eq!(tree.tiles.try_rect(TileId(77)), None);
    assert!(matches!(tree.tiles.get(root), Some(Tile::Container(_))));
}

#[test]
fn new_binary_gives_the_first_child_its_fraction() {
    let mut linear = Linear::new_binary(LinearDir::Horizontal, [TileId(0), TileId(1)], ONE_SHARE / 4);
    assert_eq!(linear.shares.get(TileId(0)), ONE_SHARE / 2);
    assert_eq!(linear.shares.get(TileId(1)), ONE_SHARE + ONE_SHARE / 2);
    let rects = linear.layout(Rect::new(0, 0, 400, 10), 0);
    assert_eq!(rects, vec![Rect::new(0, 0, 100, 10), Rect::new(100, 0, 400, 10)]);
}

#[test]
fn the_cells_of_a_grid_lie_inside_it_and_apart() {
    let mut grid = egui_tiles::Grid::new(ids(&[0, 1, 2, 3, 4, 5, 6]));
    let outer = Rect::new(-50, 10, 257, 301);
    let rects = grid.layout(outer, 7);
    assert_eq!(rects.len(), 7);
    assert_eq!(rects[0], Rect::new(-50, 10, 47, 102));
    assert_eq!(rects[6], Rect::new(-50, 208, 47, 300));
    for (i, a) in rects.iter().enumerate() {
        assert!(outer.min.x <= a.min.x && a.max.x <= outer.max.x);
        assert!(outer.min.y <= a.min.y && a.max.y <= outer.max.y);
        for b in &rects[i + 1..] {
            assert!(
                a.max.x <= b.min.x || b.max.x <= a.min.x || a.max.y <= b.min.y || b.max.y <= a.min.y
            );
        }
    }
    grid.add_child(TileId(7));
    assert_eq!(grid.layout(outer, 7).len(), 8);
}

#[test]
fn a_grid_without_room_for_its_gaps_leaves_them_out() {
    let grid = egui_tiles::Grid::new(ids(&[0, 1, 2, 3]));
    let outer = Rect::new(0, 0, 5, 100);
    let rects = grid.layout(outer, 10);
    assert_eq!(
        rects,
        vec![
            Rect::new(0, 0, 2, 45),
            Rect::new(2, 0, 4, 45),
            Rect::new(0, 55, 2, 100),
            Rect::new(2, 55, 4, 100),
        ]
    );
    let alone = egui_tiles::Grid::new(ids(&[0]));
    assert_eq!(alone.layout(outer, 10), vec![outer]);
}

#[test]
fn coordinates_stop_at_the_edge_of_their_range() {
    let mut linear = Linear::new(LinearDir::Horizontal, ids(&[0, 1, 2]));
    let rects = linear.layout(Rect::new(i32::MAX - 10, 0, i32::MAX - 10, 5), 100);
    assert_eq!(rects[0], Rect::new(i32::MAX - 10, 0, i32::MAX - 10, 5));
    assert_eq!(rects[1], Rect::new(i32::MAX, 0, i32::MAX, 5));
    assert_eq!(rects[2], Rect::new(i32::MAX, 0, i32::MAX, 5));
    assert_eq!(Rect::from_wide(i64::MIN, -5, i64::MAX, 5), Rect::new(i32::MIN, -5, i32::MAX, 5));
    let wide = Rect::new(i32::MIN, i32::MIN, i32::MAX, i32::MAX);
    assert_eq!(wide.width(), u32::MAX);
    assert_eq!(wide.height(), u32::MAX);
    assert_eq!(wide.center(), egui_tiles::Pos { x: -1, y: -1 });
    assert_eq!(Rect::new(5, 5, 1, 1).width(), 0);
    assert_eq!(Rect::new(-3, 0, 0, 7).center(), egui_tiles::Pos { x: -2, y: 3 });
}
