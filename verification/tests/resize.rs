use egui_tiles::container::resize::{
    resize_handle, resize_interaction, shrink_shares, ResizeState, SplitterResponse,
};
use egui_tiles::container::shares::ONE_SHARE;
use egui_tiles::{Linear, LinearDir, Rect, Rects, Shares, TileId};

const IDLE: SplitterResponse =
    SplitterResponse { double_clicked: false, dragged: false, hovered: false };
const DRAGGED: SplitterResponse =
    SplitterResponse { double_clicked: false, dragged: true, hovered: true };

fn two_halves() -> (Linear, Rects) {
    let mut linear = Linear::new(LinearDir::Horizontal, vec![TileId(0), TileId(1)]);
    let placed = linear.layout(Rect::new(0, 0, 300, 100), 0);
    assert_eq!(placed, vec![Rect::new(0, 0, 150, 100), Rect::new(150, 0, 300, 100)]);
    let mut rects = Rects::new();
    rects.insert(TileId(0), placed[0]);
    rects.insert(TileId(1), placed[1]);
    (linear, rects)
}

#[test]
fn dragging_left_moves_weight_to_the_right_child() {
    let (mut linear, rects) = two_halves();
    let state = linear.resize(&rects, 0, DRAGGED, 120, 50);
    assert_eq!(state, ResizeState::Dragging);
    assert_eq!(linear.shares.get(TileId(0)), 52429);
    assert_eq!(linear.shares.get(TileId(1)), 78643);
    let placed = linear.layout(Rect::new(0, 0, 300, 100), 0);
    assert_eq!(placed, vec![Rect::new(0, 0, 120, 100), Rect::new(120, 0, 300, 100)]);
}

#[test]
fn dragging_too_far_stops_at_the_minimum_size() {
    let (mut linear, rects) = two_halves();
    linear.resize(&rects, 0, DRAGGED, -50, 50);
    assert_eq!(linear.shares.get(TileId(0)), 21846);
    assert_eq!(linear.shares.get(TileId(1)), 109226);
    let placed = linear.layout(Rect::new(0, 0, 300, 100), 0);
    assert_eq!(placed, vec![Rect::new(0, 0, 50, 100), Rect::new(50, 0, 300, 100)]);

    let (mut linear, rects) = two_halves();
    linear.resize(&rects, 0, DRAGGED, 1000, 50);
    assert_eq!(linear.shares.get(TileId(1)), 21846);
    assert_eq!(linear.shares.get(TileId(0)), 109226);
    let placed = linear.layout(Rect::new(0, 0, 300, 100), 0);
    assert_eq!(placed, vec![Rect::new(0, 0, 249, 100), Rect::new(249, 0, 300, 100)]);
}

#[test]
fn dragging_right_shrinks_the_chain_behind_the_handle_nearest_first() {
    let children = vec![TileId(0), TileId(1), TileId(2), TileId(3)];
    let mut rects = Rects::new();
    for i in 0..4 {
        rects.insert(TileId(i), Rect::new(100 * i as i32, 0, 100 * (i as i32 + 1), 10));
    }
    let mut shares = Shares::new();
    let state = resize_interaction(
        &mut shares,
        &children,
        DRAGGED,
        [TileId(0), TileId(1)],
        90,
        0,
        40,
        &rects,
        LinearDir::Horizontal,
    );
    assert_eq!(state, ResizeState::Dragging);
    // three tiles of one share and a hundred points each: 40 points are 26215 of
    // a share, rounded up, and 90 points are 58982, rounded down
    assert_eq!(shares.get(TileId(1)), 26215);
    assert_eq!(shares.get(TileId(2)), ONE_SHARE - (58982 - (ONE_SHARE - 26215)));
    assert_eq!(shares.get(TileId(3)), ONE_SHARE);
    assert_eq!(shares.get(TileId(0)), ONE_SHARE + 58982);
}

#[test]
fn double_click_centers_the_split() {
    let (mut linear, rects) = two_halves();
    linear.shares.set(TileId(0), 3 * ONE_SHARE);
    linear.shares.set(TileId(1), ONE_SHARE);
    let response = SplitterResponse { double_clicked: true, dragged: true, hovered: true };
    let state = linear.resize(&rects, 0, response, 0, 50);
    assert_eq!(state, ResizeState::Hovering);
    assert_eq!(linear.shares.get(TileId(0)), 2 * ONE_SHARE);
    assert_eq!(linear.shares.get(TileId(1)), 2 * ONE_SHARE);
}

#[test]
fn hovering_and_idle_change_nothing() {
    let (mut linear, rects) = two_halves();
    let hovered = SplitterResponse { double_clicked: false, dragged: false, hovered: true };
    assert_eq!(linear.resize(&rects, 0, hovered, 10, 50), ResizeState::Hovering);
    assert_eq!(linear.resize(&rects, 0, IDLE, 10, 50), ResizeState::Idle);
    assert!(!linear.shares.contains(TileId(0)));
    assert!(!linear.shares.contains(TileId(1)));
}

#[test]
fn a_chain_that_cannot_supply_the_request_gives_all_its_slack() {
    let chain = vec![TileId(0), TileId(1)];
    let mut rects = Rects::new();
    rects.insert(TileId(0), Rect::new(0, 0, 100, 10));
    rects.insert(TileId(1), Rect::new(100, 0, 200, 10));
    let mut shares = Shares::new();
    // 60 points are 39322 of a share, rounded up: each tile can spare 26214
    let lost =
        shrink_shares(&mut shares, &chain, 150, 60, u32::MAX, &rects, LinearDir::Horizontal);
    assert_eq!(lost, 2 * 26214);
    assert!(lost < 2 * ONE_SHARE * 150 / 200);
    assert_eq!(shares.get(TileId(0)), 39322);
    assert_eq!(shares.get(TileId(1)), 39322);
}

#[test]
fn a_chain_with_slack_to_spare_gives_what_is_asked() {
    let chain = vec![TileId(0), TileId(1)];
    let mut rects = Rects::new();
    rects.insert(TileId(0), Rect::new(0, 0, 100, 10));
    rects.insert(TileId(1), Rect::new(100, 0, 200, 10));
    let mut shares = Shares::new();
    let lost =
        shrink_shares(&mut shares, &chain, 50, 60, u32::MAX, &rects, LinearDir::Horizontal);
    assert_eq!(lost, 32768);
    assert_eq!(shares.get(TileId(0)), 39322);
    assert_eq!(shares.get(TileId(1)), ONE_SHARE - (32768 - 26214));
}

#[test]
fn a_tile_below_the_floor_is_left_alone() {
    let chain = vec![TileId(0), TileId(1)];
    let mut rects = Rects::new();
    rects.insert(TileId(0), Rect::new(0, 0, 100, 10));
    rects.insert(TileId(1), Rect::new(100, 0, 200, 10));
    let mut shares = Shares::new();
    shares.set(TileId(0), 10);
    shares.set(TileId(1), 90);
    // a hundred shares over two hundred points: the floor is 30
    let lost =
        shrink_shares(&mut shares, &chain, 200, 60, u32::MAX, &rects, LinearDir::Horizontal);
    assert_eq!(lost, 60);
    assert_eq!(shares.get(TileId(0)), 10);
    assert_eq!(shares.get(TileId(1)), 30);
}

#[test]
fn shrinking_nothing_or_tiles_without_extent_has_no_effect() {
    let mut shares = Shares::new();
    let rects = Rects::new();
    assert_eq!(shrink_shares(&mut shares, &[], 10, 5, 9, &rects, LinearDir::Vertical), 0);
    let chain = vec![TileId(0)];
    assert_eq!(shrink_shares(&mut shares, &chain, 10, 5, 9, &rects, LinearDir::Vertical), 0);
    assert!(!shares.contains(TileId(0)));
}

#[test]
fn a_chain_gives_up_no_more_than_its_neighbour_has_room_for() {
    let children = vec![TileId(0), TileId(1)];
    let mut rects = Rects::new();
    rects.insert(TileId(0), Rect::new(0, 0, 100, 10));
    rects.insert(TileId(1), Rect::new(100, 0, 200, 10));
    let mut shares = Shares::new();
    shares.set(TileId(0), u32::MAX - 5);
    shares.set(TileId(1), 1000);
    resize_interaction(
        &mut shares,
        &children,
        DRAGGED,
        [TileId(0), TileId(1)],
        100,
        0,
        0,
        &rects,
        LinearDir::Horizontal,
    );
    assert_eq!(shares.get(TileId(0)), u32::MAX);
    assert_eq!(shares.get(TileId(1)), 995);

    let chain = vec![TileId(1)];
    let mut shares = Shares::new();
    let lost = shrink_shares(&mut shares, &chain, 50, 0, 7, &rects, LinearDir::Horizontal);
    assert_eq!(lost, 7);
    assert_eq!(shares.get(TileId(1)), ONE_SHARE - 7);
}

#[test]
fn the_handle_lies_halfway_between_the_neighbours() {
    let mut rects = Rects::new();
    rects.insert(TileId(0), Rect::new(0, 0, 100, 50));
    rects.insert(TileId(1), Rect::new(110, 0, 210, 50));
    rects.insert(TileId(9), Rect::new(0, 0, 210, 50));
    let handle =
        resize_handle(&rects, TileId(9), LinearDir::Horizontal, TileId(0), TileId(1), 4);
    assert_eq!(handle.position, 105);
    assert_eq!(handle.rect, Rect::new(101, 0, 109, 50));
    let mut rects = Rects::new();
    rects.insert(TileId(0), Rect::new(0, 0, 50, 100));
    rects.insert(TileId(1), Rect::new(0, 100, 50, 200));
    rects.insert(TileId(9), Rect::new(0, 0, 50, 200));
    let handle = resize_handle(&rects, TileId(9), LinearDir::Vertical, TileId(0), TileId(1), 3);
    assert_eq!(handle.position, 100);
    assert_eq!(handle.rect, Rect::new(0, 97, 50, 103));
}

#[test]
fn there_is_a_handle_between_every_two_neighbours() {
    let mut linear = Linear::new(LinearDir::Horizontal, vec![TileId(0), TileId(1), TileId(2)]);
    let parent = Rect::new(0, 0, 320, 40);
    let placed = linear.layout(parent, 10);
    assert_eq!(
        placed,
        vec![Rect::new(0, 0, 100, 40), Rect::new(110, 0, 210, 40), Rect::new(220, 0, 320, 40)]
    );
    let mut rects = Rects::new();
    rects.insert(TileId(9), parent);
    for (i, rect) in placed.iter().enumerate() {
        rects.insert(TileId(i as u64), *rect);
    }
    let handles = linear.resize_handles(&rects, TileId(9), 2);
    assert_eq!(handles.len(), 2);
    assert_eq!(handles[0].position, 105);
    assert_eq!(handles[0].rect, Rect::new(103, 0, 107, 40));
    assert_eq!(handles[1].position, 215);
    assert_eq!(handles[1].rect, Rect::new(213, 0, 217, 40));

    let single = Linear::new(LinearDir::Vertical, vec![TileId(0)]);
    assert_eq!(single.resize_handles(&rects, TileId(9), 2), vec![]);
    let none = Linear::new(LinearDir::Vertical, vec![]);
    assert_eq!(none.resize_handles(&rects, TileId(9), 2), vec![]);
}
