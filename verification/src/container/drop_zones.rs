use vstd::prelude::*;

use crate::container::linear::LinearDir;
use crate::geometry::{midpoint, rect_of, Rect, Rects};
use crate::tile_id::TileId;

verus! {

/// How thick the strips are in which a linear container shows where a dragged
/// tile would go.
pub const PREVIEW_THICKNESS: u32 = 12;

/// A rectangle onto which a dragged tile can be dropped, and the place among
/// the children at which it then goes.
#[derive(Clone, Copy, Debug, PartialEq, Eq, Structural)]
pub struct DropZone {
    pub rect: Rect,
    pub index: usize,
}

/// The strip at the start of the first child.
pub open spec fn before_rect(rect: Rect, dir: LinearDir, thickness: nat) -> Rect {
    match dir {
        LinearDir::Horizontal => Rect::spec_from_wide(
            rect.min.x as int,
            rect.min.y as int,
            rect.min.x + thickness,
            rect.max.y as int,
        ),
        LinearDir::Vertical => Rect::spec_from_wide(
            rect.min.x as int,
            rect.min.y as int,
            rect.max.x as int,
            rect.min.y + thickness,
        ),
    }
}

/// The strip at the end of the last child.
pub open spec fn after_rect(rect: Rect, dir: LinearDir, thickness: nat) -> Rect {
    match dir {
        LinearDir::Horizontal => Rect::spec_from_wide(
            rect.max.x - thickness,
            rect.min.y as int,
            rect.max.x as int,
            rect.max.y as int,
        ),
        LinearDir::Vertical => Rect::spec_from_wide(
            rect.min.x as int,
            rect.max.y - thickness,
            rect.max.x as int,
            rect.max.y as int,
        ),
    }
}

/// The strip halfway between two neighbours: as thick as asked for along the
/// direction, and as large as the first neighbour across it.
pub open spec fn between_rects(a: Rect, b: Rect, dir: LinearDir, thickness: nat) -> Rect {
    match dir {
        LinearDir::Horizontal => {
            let left = midpoint(a.max.x as int, b.min.x as int) - thickness / 2;
            let top = midpoint(a.spec_center().y as int, b.spec_center().y as int) - a.spec_height()
                / 2;
            Rect::spec_from_wide(left, top, left + thickness, top + a.spec_height())
        },
        LinearDir::Vertical => {
            let left = midpoint(a.spec_center().x as int, b.spec_center().x as int) - a.spec_width()
                / 2;
            let top = midpoint(a.max.y as int, b.min.y as int) - thickness / 2;
            Rect::spec_from_wide(left, top, left + a.spec_width(), top + thickness)
        },
    }
}

/// How many of the children before child `i` stay when the dragged child is
/// taken out: the index at which a tile dropped in front of child `i` goes.
pub open spec fn insertion_index(dragged_index: Option<usize>, i: int) -> int {
    match dragged_index {
        Some(d) => if d < i {
            i - 1
        } else {
            i
        },
        None => i,
    }
}

/// The index that follows `i`, as far as an index can go.
pub open spec fn index_after(i: int) -> int {
    if i < usize::MAX {
        i + 1
    } else {
        i
    }
}

/// The drop zone that child `i` adds, if any: the child's own rectangle where
/// it is the one dragged; else the strip before it where it is the first
/// child, or the strip between it and the child before, unless that one is
/// the one dragged.
pub open spec fn zones_of_child(
    rects: Seq<Rect>,
    dragged_index: Option<usize>,
    dir: LinearDir,
    thickness: nat,
    i: int,
) -> Seq<DropZone> {
    if dragged_index == Some(i as usize) {
        seq![DropZone { rect: rects[i], index: i as usize }]
    } else if i == 0 {
        seq![DropZone { rect: before_rect(rects[i], dir, thickness), index: 0 }]
    } else if dragged_index != Some((i - 1) as usize) {
        seq![
            DropZone {
                rect: between_rects(rects[i - 1], rects[i], dir, thickness),
                index: insertion_index(dragged_index, i) as usize,
            },
        ]
    } else {
        Seq::empty()
    }
}

/// The drop zones of the first `k` children, in order.
pub open spec fn zones_before(
    rects: Seq<Rect>,
    dragged_index: Option<usize>,
    dir: LinearDir,
    thickness: nat,
    k: int,
) -> Seq<DropZone>
    decreases k,
{
    if k <= 0 {
        Seq::empty()
    } else {
        zones_before(rects, dragged_index, dir, thickness, k - 1) + zones_of_child(
            rects,
            dragged_index,
            dir,
            thickness,
            k - 1,
        )
    }
}

/// The drop zone behind the last child, unless that child is the one dragged.
pub open spec fn zone_at_end(
    rects: Seq<Rect>,
    dragged_index: Option<usize>,
    dir: LinearDir,
    thickness: nat,
) -> Seq<DropZone> {
    if rects.len() > 0 && dragged_index != Some((rects.len() - 1) as usize) {
        seq![
            DropZone {
                rect: after_rect(rects.last(), dir, thickness),
                index: index_after(insertion_index(dragged_index, rects.len() as int)) as usize,
            },
        ]
    } else {
        Seq::empty()
    }
}

/// A tile that is dropped onto the zone behind the last child goes behind
/// all children: that zone is the last one proposed, and its index is no
/// less than the number of children.
pub proof fn lemma_zone_at_end_is_behind(
    rects: Seq<Rect>,
    dragged_index: Option<usize>,
    dir: LinearDir,
    thickness: nat,
)
    requires
        rects.len() <= usize::MAX,
        zone_at_end(rects, dragged_index, dir, thickness).len() > 0,
    ensures
        zones(rects, dragged_index, dir, thickness).len() > 0,
        zones(rects, dragged_index, dir, thickness).last().rect == after_rect(
            rects.last(),
            dir,
            thickness,
        ),
        zones(rects, dragged_index, dir, thickness).last().index >= rects.len(),
{
}

/// All drop zones of a linear container whose children have the rectangles
/// `rects`, in the order in which they are proposed.
pub open spec fn zones(
    rects: Seq<Rect>,
    dragged_index: Option<usize>,
    dir: LinearDir,
    thickness: nat,
) -> Seq<DropZone> {
    zones_before(rects, dragged_index, dir, thickness, rects.len() as int) + zone_at_end(
        rects,
        dragged_index,
        dir,
        thickness,
    )
}

/// The rectangles that a table holds for the given tiles, in order.
pub open spec fn rects_of(rects: Map<u64, Rect>, children: Seq<TileId>) -> Seq<Rect> {
    Seq::new(children.len(), |i: int| rect_of(rects, children[i]))
}

/// Where `id` first occurs among `children`, if it does.
pub open spec fn first_index_of(children: Seq<TileId>, id: Option<TileId>) -> Option<usize> {
    match id {
        Some(id) => match children.index_of_first(id) {
            Some(i) => Some(i as usize),
            None => None,
        },
        None => None,
    }
}

fn before_rect_of(rect: Rect, dir: LinearDir, thickness: u32) -> (r: Rect)
    ensures
        r == before_rect(rect, dir, thickness as nat),
{
    match dir {
        LinearDir::Horizontal => Rect::from_wide(
            rect.min.x as i64,
            rect.min.y as i64,
            rect.min.x as i64 + thickness as i64,
            rect.max.y as i64,
        ),
        LinearDir::Vertical => Rect::from_wide(
            rect.min.x as i64,
            rect.min.y as i64,
            rect.max.x as i64,
            rect.min.y as i64 + thickness as i64,
        ),
    }
}

fn after_rect_of(rect: Rect, dir: LinearDir, thickness: u32) -> (r: Rect)
    ensures
        r == after_rect(rect, dir, thickness as nat),
{
    match dir {
        LinearDir::Horizontal => Rect::from_wide(
            rect.max.x as i64 - thickness as i64,
            rect.min.y as i64,
            rect.max.x as i64,
            rect.max.y as i64,
        ),
        LinearDir::Vertical => Rect::from_wide(
            rect.min.x as i64,
            rect.max.y as i64 - thickness as i64,
            rect.max.x as i64,
            rect.max.y as i64,
        ),
    }
}

fn between_rects_of(a: Rect, b: Rect, dir: LinearDir, thickness: u32) -> (r: Rect)
    ensures
        r == between_rects(a, b, dir, thickness as nat),
{
    match dir {
        LinearDir::Horizontal => {
            let left: i64 = crate::geometry::midpoint_of(a.max.x, b.min.x) as i64 - (thickness
                / 2) as i64;
            let height = a.height();
            let top: i64 = crate::geometry::midpoint_of(a.center().y, b.center().y) as i64 - (height
                / 2) as i64;
            Rect::from_wide(left, top, left + thickness as i64, top + height as i64)
        },
        LinearDir::Vertical => {
            let width = a.width();
            let left: i64 = crate::geometry::midpoint_of(a.center().x, b.center().x) as i64 - (width
                / 2) as i64;
            let top: i64 = crate::geometry::midpoint_of(a.max.y, b.min.y) as i64 - (thickness
                / 2) as i64;
            Rect::from_wide(left, top, left + width as i64, top + thickness as i64)
        },
    }
}

/// The drop zones of a linear container, in the order in which they are
/// proposed: a strip before the first child, one between every two
/// neighbours, and one behind the last child. Where one of the children is
/// the one being dragged, its own rectangle is a drop zone, no strip touches
/// it, and the indices count the other children only.
pub fn drop_zones(
    preview_thickness: u32,
    children: &[TileId],
    dragged_index: Option<usize>,
    dir: LinearDir,
    rects: &Rects,
) -> (found: Vec<DropZone>)
    ensures
        found@ == zones(rects_of(rects@, children@), dragged_index, dir, preview_thickness as nat),
{
    let n = children.len();
    let ghost rs = rects_of(rects@, children@);
    let ghost t = preview_thickness as nat;
    let mut found: Vec<DropZone> = Vec::new();
    let mut prev_rect: Option<Rect> = None;
    let mut next_index: usize = 0;
    let mut i: usize = 0;
    while i < n
        invariant
            i <= n,
            n == children@.len(),
            rs == rects_of(rects@, children@),
            t == preview_thickness as nat,
            found@ == zones_before(rs, dragged_index, dir, t, i as int),
            next_index == insertion_index(dragged_index, i as int),
            prev_rect == (if i == 0 {
                None
            } else {
                Some(rs[i - 1])
            }),
        decreases n - i,
    {
        let rect = rects.rect(children[i]);
        assert(rect == rs[i as int]);
        let ghost before = found@;
        if dragged_index == Some(i) {
            found.push(DropZone { rect, index: i });
            assert(found@ =~= before + zones_of_child(rs, dragged_index, dir, t, i as int));
        } else {
            match prev_rect {
                Some(prev) => {
                    if dragged_index != Some(i - 1) {
                        found.push(
                            DropZone {
                                rect: between_rects_of(prev, rect, dir, preview_thickness),
                                index: next_index,
                            },
                        );
                    }
                },
                None => {
                    found.push(
                        DropZone { rect: before_rect_of(rect, dir, preview_thickness), index: 0 },
                    );
                },
            }
            assert(found@ =~= before + zones_of_child(rs, dragged_index, dir, t, i as int));
            next_index += 1;
        }
        prev_rect = Some(rect);
        i += 1;
    }
    let ghost before = found@;
    match prev_rect {
        Some(last_rect) => {
            if dragged_index != Some(n - 1) {
                let index: usize = if next_index < usize::MAX {
                    next_index + 1
                } else {
                    next_index
                };
                found.push(
                    DropZone { rect: after_rect_of(last_rect, dir, preview_thickness), index },
                );
            }
        },
        None => {},
    }
    assert(found@ =~= before + zone_at_end(rs, dragged_index, dir, t));
    found
}

/// The drop zones of a linear container while the tile `dragged` is being
/// dragged, from the rectangles that the last layout gave to its children.
pub fn linear_drop_zones(
    rects: &Rects,
    children: &[TileId],
    dir: LinearDir,
    dragged: Option<TileId>,
) -> (found: Vec<DropZone>)
    ensures
        found@ == zones(
            rects_of(rects@, children@),
            first_index_of(children@, dragged),
            dir,
            PREVIEW_THICKNESS as nat,
        ),
{
    let mut dragged_index: Option<usize> = None;
    if let Some(id) = dragged {
        let mut i: usize = 0;
        proof {
            children@.index_of_first_ensures(id);
        }
        while i < children.len()
            invariant_except_break
                dragged_index.is_none(),
            invariant
                i <= children@.len(),
                dragged == Some(id),
                forall|j: int| 0 <= j < i ==> children@[j] != id,
                match children@.index_of_first(id) {
                    Some(first) => 0 <= first < children@.len() && children@[first] == id
                        && forall|j: int| 0 <= j < first ==> children@[j] != id,
                    None => !children@.contains(id),
                },
            ensures
                dragged_index == first_index_of(children@, dragged),
            decreases children@.len() - i,
        {
            if children[i] == id {
                dragged_index = Some(i);
                assert(children@.contains(children@[i as int]));
                break ;
            }
            i += 1;
        }
    }
    drop_zones(PREVIEW_THICKNESS, children, dragged_index, dir, rects)
}

} // verus!
