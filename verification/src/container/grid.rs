use vstd::arithmetic::div_mod::lemma_fundamental_div_mod;
use vstd::arithmetic::div_mod::lemma_mod_bound;
use vstd::prelude::*;

use crate::container::children::{
    computes, retain_ids, simplified_children, simplify_ids,
};
use crate::container::linear::{available_extent, total_gap};
use crate::geometry::{clamp_wide_to_coord, Pos, Rect};
use crate::simplification::SimplifyAction;
use crate::tile_id::TileId;

verus! {

/// Whether `columns` is the number of columns of a grid of `count` cells: the
/// least number whose square has room for all of them.
pub open spec fn is_grid_columns(count: nat, columns: nat) -> bool {
    &&& columns * columns >= count
    &&& columns > 0 ==> (columns - 1) * (columns - 1) < count
}

/// The number of columns of a grid of `count` cells.
pub open spec fn grid_columns(count: nat) -> nat {
    choose|columns: nat| is_grid_columns(count, columns)
}

/// The number of rows that `count` cells fill, `columns` to a row.
pub open spec fn grid_rows(count: nat, columns: nat) -> nat {
    if columns == 0 {
        0
    } else {
        (count + columns - 1) as nat / columns
    }
}

/// The extent of one of `count` equal cells that share `extent` with gaps between them.
pub open spec fn cell_extent(extent: nat, gap: nat, count: nat) -> nat {
    if count == 0 {
        0
    } else {
        available_extent(extent, gap, count) / count
    }
}

/// The gap that is left between `count` cells that share `extent`: the gap
/// asked for where all gaps together fit, else none.
pub open spec fn fitting_gap(extent: nat, gap: nat, count: nat) -> nat {
    if extent >= total_gap(gap, count) {
        gap
    } else {
        0
    }
}

/// The rectangle of cell `i` of a grid of `count` cells: the cells are laid
/// out row by row, from left to right and from top to bottom, all of one
/// size, with gaps between them where the grid has room for gaps.
pub open spec fn grid_child_rect(rect: Rect, gap: nat, count: nat, i: int) -> Rect {
    let columns = grid_columns(count);
    let rows = grid_rows(count, columns);
    let gap_x = fitting_gap(rect.spec_width(), gap, columns);
    let gap_y = fitting_gap(rect.spec_height(), gap, rows);
    let width = cell_extent(rect.spec_width(), gap_x, columns);
    let height = cell_extent(rect.spec_height(), gap_y, rows);
    let x = rect.min.x + (i % columns as int) * (width + gap_x);
    let y = rect.min.y + (i / columns as int) * (height + gap_y);
    Rect::spec_from_wide(x, y, x + width, y + height)
}

/// There is one number of columns for each number of cells.
pub proof fn lemma_grid_columns_unique(count: nat, a: nat, b: nat)
    requires
        is_grid_columns(count, a),
        is_grid_columns(count, b),
    ensures
        a == b,
{
    if a < b {
        assert((b - 1) * (b - 1) >= a * a) by (nonlinear_arith)
            requires
                0 <= a <= b - 1,
        ;
    }
    if b < a {
        assert((a - 1) * (a - 1) >= b * b) by (nonlinear_arith)
            requires
                0 <= b <= a - 1,
        ;
    }
}

/// The least number from `from` upwards whose square has room for `count` cells.
spec fn columns_from(count: nat, from: nat) -> nat
    decreases count - from,
{
    if from * from >= count || from >= count {
        from
    } else {
        columns_from(count, from + 1)
    }
}

proof fn lemma_columns_from(count: nat, from: nat)
    requires
        from > 0 ==> (from - 1) * (from - 1) < count,
    ensures
        is_grid_columns(count, columns_from(count, from)),
    decreases count - from,
{
    if from * from >= count {
    } else if from >= count {
        assert(from * from >= count) by (nonlinear_arith)
            requires
                from >= count,
                from >= 0,
        ;
    } else {
        lemma_columns_from(count, from + 1);
    }
}

/// Every grid has its number of columns: at least one where it has a cell.
pub proof fn lemma_grid_columns(count: nat)
    ensures
        is_grid_columns(count, grid_columns(count)),
        count > 0 ==> grid_columns(count) > 0,
{
    assert((0 - 1) * (0 - 1) == 1) by (nonlinear_arith);
    lemma_columns_from(count, 0);
    let columns = grid_columns(count);
    if columns == 0 {
        assert(columns * columns == 0) by (nonlinear_arith)
            requires
                columns == 0,
        ;
    }
}

/// Whether two rectangles have no point in common but on their borders.
pub open spec fn apart(a: Rect, b: Rect) -> bool {
    ||| a.max.x <= b.min.x
    ||| b.max.x <= a.min.x
    ||| a.max.y <= b.min.y
    ||| b.max.y <= a.min.y
}

/// Where `extent` has room for the gaps, cell `index` of `count` equal cells
/// begins and ends inside it, and behind the end of the cell before and a gap.
proof fn lemma_cell_inside(extent: nat, gap: nat, count: nat, index: nat)
    requires
        index < count,
        extent >= total_gap(gap, count),
    ensures
        index * (cell_extent(extent, gap, count) + gap) + cell_extent(extent, gap, count)
            <= extent,
        index > 0 ==> (index - 1) * (cell_extent(extent, gap, count) + gap) + cell_extent(
            extent,
            gap,
            count,
        ) + gap == index * (cell_extent(extent, gap, count) + gap),
{
    let cell = cell_extent(extent, gap, count);
    let room = available_extent(extent, gap, count);
    lemma_fundamental_div_mod(room as int, count as int);
    lemma_mod_bound(room as int, count as int);
    assert(count * cell <= room);
    let step = cell + gap;
    assert(index * step + cell <= (count - 1) * step + cell) by (nonlinear_arith)
        requires
            index <= count - 1,
            step >= 0,
    ;
    assert((count - 1) * step + cell == count * cell + gap * (count - 1)) by (nonlinear_arith)
        requires
            step == cell + gap,
    ;
    if index > 0 {
        assert((index - 1) * step + step == index * step) by (nonlinear_arith);
    }
}

/// Cells that begin further on do not begin before the end of a cell and a gap.
proof fn lemma_cells_in_order(step: nat, a: nat, b: nat)
    requires
        a < b,
    ensures
        (a + 1) * step <= b * step,
        (a + 1) * step == a * step + step,
{
    assert((a + 1) * step <= b * step) by (nonlinear_arith)
        requires
            a + 1 <= b,
            step >= 0,
    ;
    assert((a + 1) * step == a * step + step) by (nonlinear_arith);
}

/// The cells of a grid lie inside the grid and apart from each other.
pub proof fn lemma_grid_cells_apart(rect: Rect, gap: nat, count: nat, i: int, j: int)
    requires
        0 <= i < j < count,
        rect.min.x <= rect.max.x,
        rect.min.y <= rect.max.y,
    ensures
        rect.contains_rect(grid_child_rect(rect, gap, count, i)),
        rect.contains_rect(grid_child_rect(rect, gap, count, j)),
        apart(grid_child_rect(rect, gap, count, i), grid_child_rect(rect, gap, count, j)),
{
    lemma_grid_columns(count);
    let columns = grid_columns(count);
    let rows = grid_rows(count, columns);
    let gap_x = fitting_gap(rect.spec_width(), gap, columns);
    let gap_y = fitting_gap(rect.spec_height(), gap, rows);
    assert(gap_x == 0 ==> total_gap(gap_x, columns) == 0) by (nonlinear_arith)
        requires
            total_gap(gap_x, columns) == (if columns == 0 {
                0
            } else {
                gap_x * (columns - 1)
            }),
    ;
    assert(gap_y == 0 ==> total_gap(gap_y, rows) == 0) by (nonlinear_arith)
        requires
            total_gap(gap_y, rows) == (if rows == 0 {
                0
            } else {
                gap_y * (rows - 1)
            }),
    ;
    let width = cell_extent(rect.spec_width(), gap_x, columns);
    let height = cell_extent(rect.spec_height(), gap_y, rows);
    lemma_fundamental_div_mod(i, columns as int);
    lemma_mod_bound(i, columns as int);
    lemma_fundamental_div_mod(j, columns as int);
    lemma_mod_bound(j, columns as int);
    let ci = (i % columns as int) as nat;
    let ri = (i / columns as int) as nat;
    let cj = (j % columns as int) as nat;
    let rj = (j / columns as int) as nat;
    assert(0 <= i / columns as int && 0 <= j / columns as int) by (nonlinear_arith)
        requires
            i >= 0,
            j >= 0,
            columns > 0,
    ;
    lemma_fundamental_div_mod((count + columns - 1) as int, columns as int);
    lemma_mod_bound((count + columns - 1) as int, columns as int);
    assert(ri < rows && rj < rows) by (nonlinear_arith)
        requires
            i < count,
            j < count,
            i == columns * ri + ci,
            j == columns * rj + cj,
            0 <= ci < columns,
            0 <= cj < columns,
            (count + columns - 1) == columns * rows + ((count + columns - 1) as int % columns
                as int),
            0 <= ((count + columns - 1) as int % columns as int) < columns,
            columns > 0,
    ;
    lemma_cell_inside(rect.spec_width(), gap_x, columns, ci);
    lemma_cell_inside(rect.spec_width(), gap_x, columns, cj);
    lemma_cell_inside(rect.spec_height(), gap_y, rows, ri);
    lemma_cell_inside(rect.spec_height(), gap_y, rows, rj);
    assert(ci * (width + gap_x) >= 0 && cj * (width + gap_x) >= 0 && ri * (height + gap_y) >= 0
        && rj * (height + gap_y) >= 0) by (nonlinear_arith)
        requires
            ci >= 0,
            cj >= 0,
            ri >= 0,
            rj >= 0,
            width >= 0,
            height >= 0,
            gap_x >= 0,
            gap_y >= 0,
    ;
    if ci < cj {
        lemma_cells_in_order(width + gap_x, ci, cj);
    } else if cj < ci {
        lemma_cells_in_order(width + gap_x, cj, ci);
    } else {
        assert(ri != rj) by (nonlinear_arith)
            requires
                i != j,
                i == columns * ri + ci,
                j == columns * rj + cj,
                ci == cj,
        ;
        if ri < rj {
            lemma_cells_in_order(height + gap_y, ri, rj);
        } else {
            lemma_cells_in_order(height + gap_y, rj, ri);
        }
    }
}

/// The only cell of a grid is all of the grid.
pub proof fn lemma_grid_cell_alone(rect: Rect, gap: nat)
    requires
        rect.min.x <= rect.max.x,
        rect.min.y <= rect.max.y,
    ensures
        grid_child_rect(rect, gap, 1, 0) == rect,
{
    lemma_grid_columns(1);
    let columns = grid_columns(1);
    assert(columns == 1) by {
        assert(is_grid_columns(1, 1)) by {
            assert((1 - 1) * (1 - 1) == 0) by (nonlinear_arith);
        }
        lemma_grid_columns_unique(1, 1, columns);
    }
    assert(grid_rows(1, 1) == 1);
    assert(total_gap(gap, 1) == 0) by (nonlinear_arith)
        requires
            total_gap(gap, 1) == gap * 0,
    ;
    let width = cell_extent(rect.spec_width(), gap, 1);
    let height = cell_extent(rect.spec_height(), gap, 1);
    assert(width == rect.spec_width());
    assert(height == rect.spec_height());
    assert(0 * (width + gap) == 0) by (nonlinear_arith);
    assert(0 * (height + gap) == 0) by (nonlinear_arith);
}

/// Whether the given cells all lie inside `rect`, and apart from each other.
pub open spec fn inside_and_apart(rect: Rect, cells: Seq<Rect>) -> bool {
    &&& forall|i: int| 0 <= i < cells.len() ==> rect.contains_rect(#[trigger] cells[i])
    &&& forall|i: int, j: int|
        0 <= i < j < cells.len() ==> apart(#[trigger] cells[i], #[trigger] cells[j])
}

/// What a [`Grid`] container holds.
pub struct GridView {
    pub children: Seq<TileId>,
}

impl GridView {
    /// The rectangles of the children, in order.
    pub open spec fn child_rects(self, rect: Rect, gap: nat) -> Seq<Rect> {
        Seq::new(
            self.children.len(),
            |i: int| grid_child_rect(rect, gap, self.children.len(), i),
        )
    }
}

/// Every child of a grid gets a rectangle inside the grid, apart from the
/// rectangles of the other children.
pub proof fn lemma_grid_cells(grid: GridView, rect: Rect, gap: nat)
    requires
        rect.min.x <= rect.max.x,
        rect.min.y <= rect.max.y,
    ensures
        inside_and_apart(rect, grid.child_rects(rect, gap)),
{
    let cells = grid.child_rects(rect, gap);
    let count = grid.children.len();
    assert forall|i: int| 0 <= i < cells.len() implies rect.contains_rect(#[trigger] cells[i]) by {
        if count == 1 {
            lemma_grid_cell_alone(rect, gap);
        } else if i == 0 {
            lemma_grid_cells_apart(rect, gap, count, 0, 1);
        } else {
            lemma_grid_cells_apart(rect, gap, count, 0, i);
        }
    }
    assert forall|i: int, j: int| 0 <= i < j < cells.len() implies apart(
        #[trigger] cells[i],
        #[trigger] cells[j],
    ) by {
        lemma_grid_cells_apart(rect, gap, count, i, j);
    }
}

/// A container that lays its children out in rows and columns.
#[derive(Clone, Debug)]
pub struct Grid {
    /// The children, row by row.
    pub children: Vec<TileId>,
}

impl View for Grid {
    type V = GridView;

    open spec fn view(&self) -> GridView {
        GridView { children: self.children@ }
    }
}

/// The number of columns of a grid of `count` cells.
pub fn columns_for(count: usize) -> (columns: u64)
    ensures
        columns == grid_columns(count as nat),
        columns <= 0x1_0000_0000,
        count > 0 ==> columns > 0,
{
    let mut columns: u64 = 0;
    loop
        invariant_except_break
            columns <= 0x1_0000_0000,
            columns > 0 ==> (columns - 1) * (columns - 1) < count,
        ensures
            columns <= 0x1_0000_0000,
            is_grid_columns(count as nat, columns as nat),
        decreases 0x1_0000_0001 - columns,
    {
        assert(columns * columns <= 0x1_0000_0000 * 0x1_0000_0000) by (nonlinear_arith)
            requires
                columns <= 0x1_0000_0000,
        ;
        let square: u128 = columns as u128 * columns as u128;
        if square >= count as u128 {
            break ;
        }
        assert(columns < 0x1_0000_0000) by (nonlinear_arith)
            requires
                columns * columns < count,
                count <= 0xffff_ffff_ffff_ffff,
                columns <= 0x1_0000_0000,
        ;
        columns += 1;
    }
    proof {
        assert(is_grid_columns(count as nat, columns as nat));
        assert(columns == 0 ==> columns * columns == 0) by (nonlinear_arith);
        lemma_grid_columns_unique(count as nat, columns as nat, grid_columns(count as nat));
    }
    columns
}

fn fitting_gap_of(extent: u32, gap: u32, count: u64) -> (fits: u32)
    ensures
        fits == fitting_gap(extent as nat, gap as nat, count as nat),
{
    if count == 0 {
        return gap;
    }
    assert(0 <= gap * (count - 1) <= 0xffff_ffff * 0xffff_ffff_ffff_ffff) by (nonlinear_arith)
        requires
            0 <= gap <= 0xffff_ffff,
            0 <= count - 1 <= 0xffff_ffff_ffff_ffff,
    ;
    let gaps: u128 = gap as u128 * (count - 1) as u128;
    if extent as u128 >= gaps {
        gap
    } else {
        0
    }
}

fn cell_extent_of(extent: u32, gap: u32, count: u64) -> (cell: u32)
    ensures
        cell == cell_extent(extent as nat, gap as nat, count as nat),
{
    if count == 0 {
        return 0;
    }
    assert(0 <= gap * (count - 1) <= 0xffff_ffff * 0xffff_ffff_ffff_ffff) by (nonlinear_arith)
        requires
            0 <= gap <= 0xffff_ffff,
            0 <= count - 1 <= 0xffff_ffff_ffff_ffff,
    ;
    let gaps: u128 = gap as u128 * (count - 1) as u128;
    let available: u128 = if extent as u128 > gaps {
        extent as u128 - gaps
    } else {
        0
    };
    (available / count as u128) as u32
}

impl Grid {
    /// A grid with the given children.
    pub fn new(children: Vec<TileId>) -> (g: Grid)
        ensures
            g@ == (GridView { children: children@ }),
    {
        Grid { children }
    }

    /// Adds a child behind the last cell.
    pub fn add_child(&mut self, child: TileId)
        ensures
            final(self)@ == (GridView { children: old(self)@.children.push(child) }),
    {
        self.children.push(child);
    }

    /// Places the children inside `rect`, in cells of one size with `gap`
    /// between neighbours; without gaps along an axis on which the gaps
    /// would not fit.
    pub fn layout(&self, rect: Rect, gap: u32) -> (rects: Vec<Rect>)
        ensures
            rects@ == self@.child_rects(rect, gap as nat),
            rect.min.x <= rect.max.x && rect.min.y <= rect.max.y ==> inside_and_apart(
                rect,
                rects@,
            ),
    {
        let n = self.children.len();
        let mut rects: Vec<Rect> = Vec::new();
        if n == 0 {
            assert(rects@ =~= self@.child_rects(rect, gap as nat));
            return rects;
        }
        let columns: u64 = columns_for(n);
        assert((n + columns - 1) / (columns as int) <= n) by (nonlinear_arith)
            requires
                n >= 1,
                columns >= 1,
        ;
        let rows: u64 = ((n as u128 + columns as u128 - 1) / columns as u128) as u64;
        let gap_x: u32 = fitting_gap_of(rect.width(), gap, columns);
        let gap_y: u32 = fitting_gap_of(rect.height(), gap, rows);
        let width: u32 = cell_extent_of(rect.width(), gap_x, columns);
        let height: u32 = cell_extent_of(rect.height(), gap_y, rows);
        let mut i: usize = 0;
        while i < n
            invariant
                i <= n,
                n == self.children@.len(),
                n > 0,
                0 < columns <= 0x1_0000_0000,
                columns == grid_columns(n as nat),
                rows == grid_rows(n as nat, columns as nat),
                gap_x == fitting_gap(rect.spec_width(), gap as nat, columns as nat),
                gap_y == fitting_gap(rect.spec_height(), gap as nat, rows as nat),
                width == cell_extent(rect.spec_width(), gap_x as nat, columns as nat),
                height == cell_extent(rect.spec_height(), gap_y as nat, rows as nat),
                rects@.len() == i,
                forall|j: int| 0 <= j < i ==> rects@[j] == grid_child_rect(rect, gap as nat, n as nat, j),
            decreases n - i,
        {
            let column: u64 = i as u64 % columns;
            let row: u64 = i as u64 / columns;
            let step_x: i128 = width as i128 + gap_x as i128;
            let step_y: i128 = height as i128 + gap_y as i128;
            assert(0 <= column * step_x <= 0x1_0000_0000 * 0x2_0000_0000) by (nonlinear_arith)
                requires
                    0 <= column <= 0x1_0000_0000,
                    0 <= step_x <= 0x2_0000_0000,
            ;
            assert(0 <= row * step_y <= 0xffff_ffff_ffff_ffff * 0x2_0000_0000) by (nonlinear_arith)
                requires
                    0 <= row <= 0xffff_ffff_ffff_ffff,
                    0 <= step_y <= 0x2_0000_0000,
            ;
            let x: i128 = rect.min.x as i128 + column as i128 * step_x;
            let y: i128 = rect.min.y as i128 + row as i128 * step_y;
            let child = Rect {
                min: Pos { x: clamp_wide_to_coord(x), y: clamp_wide_to_coord(y) },
                max: Pos {
                    x: clamp_wide_to_coord(x + width as i128),
                    y: clamp_wide_to_coord(y + height as i128),
                },
            };
            rects.push(child);
            i += 1;
        }
        assert(rects@ =~= self@.child_rects(rect, gap as nat));
        proof {
            if rect.min.x <= rect.max.x && rect.min.y <= rect.max.y {
                lemma_grid_cells(self@, rect, gap as nat);
            }
        }
        rects
    }

    /// Takes the children that `keep` rejects off the list.
    pub fn retain<F: Fn(TileId) -> bool>(&mut self, keep: &F)
        requires
            forall|id: TileId| keep.requires((id,)),
        ensures
            forall|p: spec_fn(TileId) -> bool| #[trigger]
                computes(*keep, p) ==> final(self)@ == (GridView {
                    children: old(self)@.children.filter(p),
                }),
    {
        retain_ids(&mut self.children, keep);
    }

    /// Applies to each child its action.
    pub fn simplify_children(&mut self, actions: &[SimplifyAction])
        ensures
            final(self)@ == (GridView {
                children: simplified_children(old(self)@.children, actions@),
            }),
    {
        simplify_ids(&mut self.children, actions);
    }
}

} // verus!
