use vstd::prelude::*;

use crate::container::children::{
    action_at, computes, retain_ids, simplified_children, simplify_ids,
};
use crate::container::shares::{
    id_set, lemma_split_fills, lemma_total_prefix, lemma_total_take_le, replaced, split_extents,
    total, weight_of, weights_of, Shares, ONE_SHARE,
};
use crate::geometry::{clamp_coord, clamp_to_coord, Rect};
use crate::simplification::SimplifyAction;
use crate::tile_id::TileId;

verus! {

/// The direction of a [`Linear`] container.
#[derive(Clone, Copy, Debug, PartialEq, Eq, Structural, Hash)]
pub enum LinearDir {
    Horizontal,
    Vertical,
}

impl Default for LinearDir {
    fn default() -> (d: LinearDir)
        ensures
            d == LinearDir::Horizontal,
    {
        LinearDir::Horizontal
    }
}

/// The extent of a rectangle along a direction.
pub open spec fn extent_along(rect: Rect, dir: LinearDir) -> nat {
    match dir {
        LinearDir::Horizontal => rect.spec_width(),
        LinearDir::Vertical => rect.spec_height(),
    }
}

/// The coordinate at which a rectangle begins along a direction.
pub open spec fn start_along(rect: Rect, dir: LinearDir) -> int {
    match dir {
        LinearDir::Horizontal => rect.min.x as int,
        LinearDir::Vertical => rect.min.y as int,
    }
}

/// The width of all gaps between `count` children.
pub open spec fn total_gap(gap: nat, count: nat) -> nat {
    if count == 0 {
        0
    } else {
        gap * (count - 1) as nat
    }
}

/// What is left of `extent` for `count` children once the gaps between them
/// are taken off.
pub open spec fn available_extent(extent: nat, gap: nat, count: nat) -> nat {
    if extent > total_gap(gap, count) {
        (extent - total_gap(gap, count)) as nat
    } else {
        0
    }
}

/// How far behind the container's start child `i` begins: the extents of the
/// children before it, and a gap after each of them.
pub open spec fn child_offset(extents: Seq<nat>, gap: nat, i: int) -> nat
    decreases i,
{
    if i <= 0 {
        0
    } else {
        child_offset(extents, gap, i - 1) + extents[i - 1] + gap
    }
}

/// The rectangle of child `i`: the container's whole extent across the
/// direction, and the child's own extent along it, behind its offset.
pub open spec fn child_rect(rect: Rect, dir: LinearDir, extents: Seq<nat>, gap: nat, i: int) -> Rect {
    let start = start_along(rect, dir) + child_offset(extents, gap, i);
    match dir {
        LinearDir::Horizontal => Rect::spec_from_wide(
            start,
            rect.min.y as int,
            start + extents[i],
            rect.max.y as int,
        ),
        LinearDir::Vertical => Rect::spec_from_wide(
            rect.min.x as int,
            start,
            rect.max.x as int,
            start + extents[i],
        ),
    }
}

/// The shares after each child has met its action: the weight of a child that
/// is replaced goes to its replacement.
pub open spec fn simplified_shares(
    shares: Map<u64, u32>,
    children: Seq<TileId>,
    actions: Seq<SimplifyAction>,
) -> Map<u64, u32>
    decreases children.len(),
{
    if children.len() == 0 {
        shares
    } else {
        let before = simplified_shares(shares, children.drop_last(), actions);
        match action_at(actions, children.len() - 1) {
            SimplifyAction::Replace(new) => replaced(before, children.last(), new),
            _ => before,
        }
    }
}

/// A replacement gains no weight that the child in whose place it comes did
/// not have: where no child that is replaced has an entry of its own, the
/// shares stay as they are, and every replacement reads the weight that the
/// table held for it before.
pub proof fn lemma_replacement_without_entry(
    shares: Map<u64, u32>,
    children: Seq<TileId>,
    actions: Seq<SimplifyAction>,
)
    requires
        forall|i: int|
            0 <= i < children.len() && action_at(actions, i) is Replace ==> !shares.contains_key(
                children[i].0,
            ),
    ensures
        simplified_shares(shares, children, actions) == shares,
    decreases children.len(),
{
    if children.len() > 0 {
        lemma_replacement_without_entry(shares, children.drop_last(), actions);
    }
}

/// A replacement inherits the weight of the child in whose place it comes:
/// where the last child has an entry and is replaced, its weight is the
/// weight of the replacement afterwards, and the child has no entry any more
/// unless it is its own replacement.
pub proof fn lemma_replacement_inherits(
    shares: Map<u64, u32>,
    children: Seq<TileId>,
    actions: Seq<SimplifyAction>,
    new: TileId,
)
    requires
        children.len() > 0,
        action_at(actions, children.len() - 1) == SimplifyAction::Replace(new),
        simplified_shares(shares, children.drop_last(), actions).contains_key(children.last().0),
    ensures
        weight_of(simplified_shares(shares, children, actions), new) == weight_of(
            simplified_shares(shares, children.drop_last(), actions),
            children.last(),
        ),
        new != children.last() ==> !simplified_shares(shares, children, actions).contains_key(
            children.last().0,
        ),
{
}

/// What a [`Linear`] container holds.
pub struct LinearView {
    pub children: Seq<TileId>,
    pub dir: LinearDir,
    pub shares: Map<u64, u32>,
}

impl LinearView {
    /// The extents of the children along the container's direction, when the
    /// container has the rectangle `rect`.
    pub open spec fn child_extents(self, rect: Rect, gap: nat) -> Seq<nat> {
        split_extents(
            weights_of(self.shares, self.children),
            available_extent(extent_along(rect, self.dir), gap, self.children.len()),
        )
    }

    /// The rectangles of the children, in order.
    pub open spec fn child_rects(self, rect: Rect, gap: nat) -> Seq<Rect> {
        Seq::new(
            self.children.len(),
            |i: int| child_rect(rect, self.dir, self.child_extents(rect, gap), gap, i),
        )
    }

    /// The same container without the shares of tiles that are not its children.
    pub open spec fn purged(self) -> LinearView {
        LinearView { shares: self.shares.restrict(id_set(self.children)), ..self }
    }
}

/// A horizontal or vertical container.
#[derive(Clone, Debug)]
pub struct Linear {
    pub children: Vec<TileId>,
    pub dir: LinearDir,
    pub shares: Shares,
}

impl View for Linear {
    type V = LinearView;

    open spec fn view(&self) -> LinearView {
        LinearView { children: self.children@, dir: self.dir, shares: self.shares@ }
    }
}

impl Default for Linear {
    fn default() -> (l: Linear)
        ensures
            l@ == (LinearView {
                children: Seq::empty(),
                dir: LinearDir::Horizontal,
                shares: Map::empty(),
            }),
    {
        Linear { children: Vec::new(), dir: LinearDir::Horizontal, shares: Shares::new() }
    }
}

/// Purging stale shares changes no child's weight.
pub proof fn lemma_purged_weights(shares: Map<u64, u32>, children: Seq<TileId>)
    ensures
        weights_of(shares.restrict(id_set(children)), children) == weights_of(shares, children),
{
    assert forall|i: int| 0 <= i < children.len() implies weight_of(
        shares.restrict(id_set(children)),
        children[i],
    ) == weight_of(shares, children[i]) by {
        assert(children.contains(children[i]));
        assert(id_set(children).contains(children[i].0));
    }
    assert(weights_of(shares.restrict(id_set(children)), children) =~= weights_of(
        shares,
        children,
    ));
}

/// The offset behind the last of `k` children is the sum of their extents and
/// of one gap for each.
pub proof fn lemma_child_offset_total(extents: Seq<nat>, gap: nat, k: int)
    requires
        0 <= k <= extents.len(),
    ensures
        child_offset(extents, gap, k) == total(extents.take(k)) + k * gap,
    decreases k,
{
    if k > 0 {
        lemma_child_offset_total(extents, gap, k - 1);
        lemma_total_prefix(extents, k - 1);
        assert(k * gap == (k - 1) * gap + gap) by (nonlinear_arith);
    } else {
        assert(extents.take(0).len() == 0);
        assert(0 * gap == 0) by (nonlinear_arith);
    }
}

/// The children of a linear container fill it: where the container has
/// room for its gaps, the extents of its children and the gaps between them
/// add up to the container's extent.
pub proof fn lemma_linear_layout_fills(linear: LinearView, rect: Rect, gap: nat)
    requires
        linear.children.len() > 0,
        extent_along(rect, linear.dir) >= total_gap(gap, linear.children.len()),
    ensures
        total(linear.child_extents(rect, gap)) + total_gap(gap, linear.children.len())
            == extent_along(rect, linear.dir),
{
    lemma_split_fills(
        weights_of(linear.shares, linear.children),
        available_extent(extent_along(rect, linear.dir), gap, linear.children.len()),
    );
}

/// No child of a linear container reaches beyond the container's end, where
/// the container is wide enough for its gaps.
pub proof fn lemma_linear_children_inside(linear: LinearView, rect: Rect, gap: nat, i: int)
    requires
        0 <= i < linear.children.len(),
        extent_along(rect, linear.dir) >= total_gap(gap, linear.children.len()),
    ensures
        start_along(rect, linear.dir) + child_offset(linear.child_extents(rect, gap), gap, i)
            + linear.child_extents(rect, gap)[i] <= start_along(rect, linear.dir) + extent_along(
            rect,
            linear.dir,
        ),
{
    let es = linear.child_extents(rect, gap);
    let n = linear.children.len() as int;
    lemma_linear_layout_fills(linear, rect, gap);
    lemma_child_offset_total(es, gap, i);
    lemma_total_prefix(es, i);
    lemma_total_take_le(es, i + 1);
    assert(i * gap <= gap * (n - 1)) by (nonlinear_arith)
        requires
            i <= n - 1,
            gap >= 0,
    ;
    assert(total_gap(gap, linear.children.len()) == gap * (n - 1));
    assert(total(es.take(i + 1)) == total(es.take(i)) + es[i]);
}

/// Whether `child` has all of `rect` across the direction `dir`.
pub open spec fn spans_across(child: Rect, rect: Rect, dir: LinearDir) -> bool {
    match dir {
        LinearDir::Horizontal => child.min.y == rect.min.y && child.max.y == rect.max.y,
        LinearDir::Vertical => child.min.x == rect.min.x && child.max.x == rect.max.x,
    }
}

/// Where the container has room for its gaps, the rectangle of every child
/// is as long as the child's extent, and has all of the container across.
pub proof fn lemma_linear_child_extent(linear: LinearView, rect: Rect, gap: nat, i: int)
    requires
        0 <= i < linear.children.len(),
        extent_along(rect, linear.dir) >= total_gap(gap, linear.children.len()),
    ensures
        extent_along(linear.child_rects(rect, gap)[i], linear.dir) == linear.child_extents(
            rect,
            gap,
        )[i],
        spans_across(linear.child_rects(rect, gap)[i], rect, linear.dir),
{
    lemma_linear_children_inside(linear, rect, gap, i);
}

/// Every child begins behind the end of each child before it, and a gap.
pub proof fn lemma_child_offset_grows(extents: Seq<nat>, gap: nat, i: int, j: int)
    requires
        0 <= i < j <= extents.len(),
    ensures
        child_offset(extents, gap, i) + extents[i] + gap <= child_offset(extents, gap, j),
    decreases j - i,
{
    if j > i + 1 {
        lemma_child_offset_grows(extents, gap, i, j - 1);
    }
}

/// The children of a linear container lie inside the container, one behind
/// the other, where the container has room for the gaps between them.
pub proof fn lemma_linear_children_apart(linear: LinearView, rect: Rect, gap: nat, i: int, j: int)
    requires
        0 <= i < j < linear.children.len(),
        extent_along(rect, linear.dir) >= total_gap(gap, linear.children.len()),
        rect.min.x <= rect.max.x,
        rect.min.y <= rect.max.y,
    ensures
        rect.contains_rect(linear.child_rects(rect, gap)[i]),
        rect.contains_rect(linear.child_rects(rect, gap)[j]),
        match linear.dir {
            LinearDir::Horizontal => linear.child_rects(rect, gap)[i].max.x + gap
                <= linear.child_rects(rect, gap)[j].min.x,
            LinearDir::Vertical => linear.child_rects(rect, gap)[i].max.y + gap
                <= linear.child_rects(rect, gap)[j].min.y,
        },
{
    let extents = linear.child_extents(rect, gap);
    lemma_linear_children_inside(linear, rect, gap, i);
    lemma_linear_children_inside(linear, rect, gap, j);
    lemma_child_offset_grows(extents, gap, i, j);
}

impl Linear {
    /// A container with the given children, each with a share of one.
    pub fn new(dir: LinearDir, children: Vec<TileId>) -> (l: Linear)
        ensures
            l@ == (LinearView { children: children@, dir, shares: Map::empty() }),
    {
        Linear { children, dir, shares: Shares::new() }
    }

    /// A split in two, of which the first child gets the fraction `fraction`
    /// of the space and the second child the rest.
    ///
    /// The fraction is a fixed-point number like a weight: [`ONE_SHARE`]
    /// stands for the whole. The two weights add up to two shares, as those of
    /// two children without entries would.
    pub fn new_binary(dir: LinearDir, children: [TileId; 2], fraction: u32) -> (l: Linear)
        requires
            fraction <= ONE_SHARE,
        ensures
            l@ == (LinearView {
                children: seq![children[0], children[1]],
                dir,
                shares: Map::<u64, u32>::empty().insert(children[0].0, (2 * fraction) as u32).insert(
                    children[1].0,
                    (2 * (ONE_SHARE - fraction)) as u32,
                ),
            }),
    {
        let mut list: Vec<TileId> = Vec::new();
        list.push(children[0]);
        list.push(children[1]);
        let mut shares = Shares::new();
        shares.set(children[0], 2 * fraction);
        shares.set(children[1], 2 * (ONE_SHARE - fraction));
        assert(list@ =~= seq![children[0], children[1]]);
        Linear { children: list, dir, shares }
    }

    /// Adds a child at the end, with a share of one unless an entry says otherwise.
    pub fn add_child(&mut self, child: TileId)
        ensures
            final(self)@ == (LinearView { children: old(self)@.children.push(child), ..old(self)@ }),
    {
        self.children.push(child);
    }

    /// Drops the shares of tiles that are not children of this container.
    pub fn purge(&mut self)
        ensures
            final(self)@ == old(self)@.purged(),
    {
        self.shares.retain_children(self.children.as_slice());
    }

    /// Drops the shares of tiles that are no longer children, and places the
    /// children inside `rect`, one after the other along the container's
    /// direction, with `gap` between neighbours.
    pub fn layout(&mut self, rect: Rect, gap: u32) -> (rects: Vec<Rect>)
        ensures
            final(self)@ == old(self)@.purged(),
            rects@ == old(self)@.child_rects(rect, gap as nat),
            old(self)@.children.len() > 0 && extent_along(rect, old(self)@.dir) >= total_gap(
                gap as nat,
                old(self)@.children.len(),
            ) ==> total(old(self)@.child_extents(rect, gap as nat)) + total_gap(
                gap as nat,
                old(self)@.children.len(),
            ) == extent_along(rect, old(self)@.dir),
            extent_along(rect, old(self)@.dir) >= total_gap(
                gap as nat,
                old(self)@.children.len(),
            ) ==> forall|i: int|
                0 <= i < rects@.len() ==> extent_along(#[trigger] rects@[i], old(self)@.dir)
                    == old(self)@.child_extents(rect, gap as nat)[i] && spans_across(
                    rects@[i],
                    rect,
                    old(self)@.dir,
                ),
    {
        proof {
            let before = old(self)@;
            if extent_along(rect, before.dir) >= total_gap(gap as nat, before.children.len()) {
                if before.children.len() > 0 {
                    lemma_linear_layout_fills(before, rect, gap as nat);
                }
                assert forall|i: int| 0 <= i < before.children.len() implies extent_along(
                    #[trigger] before.child_rects(rect, gap as nat)[i],
                    before.dir,
                ) == before.child_extents(rect, gap as nat)[i] && spans_across(
                    before.child_rects(rect, gap as nat)[i],
                    rect,
                    before.dir,
                ) by {
                    lemma_linear_child_extent(before, rect, gap as nat, i);
                }
            }
        }
        self.purge();
        proof {
            lemma_purged_weights(old(self)@.shares, self.children@);
        }
        let n = self.children.len();
        let extent: u32 = match self.dir {
            LinearDir::Horizontal => rect.width(),
            LinearDir::Vertical => rect.height(),
        };
        let num_gaps: usize = if n == 0 {
            0
        } else {
            n - 1
        };
        assert(gap as u128 * num_gaps as u128 <= 0xffff_ffff * 0xffff_ffff_ffff_ffff)
            by (nonlinear_arith)
            requires
                gap <= 0xffff_ffff,
                num_gaps <= 0xffff_ffff_ffff_ffff,
        ;
        let gaps: u128 = gap as u128 * num_gaps as u128;
        let available: u32 = if extent as u128 > gaps {
            (extent as u128 - gaps) as u32
        } else {
            0
        };
        let extents = self.shares.split(self.children.as_slice(), available);
        let ghost es = old(self)@.child_extents(rect, gap as nat);
        assert(es.len() == n);
        assert(forall|i: int| 0 <= i < n ==> extents@[i] as nat == es[i]);
        let start: i32 = match self.dir {
            LinearDir::Horizontal => rect.min.x,
            LinearDir::Vertical => rect.min.y,
        };
        let mut rects: Vec<Rect> = Vec::new();
        let mut cursor: i64 = start as i64;
        let mut i: usize = 0;
        while i < n
            invariant
                i <= n,
                n == self.children@.len(),
                self.children@ == old(self)@.children,
                self.dir == old(self)@.dir,
                es == old(self)@.child_extents(rect, gap as nat),
                es.len() == n,
                extents@.len() == n,
                forall|j: int| 0 <= j < n ==> extents@[j] as nat == es[j],
                start == start_along(rect, self.dir),
                cursor == clamp_coord(start + child_offset(es, gap as nat, i as int)),
                rects@.len() == i,
                forall|j: int|
                    0 <= j < i ==> rects@[j] == child_rect(rect, self.dir, es, gap as nat, j),
            decreases n - i,
        {
            let e: u32 = extents[i];
            let end: i64 = cursor + e as i64;
            let child = match self.dir {
                LinearDir::Horizontal => Rect::from_wide(
                    cursor,
                    rect.min.y as i64,
                    end,
                    rect.max.y as i64,
                ),
                LinearDir::Vertical => Rect::from_wide(
                    rect.min.x as i64,
                    cursor,
                    rect.max.x as i64,
                    end,
                ),
            };
            rects.push(child);
            let next: i64 = end + gap as i64;
            cursor = clamp_to_coord(next) as i64;
            i += 1;
        }
        assert(rects@ =~= old(self)@.child_rects(rect, gap as nat));
        rects
    }
}

impl Linear {
    /// Takes the children that `keep` rejects off the list. Their shares stay
    /// until the next layout drops them.
    pub fn retain<F: Fn(TileId) -> bool>(&mut self, keep: &F)
        requires
            forall|id: TileId| keep.requires((id,)),
        ensures
            forall|p: spec_fn(TileId) -> bool| #[trigger]
                computes(*keep, p) ==> final(self)@ == (LinearView {
                    children: old(self)@.children.filter(p),
                    ..old(self)@
                }),
    {
        retain_ids(&mut self.children, keep);
    }

    /// Applies to each child its action; a replacement inherits the weight of
    /// the child whose place it takes.
    pub fn simplify_children(&mut self, actions: &[SimplifyAction])
        ensures
            final(self)@ == (LinearView {
                children: simplified_children(old(self)@.children, actions@),
                dir: old(self)@.dir,
                shares: simplified_shares(old(self)@.shares, old(self)@.children, actions@),
            }),
    {
        let mut i: usize = 0;
        proof {
            assert(self.children@.take(0) =~= Seq::<TileId>::empty());
        }
        while i < self.children.len()
            invariant
                i <= self.children@.len(),
                self.children == old(self).children,
                self.dir == old(self).dir,
                self.shares@ == simplified_shares(
                    old(self)@.shares,
                    self.children@.take(i as int),
                    actions@,
                ),
            decreases self.children@.len() - i,
        {
            let child = self.children[i];
            proof {
                assert(self.children@.take(i + 1).drop_last() =~= self.children@.take(i as int));
                assert(self.children@.take(i + 1).last() == child);
            }
            if i < actions.len() {
                if let SimplifyAction::Replace(new) = actions[i] {
                    self.shares.replace_with(child, new);
                }
            }
            i += 1;
        }
        proof {
            assert(self.children@.take(self.children@.len() as int) =~= self.children@);
        }
        simplify_ids(&mut self.children, actions);
    }
}

} // verus!
