use itertools::Itertools;
use vstd::prelude::*;

use crate::container::linear::{extent_along, Linear, LinearDir};
use crate::container::shares::{lemma_total_prefix, total, weight_of, weights_of, Shares};
use crate::geometry::{clamp_coord, clamp_to_coord, midpoint, midpoint_of, rect_of, Rect, Rects};
use crate::tile_id::TileId;

verus! {

/// What a resize handle between two children is doing.
#[derive(Clone, Copy, Debug, PartialEq, Eq, Structural)]
pub enum ResizeState {
    Idle,
    /// The pointer is over the handle.
    Hovering,
    /// The handle is being dragged.
    Dragging,
}

/// What the pointer did to a resize handle in this frame.
#[derive(Clone, Copy, Debug, PartialEq, Eq, Structural)]
pub struct SplitterResponse {
    pub double_clicked: bool,
    pub dragged: bool,
    pub hovered: bool,
}

/// The extents, along `dir`, that the last layout gave to the tiles of a chain.
pub open spec fn chain_sizes(rects: Map<u64, Rect>, dir: LinearDir, chain: Seq<TileId>) -> Seq<nat> {
    Seq::new(chain.len(), |i: int| extent_along(rect_of(rects, chain[i]), dir))
}

/// `a` divided by `b`, rounded up.
pub open spec fn ceil_div(a: nat, b: nat) -> nat {
    if a % b == 0 {
        a / b
    } else {
        a / b + 1
    }
}

/// What a weight can give up without falling below `floor`.
pub open spec fn slack(weight: nat, floor: nat) -> nat {
    if weight > floor {
        (weight - floor) as nat
    } else {
        0
    }
}

/// The smaller of two numbers.
pub open spec fn least(a: nat, b: nat) -> nat {
    if a <= b {
        a
    } else {
        b
    }
}

/// The shares after the tiles of `chain` have given up weight, one after the
/// other and each down to `floor` at most, until `need` is met or the chain
/// ends; and the weight that they gave up in all.
pub open spec fn shrink_chain(shares: Map<u64, u32>, chain: Seq<TileId>, floor: nat, need: nat) -> (
    Map<u64, u32>,
    nat,
)
    decreases chain.len(),
{
    if chain.len() == 0 {
        (shares, 0)
    } else {
        let (before, lost) = shrink_chain(shares, chain.drop_last(), floor, need);
        let id = chain.last();
        let weight = weight_of(before, id);
        let by = least(slack(weight, floor), slack(need, lost));
        (before.insert(id.0, (weight - by) as u32), lost + by)
    }
}

/// The weight below which no tile of the chain is shrunk: `min_size` points,
/// in the chain's own shares per point, rounded up.
pub open spec fn floor_in_shares(
    shares: Map<u64, u32>,
    rects: Map<u64, Rect>,
    dir: LinearDir,
    chain: Seq<TileId>,
    min_size: nat,
) -> nat {
    ceil_div(
        total(weights_of(shares, chain)) * min_size,
        total(chain_sizes(rects, dir, chain)),
    )
}

/// The weight that stands for `target` points, in the chain's own shares per
/// point, rounded down.
pub open spec fn target_in_shares(
    shares: Map<u64, u32>,
    rects: Map<u64, Rect>,
    dir: LinearDir,
    chain: Seq<TileId>,
    target: nat,
) -> nat {
    total(weights_of(shares, chain)) * target / total(chain_sizes(rects, dir, chain))
}

/// The weight that is asked of a chain: what stands for `target` points, but
/// no more than `most`.
pub open spec fn need_in_shares(
    shares: Map<u64, u32>,
    rects: Map<u64, Rect>,
    dir: LinearDir,
    chain: Seq<TileId>,
    target: nat,
    most: nat,
) -> nat {
    least(target_in_shares(shares, rects, dir, chain, target), most)
}

/// What shrinking a chain by `target` points, and by no more weight than
/// `most`, makes of the shares, and the weight lost. A chain without tiles,
/// or whose tiles have no extent at all, is left as it is.
pub open spec fn shrunk(
    shares: Map<u64, u32>,
    rects: Map<u64, Rect>,
    dir: LinearDir,
    chain: Seq<TileId>,
    target: nat,
    min_size: nat,
    most: nat,
) -> (Map<u64, u32>, nat) {
    if chain.len() == 0 || total(chain_sizes(rects, dir, chain)) == 0 {
        (shares, 0)
    } else {
        shrink_chain(
            shares,
            chain,
            floor_in_shares(shares, rects, dir, chain, min_size),
            need_in_shares(shares, rects, dir, chain, target, most),
        )
    }
}

/// The slack of every tile of the chain, added up.
pub open spec fn chain_slack(shares: Map<u64, u32>, chain: Seq<TileId>, floor: nat) -> nat {
    total(Seq::new(chain.len(), |i: int| slack(weight_of(shares, chain[i]), floor)))
}

proof fn lemma_shrink_chain_step(shares: Map<u64, u32>, chain: Seq<TileId>, floor: nat, need: nat, k: int)
    requires
        0 <= k < chain.len(),
    ensures
        ({
            let (before, lost) = shrink_chain(shares, chain.take(k), floor, need);
            let weight = weight_of(before, chain[k]);
            let by = least(slack(weight, floor), slack(need, lost));
            shrink_chain(shares, chain.take(k + 1), floor, need) == (
                before.insert(chain[k].0, (weight - by) as u32),
                lost + by,
            )
        }),
{
    assert(chain.take(k + 1).drop_last() =~= chain.take(k));
}

/// Shrinking a chain never takes more than was asked for, takes from no tile
/// outside the chain, and leaves every tile at the least of its old weight
/// and the floor, or above: no tile is shrunk below the floor.
pub proof fn lemma_shrink_respects_floor(
    shares: Map<u64, u32>,
    chain: Seq<TileId>,
    floor: nat,
    need: nat,
)
    ensures
        shrink_chain(shares, chain, floor, need).1 <= need,
        forall|id: TileId|
            weight_of(shrink_chain(shares, chain, floor, need).0, id) <= weight_of(shares, id),
        forall|id: TileId|
            weight_of(shrink_chain(shares, chain, floor, need).0, id) >= least(
                weight_of(shares, id),
                floor,
            ),
        forall|id: TileId|
            !chain.contains(id) ==> weight_of(shrink_chain(shares, chain, floor, need).0, id)
                == weight_of(shares, id),
    decreases chain.len(),
{
    if chain.len() > 0 {
        lemma_shrink_respects_floor(shares, chain.drop_last(), floor, need);
        let (before, lost) = shrink_chain(shares, chain.drop_last(), floor, need);
        let last = chain.last();
        assert forall|id: TileId| !chain.contains(id) implies weight_of(
            shrink_chain(shares, chain, floor, need).0,
            id,
        ) == weight_of(shares, id) by {
            assert(chain[chain.len() - 1] == last);
            if chain.drop_last().contains(id) {
                let j = choose|j: int| 0 <= j < chain.drop_last().len() && chain.drop_last()[j] == id;
                assert(chain[j] == id);
            }
        }
    }
}

/// A chain that cannot supply what was asked for gives up all its slack:
/// where no tile occurs twice and the slack of all tiles together is less
/// than the need, the weight lost is that slack, and less than the need.
pub proof fn lemma_shrink_exhausted(shares: Map<u64, u32>, chain: Seq<TileId>, floor: nat, need: nat)
    requires
        chain.no_duplicates(),
        chain_slack(shares, chain, floor) < need,
    ensures
        shrink_chain(shares, chain, floor, need).1 == chain_slack(shares, chain, floor),
        shrink_chain(shares, chain, floor, need).1 < need,
    decreases chain.len(),
{
    let slacks = Seq::new(chain.len(), |i: int| slack(weight_of(shares, chain[i]), floor));
    if chain.len() > 0 {
        let rest = chain.drop_last();
        let rest_slacks = Seq::new(rest.len(), |i: int| slack(weight_of(shares, rest[i]), floor));
        assert(slacks.drop_last() =~= rest_slacks);
        lemma_shrink_exhausted(shares, rest, floor, need);
        lemma_shrink_respects_floor(shares, rest, floor, need);
        let last = chain.last();
        if rest.contains(last) {
            let j = choose|j: int| 0 <= j < rest.len() && rest[j] == last;
            assert(chain[j] == chain[chain.len() - 1]);
        }
    }
}

/// A chain with slack to spare gives up exactly what was asked for.
pub proof fn lemma_shrink_satisfied(shares: Map<u64, u32>, chain: Seq<TileId>, floor: nat, need: nat)
    requires
        chain.no_duplicates(),
        chain_slack(shares, chain, floor) >= need,
    ensures
        shrink_chain(shares, chain, floor, need).1 == need,
    decreases chain.len(),
{
    let slacks = Seq::new(chain.len(), |i: int| slack(weight_of(shares, chain[i]), floor));
    if chain.len() > 0 {
        let rest = chain.drop_last();
        let rest_slacks = Seq::new(rest.len(), |i: int| slack(weight_of(shares, rest[i]), floor));
        assert(slacks.drop_last() =~= rest_slacks);
        lemma_shrink_respects_floor(shares, rest, floor, need);
        let last = chain.last();
        if rest.contains(last) {
            let j = choose|j: int| 0 <= j < rest.len() && rest[j] == last;
            assert(chain[j] == chain[chain.len() - 1]);
        }
        if chain_slack(shares, rest, floor) >= need {
            lemma_shrink_satisfied(shares, rest, floor, need);
        } else {
            lemma_shrink_exhausted(shares, rest, floor, need);
        }
    }
}

/// Shrinking a chain lets no tile get smaller than the minimum size: no tile
/// gains weight, a tile that is not of the chain keeps its weight, and every
/// tile is left with the weight that stands for the minimum size, or with
/// the weight that it had where that was less. The weight lost is no more
/// than stands for the points asked for, and no more than `most`.
pub proof fn lemma_shrunk_respects_min_size(
    shares: Map<u64, u32>,
    rects: Map<u64, Rect>,
    dir: LinearDir,
    chain: Seq<TileId>,
    target: nat,
    min_size: nat,
    most: nat,
)
    ensures
        shrunk(shares, rects, dir, chain, target, min_size, most).1 <= target_in_shares(
            shares,
            rects,
            dir,
            chain,
            target,
        ),
        shrunk(shares, rects, dir, chain, target, min_size, most).1 <= most,
        forall|id: TileId|
            weight_of(shrunk(shares, rects, dir, chain, target, min_size, most).0, id)
                <= weight_of(shares, id),
        forall|id: TileId|
            weight_of(shrunk(shares, rects, dir, chain, target, min_size, most).0, id) >= least(
                weight_of(shares, id),
                floor_in_shares(shares, rects, dir, chain, min_size),
            ),
        forall|id: TileId|
            !chain.contains(id) ==> weight_of(
                shrunk(shares, rects, dir, chain, target, min_size, most).0,
                id,
            ) == weight_of(shares, id),
{
    lemma_shrink_respects_floor(
        shares,
        chain,
        floor_in_shares(shares, rects, dir, chain, min_size),
        need_in_shares(shares, rects, dir, chain, target, most),
    );
}

/// A chain that cannot supply what is asked of it gives up all its slack:
/// where no tile occurs twice in a chain of some extent, and the slack of
/// all its tiles together is less than the weight asked for, the weight lost
/// is that slack, and less than was asked for.
pub proof fn lemma_shrunk_exhausted(
    shares: Map<u64, u32>,
    rects: Map<u64, Rect>,
    dir: LinearDir,
    chain: Seq<TileId>,
    target: nat,
    min_size: nat,
    most: nat,
)
    requires
        chain.no_duplicates(),
        total(chain_sizes(rects, dir, chain)) > 0,
        chain_slack(shares, chain, floor_in_shares(shares, rects, dir, chain, min_size))
            < need_in_shares(shares, rects, dir, chain, target, most),
    ensures
        shrunk(shares, rects, dir, chain, target, min_size, most).1 == chain_slack(
            shares,
            chain,
            floor_in_shares(shares, rects, dir, chain, min_size),
        ),
        shrunk(shares, rects, dir, chain, target, min_size, most).1 < target_in_shares(
            shares,
            rects,
            dir,
            chain,
            target,
        ),
{
    lemma_shrink_exhausted(
        shares,
        chain,
        floor_in_shares(shares, rects, dir, chain, min_size),
        need_in_shares(shares, rects, dir, chain, target, most),
    );
    if chain.len() == 0 {
        assert(chain_sizes(rects, dir, chain).len() == 0);
    }
}

/// What a chain loses, its neighbour can take: where the chain gives up no
/// more than the neighbour `id` has room for, the weight of the neighbour
/// and the weight lost together are a weight.
pub proof fn lemma_shrunk_fits(
    shares: Map<u64, u32>,
    rects: Map<u64, Rect>,
    dir: LinearDir,
    chain: Seq<TileId>,
    target: nat,
    min_size: nat,
    id: TileId,
)
    ensures
        weight_of(
            shrunk(
                shares,
                rects,
                dir,
                chain,
                target,
                min_size,
                room_of(shares, id),
            ).0,
            id,
        ) + shrunk(shares, rects, dir, chain, target, min_size, room_of(shares, id)).1
            <= u32::MAX,
{
    lemma_shrunk_respects_min_size(
        shares,
        rects,
        dir,
        chain,
        target,
        min_size,
        room_of(shares, id),
    );
}

/// How much the weight of `id` can grow.
pub open spec fn room_of(shares: Map<u64, u32>, id: TileId) -> nat {
    (u32::MAX - weight_of(shares, id)) as nat
}

/// Tries to shrink the tiles of `children` by `target_in_points` in all,
/// nearest first, and lets none get smaller than `min_size` points. The
/// tiles give up no more weight than `most`, which is what their neighbour
/// has room for.
///
/// Returns the weight that the tiles gave up.
pub fn shrink_shares(
    shares: &mut Shares,
    children: &[TileId],
    target_in_points: u32,
    min_size: u32,
    most: u32,
    rects: &Rects,
    dir: LinearDir,
) -> (lost: u32)
    ensures
        (final(shares)@, lost as nat) == shrunk(
            old(shares)@,
            rects@,
            dir,
            children@,
            target_in_points as nat,
            min_size as nat,
            most as nat,
        ),
{
    let n = children.len();
    if n == 0 {
        return 0;
    }
    let ghost ws = weights_of(shares@, children@);
    let ghost ps = chain_sizes(rects@, dir, children@);
    let mut total_shares: u128 = 0;
    let mut total_points: u128 = 0;
    let mut i: usize = 0;
    while i < n
        invariant
            i <= n,
            n == children@.len(),
            *shares == *old(shares),
            ws == weights_of(shares@, children@),
            ps == chain_sizes(rects@, dir, children@),
            total_shares == total(ws.take(i as int)),
            total_points == total(ps.take(i as int)),
            total_shares <= i * 0xffff_ffff,
            total_points <= i * 0xffff_ffff,
        decreases n - i,
    {
        let w = shares.get(children[i]);
        let r = rects.rect(children[i]);
        let p: u32 = match dir {
            LinearDir::Horizontal => r.width(),
            LinearDir::Vertical => r.height(),
        };
        proof {
            lemma_total_prefix(ws, i as int);
            lemma_total_prefix(ps, i as int);
            assert((i + 1) * 0xffff_ffff == i * 0xffff_ffff + 0xffff_ffff) by (nonlinear_arith);
        }
        total_shares = total_shares + w as u128;
        total_points = total_points + p as u128;
        i += 1;
    }
    proof {
        assert(ws.take(n as int) =~= ws);
        assert(ps.take(n as int) =~= ps);
    }
    if total_points == 0 {
        return 0;
    }
    assert(total_shares * 0xffff_ffff + total_points <= 0xffff_ffff_ffff_ffff * 0xffff_ffff * 0x1_0000_0000)
        by (nonlinear_arith)
        requires
            total_shares <= n * 0xffff_ffff,
            total_points <= n * 0xffff_ffff,
            n <= 0xffff_ffff_ffff_ffff,
    ;
    assert(total_shares * min_size <= total_shares * 0xffff_ffff) by (nonlinear_arith)
        requires
            min_size <= 0xffff_ffff,
    ;
    assert(total_shares * target_in_points <= total_shares * 0xffff_ffff) by (nonlinear_arith)
        requires
            target_in_points <= 0xffff_ffff,
    ;
    let min_product: u128 = total_shares * min_size as u128;
    let floor: u128 = if min_product % total_points == 0 {
        min_product / total_points
    } else {
        min_product / total_points + 1
    };
    let asked: u128 = total_shares * target_in_points as u128 / total_points;
    let need: u128 = if asked <= most as u128 {
        asked
    } else {
        most as u128
    };
    assert(floor == floor_in_shares(old(shares)@, rects@, dir, children@, min_size as nat));
    assert(asked == target_in_shares(
        old(shares)@,
        rects@,
        dir,
        children@,
        target_in_points as nat,
    ));
    assert(need <= most);

    let mut lost: u128 = 0;
    let mut k: usize = 0;
    while k < n
        invariant
            k <= n,
            n == children@.len(),
            (shares@, lost as nat) == shrink_chain(
                old(shares)@,
                children@.take(k as int),
                floor as nat,
                need as nat,
            ),
            lost <= need,
        decreases n - k,
    {
        let child = children[k];
        let weight: u32 = shares.get(child);
        let spare: u128 = if weight as u128 > floor {
            weight as u128 - floor
        } else {
            0
        };
        let needed: u128 = need - lost;
        let by: u128 = if spare <= needed {
            spare
        } else {
            needed
        };
        proof {
            lemma_shrink_chain_step(old(shares)@, children@, floor as nat, need as nat, k as int);
        }
        shares.set(child, (weight as u128 - by) as u32);
        lost = lost + by;
        k += 1;
    }
    proof {
        assert(children@.take(n as int) =~= children@);
    }
    lost as u32
}

/// The children before handle `i`, the nearest first.
pub open spec fn chain_before(children: Seq<TileId>, i: int) -> Seq<TileId> {
    children.take(i + 1).reverse()
}

/// The children behind handle `i`, the nearest first.
pub open spec fn chain_after(children: Seq<TileId>, i: int) -> Seq<TileId> {
    children.skip(i + 1)
}

/// The shares after the weight of `id` has grown by `by`.
pub open spec fn grown(shares: Map<u64, u32>, id: TileId, by: nat) -> Map<u64, u32> {
    shares.insert(id.0, (weight_of(shares, id) + by) as u32)
}

/// The shares after two neighbours have both been given the mean of their weights.
pub open spec fn centered(shares: Map<u64, u32>, left: TileId, right: TileId) -> Map<u64, u32> {
    let mean = ((weight_of(shares, left) + weight_of(shares, right)) / 2) as u32;
    shares.insert(left.0, mean).insert(right.0, mean)
}

/// What the pointer's doing at handle `i`, between `left` and `right`, makes
/// of the shares, and the state in which it leaves the handle.
///
/// A double click centers the split. A drag by `dx` points shrinks the chain
/// of children on the side towards which the handle moves, and gives what
/// they lose to the neighbour on the other side: all of it, for the chain
/// loses no more than that neighbour has room for.
pub open spec fn resized(
    shares: Map<u64, u32>,
    rects: Map<u64, Rect>,
    dir: LinearDir,
    children: Seq<TileId>,
    response: SplitterResponse,
    left: TileId,
    right: TileId,
    dx: int,
    i: int,
    min_size: nat,
) -> (Map<u64, u32>, ResizeState) {
    if response.double_clicked {
        (centered(shares, left, right), ResizeState::Hovering)
    } else if response.dragged {
        if dx < 0 {
            let (shrunk_shares, lost) = shrunk(
                shares,
                rects,
                dir,
                chain_before(children, i),
                (-dx) as nat,
                min_size,
                room_of(shares, right),
            );
            (grown(shrunk_shares, right, lost), ResizeState::Dragging)
        } else {
            let (shrunk_shares, lost) = shrunk(
                shares,
                rects,
                dir,
                chain_after(children, i),
                dx as nat,
                min_size,
                room_of(shares, left),
            );
            (grown(shrunk_shares, left, lost), ResizeState::Dragging)
        }
    } else if response.hovered {
        (shares, ResizeState::Hovering)
    } else {
        (shares, ResizeState::Idle)
    }
}

/// The children up to and with child `i`, the last first.
pub fn reversed_prefix(children: &[TileId], i: usize) -> (chain: Vec<TileId>)
    requires
        i < children@.len(),
    ensures
        chain@ == chain_before(children@, i as int),
{
    let mut chain: Vec<TileId> = Vec::new();
    let mut k: usize = 0;
    while k <= i
        invariant
            k <= i + 1,
            i < children@.len(),
            chain@.len() == k,
            forall|j: int| 0 <= j < k ==> chain@[j] == children@[i - j],
        decreases i + 1 - k,
    {
        chain.push(children[i - k]);
        k += 1;
    }
    assert(chain@ =~= chain_before(children@, i as int));
    chain
}

/// The children behind child `i`, in order.
pub fn suffix_after(children: &[TileId], i: usize) -> (chain: Vec<TileId>)
    requires
        i < children@.len(),
    ensures
        chain@ == chain_after(children@, i as int),
{
    let mut chain: Vec<TileId> = Vec::new();
    let n = children.len();
    let mut k: usize = i + 1;
    while k < n
        invariant
            i + 1 <= k <= children@.len(),
            n == children@.len(),
            chain@.len() == k - i - 1,
            forall|j: int| 0 <= j < chain@.len() ==> chain@[j] == children@[i + 1 + j],
        decreases children@.len() - k,
    {
        chain.push(children[k]);
        k += 1;
    }
    assert(chain@ =~= chain_after(children@, i as int));
    chain
}

/// Adds `by` to the weight of a tile that has room for it.
fn grow_share(shares: &mut Shares, id: TileId, by: u32)
    requires
        weight_of(old(shares)@, id) + by <= u32::MAX,
    ensures
        final(shares)@ == grown(old(shares)@, id, by as nat),
{
    let weight: u32 = shares.get(id);
    shares.set(id, weight + by);
}

/// Applies what the pointer did at the resize handle `i`, which lies between
/// the neighbours `left` and `right`, to the shares of a linear container.
///
/// `dx` is how far, in points along the container's direction, the pointer is
/// from the handle's place of rest.
pub fn resize_interaction(
    shares: &mut Shares,
    children: &[TileId],
    response: SplitterResponse,
    pair: [TileId; 2],
    dx: i32,
    i: usize,
    min_size: u32,
    rects: &Rects,
    dir: LinearDir,
) -> (state: ResizeState)
    requires
        response.dragged && !response.double_clicked ==> i < children@.len(),
    ensures
        (final(shares)@, state) == resized(
            old(shares)@,
            rects@,
            dir,
            children@,
            response,
            pair[0],
            pair[1],
            dx as int,
            i as int,
            min_size as nat,
        ),
{
    let left = pair[0];
    let right = pair[1];
    if response.double_clicked {
        let mean: u32 = ((shares.get(left) as u64 + shares.get(right) as u64) / 2) as u32;
        shares.set(left, mean);
        shares.set(right, mean);
        ResizeState::Hovering
    } else if response.dragged {
        if dx < 0 {
            let chain = reversed_prefix(children, i);
            let target: u32 = (0 - dx as i64) as u32;
            let most: u32 = u32::MAX - shares.get(right);
            proof {
                lemma_shrunk_fits(
                    shares@,
                    rects@,
                    dir,
                    chain@,
                    target as nat,
                    min_size as nat,
                    right,
                );
            }
            let lost = shrink_shares(shares, chain.as_slice(), target, min_size, most, rects, dir);
            grow_share(shares, right, lost);
        } else {
            let chain = suffix_after(children, i);
            let most: u32 = u32::MAX - shares.get(left);
            proof {
                lemma_shrunk_fits(
                    shares@,
                    rects@,
                    dir,
                    chain@,
                    dx as nat,
                    min_size as nat,
                    left,
                );
            }
            let lost = shrink_shares(shares, chain.as_slice(), dx as u32, min_size, most, rects, dir);
            grow_share(shares, left, lost);
        }
        ResizeState::Dragging
    } else if response.hovered {
        ResizeState::Hovering
    } else {
        ResizeState::Idle
    }
}

/// Where the resize handle between two neighbours lies along the
/// container's direction: halfway between the end of the first and the start
/// of the second.
pub open spec fn handle_position(rects: Map<u64, Rect>, dir: LinearDir, left: TileId, right: TileId) -> int {
    match dir {
        LinearDir::Horizontal => midpoint(
            rect_of(rects, left).max.x as int,
            rect_of(rects, right).min.x as int,
        ),
        LinearDir::Vertical => midpoint(
            rect_of(rects, left).max.y as int,
            rect_of(rects, right).min.y as int,
        ),
    }
}

/// The strip in which the pointer takes hold of a resize handle: `grab`
/// points to either side of the handle along the container's direction, and
/// all of the container across it.
pub open spec fn handle_rect(parent: Rect, dir: LinearDir, position: int, grab: nat) -> Rect {
    match dir {
        LinearDir::Horizontal => Rect::spec_from_wide(
            position - grab,
            parent.min.y as int,
            position + grab,
            parent.max.y as int,
        ),
        LinearDir::Vertical => Rect::spec_from_wide(
            parent.min.x as int,
            position - grab,
            parent.max.x as int,
            position + grab,
        ),
    }
}

/// A resize handle between two neighbours.
#[derive(Clone, Copy, Debug, PartialEq, Eq, Structural)]
pub struct ResizeHandle {
    /// Where the handle lies along the container's direction.
    pub position: i32,
    /// The strip in which the pointer takes hold of it.
    pub rect: Rect,
}

/// The resize handle between the neighbours `left` and `right` of the
/// container `parent_id`, from the rectangles of the last layout.
pub fn resize_handle(
    rects: &Rects,
    parent_id: TileId,
    dir: LinearDir,
    left: TileId,
    right: TileId,
    grab_radius: u32,
) -> (handle: ResizeHandle)
    ensures
        handle.position == handle_position(rects@, dir, left, right),
        handle.rect == handle_rect(
            rect_of(rects@, parent_id),
            dir,
            handle.position as int,
            grab_radius as nat,
        ),
{
    let parent = rects.rect(parent_id);
    let left_rect = rects.rect(left);
    let right_rect = rects.rect(right);
    match dir {
        LinearDir::Horizontal => {
            let position = midpoint_of(left_rect.max.x, right_rect.min.x);
            let rect = Rect::from_wide(
                position as i64 - grab_radius as i64,
                parent.min.y as i64,
                position as i64 + grab_radius as i64,
                parent.max.y as i64,
            );
            ResizeHandle { position, rect }
        },
        LinearDir::Vertical => {
            let position = midpoint_of(left_rect.max.y, right_rect.min.y);
            let rect = Rect::from_wide(
                parent.min.x as i64,
                position as i64 - grab_radius as i64,
                parent.max.x as i64,
                position as i64 + grab_radius as i64,
            );
            ResizeHandle { position, rect }
        },
    }
}

/// Every child but the last, each with the child that follows it, in order.
pub open spec fn neighbour_pairs(children: Seq<TileId>) -> Seq<(TileId, TileId)> {
    Seq::new(
        if children.len() > 0 {
            (children.len() - 1) as nat
        } else {
            0
        },
        |i: int| (children[i], children[i + 1]),
    )
}

/// The neighbours among the given children: calls `Itertools::tuple_windows`
/// of itertools for windows of two.
///
/// Not proved: that the windows come in order, each child but the last
/// together with the child that follows it, and that fewer than two children
/// give no window.
#[verifier::external_body]
fn neighbours(children: &[TileId]) -> (pairs: Vec<(TileId, TileId)>)
    ensures
        pairs@ == neighbour_pairs(children@),
{
    children.iter().copied().tuple_windows().collect()
}

impl Linear {
    /// The resize handles of the container, one between every two
    /// neighbours, in order, from the rectangles of the last layout.
    pub fn resize_handles(&self, rects: &Rects, parent_id: TileId, grab_radius: u32) -> (handles:
        Vec<ResizeHandle>)
        ensures
            handles@.len() == neighbour_pairs(self@.children).len(),
            forall|i: int|
                0 <= i < handles@.len() ==> handles@[i].position == handle_position(
                    rects@,
                    self@.dir,
                    self@.children[i],
                    self@.children[i + 1],
                ) && handles@[i].rect == handle_rect(
                    rect_of(rects@, parent_id),
                    self@.dir,
                    handles@[i].position as int,
                    grab_radius as nat,
                ),
    {
        let pairs = neighbours(self.children.as_slice());
        let mut handles: Vec<ResizeHandle> = Vec::new();
        let mut i: usize = 0;
        while i < pairs.len()
            invariant
                i <= pairs@.len(),
                pairs@ == neighbour_pairs(self@.children),
                handles@.len() == i,
                forall|j: int|
                    0 <= j < i ==> handles@[j].position == handle_position(
                        rects@,
                        self@.dir,
                        self@.children[j],
                        self@.children[j + 1],
                    ) && handles@[j].rect == handle_rect(
                        rect_of(rects@, parent_id),
                        self@.dir,
                        handles@[j].position as int,
                        grab_radius as nat,
                    ),
            decreases pairs@.len() - i,
        {
            let (left, right) = pairs[i];
            handles.push(resize_handle(rects, parent_id, self.dir, left, right, grab_radius));
            i += 1;
        }
        handles
    }

    /// Applies what the pointer did at the handle behind child `i` to the
    /// shares of the container. `pointer` is where the pointer is along the
    /// container's direction.
    pub fn resize(
        &mut self,
        rects: &Rects,
        i: usize,
        response: SplitterResponse,
        pointer: i32,
        min_size: u32,
    ) -> (state: ResizeState)
        requires
            i + 1 < old(self)@.children.len(),
        ensures
            final(self)@.children == old(self)@.children,
            final(self)@.dir == old(self)@.dir,
            (final(self)@.shares, state) == resized(
                old(self)@.shares,
                rects@,
                old(self)@.dir,
                old(self)@.children,
                response,
                old(self)@.children[i as int],
                old(self)@.children[i + 1],
                clamp_coord(
                    pointer - handle_position(
                        rects@,
                        old(self)@.dir,
                        old(self)@.children[i as int],
                        old(self)@.children[i + 1],
                    ),
                ),
                i as int,
                min_size as nat,
            ),
    {
        let n = self.children.len();
        let left = self.children[i];
        let right = self.children[i + 1];
        let left_rect = rects.rect(left);
        let right_rect = rects.rect(right);
        let position = match self.dir {
            LinearDir::Horizontal => midpoint_of(left_rect.max.x, right_rect.min.x),
            LinearDir::Vertical => midpoint_of(left_rect.max.y, right_rect.min.y),
        };
        let dx = clamp_to_coord(pointer as i64 - position as i64);
        resize_interaction(
            &mut self.shares,
            self.children.as_slice(),
            response,
            [left, right],
            dx,
            i,
            min_size,
            rects,
            self.dir,
        )
    }
}

} // verus!
