use vstd::prelude::*;

use crate::simplification::SimplifyAction;
use crate::tile_id::TileId;

verus! {

/// The action for child `i`: the one given for it, or to keep it where none is given.
pub open spec fn action_at(actions: Seq<SimplifyAction>, i: int) -> SimplifyAction {
    if 0 <= i < actions.len() {
        actions[i]
    } else {
        SimplifyAction::Keep
    }
}

/// The children after each has met its action: those removed are gone, those
/// replaced have given their place to the replacement.
pub open spec fn simplified_children(children: Seq<TileId>, actions: Seq<SimplifyAction>) -> Seq<
    TileId,
>
    decreases children.len(),
{
    if children.len() == 0 {
        children
    } else {
        let before = simplified_children(children.drop_last(), actions);
        match action_at(actions, children.len() - 1) {
            SimplifyAction::Remove => before,
            SimplifyAction::Keep => before.push(children.last()),
            SimplifyAction::Replace(new) => before.push(new),
        }
    }
}

/// Whether the closure `keep` computes the predicate `p`: it can be called
/// on every tile, and whatever it returns for a tile is what `p` says of it.
pub open spec fn computes<F: Fn(TileId) -> bool>(keep: F, p: spec_fn(TileId) -> bool) -> bool {
    &&& forall|id: TileId| keep.requires((id,))
    &&& forall|id: TileId, b: bool| keep.ensures((id,), b) ==> b == p(id)
}

/// Whether `id` is among `children`.
pub fn contains_id(children: &[TileId], id: TileId) -> (found: bool)
    ensures
        found == children@.contains(id),
{
    let mut i: usize = 0;
    while i < children.len()
        invariant
            i <= children@.len(),
            forall|j: int| 0 <= j < i ==> children@[j] != id,
        decreases children@.len() - i,
    {
        if children[i] == id {
            return true;
        }
        i += 1;
    }
    false
}

/// A copy of a list of children.
pub fn copy_ids(children: &[TileId]) -> (copy: Vec<TileId>)
    ensures
        copy@ == children@,
{
    let mut copy: Vec<TileId> = Vec::new();
    let mut i: usize = 0;
    while i < children.len()
        invariant
            i <= children@.len(),
            copy@ == children@.take(i as int),
        decreases children@.len() - i,
    {
        copy.push(children[i]);
        assert(children@.take(i + 1) =~= children@.take(i as int).push(children@[i as int]));
        i += 1;
    }
    assert(children@.take(children@.len() as int) =~= children@);
    copy
}

/// Takes the children that `keep` rejects off a list.
pub fn retain_ids<F: Fn(TileId) -> bool>(children: &mut Vec<TileId>, keep: &F)
    requires
        forall|id: TileId| keep.requires((id,)),
    ensures
        forall|p: spec_fn(TileId) -> bool| #[trigger]
            computes(*keep, p) ==> final(children)@ == old(children)@.filter(p),
{
    let mut kept: Vec<TileId> = Vec::new();
    let mut i: usize = 0;
    proof {
        reveal(Seq::filter);
        assert(children@.take(0) =~= Seq::<TileId>::empty());
    }
    while i < children.len()
        invariant
            i <= children@.len(),
            *children == *old(children),
            forall|id: TileId| keep.requires((id,)),
            forall|p: spec_fn(TileId) -> bool| #[trigger]
                computes(*keep, p) ==> kept@ == children@.take(i as int).filter(p),
        decreases children@.len() - i,
    {
        let child = children[i];
        let stays = keep(child);
        let ghost before = kept@;
        if stays {
            kept.push(child);
        }
        proof {
            assert forall|p: spec_fn(TileId) -> bool| #[trigger] computes(*keep, p) implies kept@
                == children@.take(i + 1).filter(p) by {
                reveal(Seq::filter);
                assert(children@.take(i + 1).drop_last() =~= children@.take(i as int));
                assert(children@.take(i + 1).last() == child);
                assert(p(child) == stays);
                assert(before == children@.take(i as int).filter(p));
            }
        }
        i += 1;
    }
    proof {
        assert(children@.take(children@.len() as int) =~= children@);
    }
    *children = kept;
}

/// Applies to each child its action: takes it off the list, keeps it, or puts
/// another tile in its place. A child for which no action is given stays.
pub fn simplify_ids(children: &mut Vec<TileId>, actions: &[SimplifyAction])
    ensures
        final(children)@ == simplified_children(old(children)@, actions@),
{
    let mut out: Vec<TileId> = Vec::new();
    let mut i: usize = 0;
    proof {
        assert(children@.take(0) =~= Seq::<TileId>::empty());
    }
    while i < children.len()
        invariant
            i <= children@.len(),
            *children == *old(children),
            out@ == simplified_children(children@.take(i as int), actions@),
        decreases children@.len() - i,
    {
        let child = children[i];
        let action = if i < actions.len() {
            actions[i]
        } else {
            SimplifyAction::Keep
        };
        proof {
            assert(children@.take(i + 1).drop_last() =~= children@.take(i as int));
            assert(children@.take(i + 1).last() == child);
            assert(action == action_at(actions@, i as int));
        }
        match action {
            SimplifyAction::Remove => {},
            SimplifyAction::Keep => {
                out.push(child);
            },
            SimplifyAction::Replace(new) => {
                out.push(new);
            },
        }
        i += 1;
    }
    proof {
        assert(children@.take(children@.len() as int) =~= children@);
    }
    *children = out;
}

} // verus!
