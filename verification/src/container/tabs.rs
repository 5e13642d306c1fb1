use vstd::prelude::*;

use crate::container::children::{
    action_at, contains_id, computes, retain_ids, simplified_children, simplify_ids,
};
use crate::simplification::SimplifyAction;
use crate::tile_id::TileId;

verus! {

/// The tab that is shown once a container has made sure that one is: the
/// active tab where it is one of the children, else the first child, if any.
pub open spec fn ensured_active(children: Seq<TileId>, active: Option<TileId>) -> Option<TileId> {
    if active is Some && children.contains(active->0) {
        active
    } else if children.len() > 0 {
        Some(children[0])
    } else {
        None
    }
}

/// The active tab after each child has met its action: where the active tab
/// is replaced, its replacement is active.
pub open spec fn simplified_active(
    children: Seq<TileId>,
    actions: Seq<SimplifyAction>,
    active: Option<TileId>,
) -> Option<TileId>
    decreases children.len(),
{
    if children.len() == 0 {
        active
    } else {
        let before = simplified_active(children.drop_last(), actions, active);
        match action_at(actions, children.len() - 1) {
            SimplifyAction::Replace(new) => if before == Some(children.last()) {
                Some(new)
            } else {
                before
            },
            _ => before,
        }
    }
}

/// What a [`Tabs`] container holds.
pub struct TabsView {
    pub children: Seq<TileId>,
    pub active: Option<TileId>,
}

impl TabsView {
    /// The active tab, if there is one, is one of the children.
    pub open spec fn wf(self) -> bool {
        self.active is Some ==> self.children.contains(self.active->0)
    }

    /// The same container with `child` as its active tab, if it is one of the tabs.
    pub open spec fn with_active(self, child: TileId) -> TabsView {
        TabsView {
            active: if self.children.contains(child) {
                Some(child)
            } else {
                self.active
            },
            ..self
        }
    }

    /// The same container once it has made sure that a tab is active.
    pub open spec fn ensured(self) -> TabsView {
        TabsView { active: ensured_active(self.children, self.active), ..self }
    }
}

/// A container that shows one of its children at a time.
#[derive(Clone, Debug)]
pub struct Tabs {
    /// The tabs, in order.
    pub children: Vec<TileId>,
    /// The tab that is shown.
    pub active: Option<TileId>,
}

impl View for Tabs {
    type V = TabsView;

    open spec fn view(&self) -> TabsView {
        TabsView { children: self.children@, active: self.active }
    }
}

impl Tabs {
    /// A container with the given tabs, of which the first is active.
    pub fn new(children: Vec<TileId>) -> (t: Tabs)
        ensures
            t@ == (TabsView { children: children@, active: None }).ensured(),
            t@.wf(),
    {
        let active = if children.len() > 0 {
            Some(children[0])
        } else {
            None
        };
        Tabs { children, active }
    }

    /// Adds a tab at the end. The active tab stays active.
    pub fn add_child(&mut self, child: TileId)
        ensures
            final(self)@ == (TabsView { children: old(self)@.children.push(child), ..old(self)@ }),
            old(self)@.wf() ==> final(self)@.wf(),
    {
        self.children.push(child);
        proof {
            if old(self)@.wf() && self.active is Some {
                let a = self.active->0;
                let j = choose|j: int| 0 <= j < old(self)@.children.len() && old(self)@.children[j] == a;
                assert(self.children@[j] == a);
            }
        }
    }

    /// Makes `child` the active tab, if it is one of the tabs.
    pub fn set_active(&mut self, child: TileId)
        ensures
            final(self)@ == old(self)@.with_active(child),
            old(self)@.wf() ==> final(self)@.wf(),
    {
        if contains_id(self.children.as_slice(), child) {
            self.active = Some(child);
        }
    }

    /// Whether `child` is the active tab.
    pub fn is_active(&self, child: TileId) -> (b: bool)
        ensures
            b == (self@.active == Some(child)),
    {
        match self.active {
            Some(a) => a == child,
            None => false,
        }
    }

    /// Makes sure that a tab is active, if there is any tab.
    pub fn ensure_active(&mut self)
        ensures
            final(self)@ == old(self)@.ensured(),
            final(self)@.wf(),
    {
        let has_active = match self.active {
            Some(a) => contains_id(self.children.as_slice(), a),
            None => false,
        };
        if !has_active {
            if self.children.len() > 0 {
                self.active = Some(self.children[0]);
                assert(self.children@.contains(self.children@[0]));
            } else {
                self.active = None;
            }
        }
    }

    /// Makes sure that a tab is active, and says which: that tab gets the
    /// container's whole rectangle, the others none.
    pub fn layout(&mut self) -> (shown: Option<TileId>)
        ensures
            final(self)@ == old(self)@.ensured(),
            shown == final(self)@.active,
    {
        self.ensure_active();
        self.active
    }

    /// Takes the tabs that `keep` rejects off the list. The active tab stays
    /// what it was, also where it has left: the next layout chooses another.
    pub fn retain<F: Fn(TileId) -> bool>(&mut self, keep: &F)
        requires
            forall|id: TileId| keep.requires((id,)),
        ensures
            forall|p: spec_fn(TileId) -> bool| #[trigger]
                computes(*keep, p) ==> final(self)@ == (TabsView {
                    children: old(self)@.children.filter(p),
                    ..old(self)@
                }),
    {
        retain_ids(&mut self.children, keep);
    }

    /// Applies to each tab its action; the replacement of the active tab is
    /// active. Where the active tab is removed, the next layout chooses another.
    pub fn simplify_children(&mut self, actions: &[SimplifyAction])
        ensures
            final(self)@ == (TabsView {
                children: simplified_children(old(self)@.children, actions@),
                active: simplified_active(old(self)@.children, actions@, old(self)@.active),
            }),
    {
        let mut active = self.active;
        let mut i: usize = 0;
        proof {
            assert(self.children@.take(0) =~= Seq::<TileId>::empty());
        }
        while i < self.children.len()
            invariant
                i <= self.children@.len(),
                *self == *old(self),
                active == simplified_active(self.children@.take(i as int), actions@, self.active),
            decreases self.children@.len() - i,
        {
            let child = self.children[i];
            proof {
                assert(self.children@.take(i + 1).drop_last() =~= self.children@.take(i as int));
                assert(self.children@.take(i + 1).last() == child);
            }
            if i < actions.len() {
                if let SimplifyAction::Replace(new) = actions[i] {
                    if active == Some(child) {
                        active = Some(new);
                    }
                }
            }
            i += 1;
        }
        proof {
            assert(self.children@.take(self.children@.len() as int) =~= self.children@);
        }
        simplify_ids(&mut self.children, actions);
        self.active = active;
    }
}

} // verus!
