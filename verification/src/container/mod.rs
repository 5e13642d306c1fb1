use vstd::prelude::*;

use crate::geometry::Rect;
use crate::simplification::SimplifyAction;
use crate::tile_id::TileId;

pub mod children;
pub mod drop_zones;
pub mod grid;
pub mod linear;
pub mod resize;
pub mod shares;
pub mod tabs;

pub use children::{computes, simplified_children};
pub use grid::{Grid, GridView};
pub use linear::{simplified_shares, Linear, LinearDir, LinearView};
pub use shares::Shares;
pub use tabs::{simplified_active, Tabs, TabsView};

verus! {

/// The layout type of a [`Container`].
#[derive(Clone, Copy, Debug, PartialEq, Eq, Structural)]
pub enum ContainerKind {
    /// Each child in a tab of its own.
    Tabs,
    /// Left to right.
    Horizontal,
    /// Top down.
    Vertical,
    /// In a grid, row by row.
    Grid,
}

impl Default for ContainerKind {
    fn default() -> (k: ContainerKind)
        ensures
            k == ContainerKind::Tabs,
    {
        ContainerKind::Tabs
    }
}

impl ContainerKind {
    /// All four kinds.
    pub fn all() -> (kinds: [ContainerKind; 4])
        ensures
            kinds@ == seq![
                ContainerKind::Tabs,
                ContainerKind::Horizontal,
                ContainerKind::Vertical,
                ContainerKind::Grid,
            ],
    {
        let kinds = [
            ContainerKind::Tabs,
            ContainerKind::Horizontal,
            ContainerKind::Vertical,
            ContainerKind::Grid,
        ];
        assert(kinds@ =~= seq![
            ContainerKind::Tabs,
            ContainerKind::Horizontal,
            ContainerKind::Vertical,
            ContainerKind::Grid,
        ]);
        kinds
    }
}

/// What a [`Container`] holds.
pub enum ContainerView {
    Tabs(TabsView),
    Linear(LinearView),
    Grid(GridView),
}

/// Each child with its rectangle, in order.
pub open spec fn placed(children: Seq<TileId>, rects: Seq<Rect>) -> Seq<(TileId, Rect)> {
    Seq::new(children.len(), |i: int| (children[i], rects[i]))
}

impl ContainerView {
    /// A container of the given kind with the given children, in the state in
    /// which it is made.
    pub open spec fn of_kind(kind: ContainerKind, children: Seq<TileId>) -> ContainerView {
        match kind {
            ContainerKind::Tabs => ContainerView::Tabs(
                (TabsView { children, active: None }).ensured(),
            ),
            ContainerKind::Horizontal => ContainerView::Linear(
                LinearView { children, dir: LinearDir::Horizontal, shares: Map::empty() },
            ),
            ContainerKind::Vertical => ContainerView::Linear(
                LinearView { children, dir: LinearDir::Vertical, shares: Map::empty() },
            ),
            ContainerKind::Grid => ContainerView::Grid(GridView { children }),
        }
    }

    /// The children, in order.
    pub open spec fn children(self) -> Seq<TileId> {
        match self {
            ContainerView::Tabs(tabs) => tabs.children,
            ContainerView::Linear(linear) => linear.children,
            ContainerView::Grid(grid) => grid.children,
        }
    }

    /// The layout type of the container.
    pub open spec fn kind(self) -> ContainerKind {
        match self {
            ContainerView::Tabs(_) => ContainerKind::Tabs,
            ContainerView::Linear(linear) => match linear.dir {
                LinearDir::Horizontal => ContainerKind::Horizontal,
                LinearDir::Vertical => ContainerKind::Vertical,
            },
            ContainerView::Grid(_) => ContainerKind::Grid,
        }
    }

    /// The same container with other children, and all else as it was.
    pub open spec fn with_children(self, children: Seq<TileId>) -> ContainerView {
        match self {
            ContainerView::Tabs(tabs) => ContainerView::Tabs(TabsView { children, ..tabs }),
            ContainerView::Linear(linear) => ContainerView::Linear(
                LinearView { children, ..linear },
            ),
            ContainerView::Grid(_) => ContainerView::Grid(GridView { children }),
        }
    }

    /// The container after the children that `keep` rejects have left it.
    /// All else stays as it was: a tab container keeps its active tab, also
    /// where that tab has left, until the next layout chooses another.
    pub open spec fn retained(self, keep: spec_fn(TileId) -> bool) -> ContainerView {
        self.with_children(self.children().filter(keep))
    }

    /// The container after each child has met its action. Nothing else of it
    /// changes: a tab container whose active tab is removed keeps naming it
    /// until the next layout chooses another.
    pub open spec fn simplified(self, actions: Seq<SimplifyAction>) -> ContainerView {
        match self {
            ContainerView::Tabs(tabs) => ContainerView::Tabs(
                TabsView {
                    children: simplified_children(tabs.children, actions),
                    active: simplified_active(tabs.children, actions, tabs.active),
                },
            ),
            ContainerView::Linear(linear) => ContainerView::Linear(
                LinearView {
                    children: simplified_children(linear.children, actions),
                    dir: linear.dir,
                    shares: simplified_shares(linear.shares, linear.children, actions),
                },
            ),
            ContainerView::Grid(grid) => ContainerView::Grid(
                GridView { children: simplified_children(grid.children, actions) },
            ),
        }
    }

    /// The container after `child` has gone into it at `index`, or at the
    /// end where the index lies behind it. In a tab container the new child
    /// is the active tab.
    pub open spec fn inserted(self, index: nat, child: TileId) -> ContainerView {
        let at = if index < self.children().len() {
            index as int
        } else {
            self.children().len() as int
        };
        match self {
            ContainerView::Tabs(tabs) => ContainerView::Tabs(
                TabsView { children: tabs.children.insert(at, child), active: Some(child) },
            ),
            _ => self.with_children(self.children().insert(at, child)),
        }
    }

    /// The container of another kind with the same children; the same
    /// container where it has that kind already.
    pub open spec fn with_kind(self, kind: ContainerKind) -> ContainerView {
        if kind == self.kind() {
            self
        } else {
            Self::of_kind(kind, self.children())
        }
    }

    /// The container after a layout pass: a tab container has made sure that
    /// a tab is active, a linear container has dropped its stale shares. A
    /// container without children is left alone.
    pub open spec fn laid_out(self) -> ContainerView {
        if self.children().len() == 0 {
            self
        } else {
            match self {
                ContainerView::Tabs(tabs) => ContainerView::Tabs(tabs.ensured()),
                ContainerView::Linear(linear) => ContainerView::Linear(linear.purged()),
                ContainerView::Grid(_) => self,
            }
        }
    }

    /// The children that a layout pass places, each with its rectangle, when
    /// the container itself has the rectangle `rect`. A tab container places
    /// its active tab only, and gives it all of `rect`.
    pub open spec fn placements(self, rect: Rect, gap: nat) -> Seq<(TileId, Rect)> {
        match self {
            ContainerView::Tabs(tabs) => match tabs.ensured().active {
                Some(active) => seq![(active, rect)],
                None => Seq::empty(),
            },
            ContainerView::Linear(linear) => placed(
                linear.children,
                linear.child_rects(rect, gap),
            ),
            ContainerView::Grid(grid) => placed(grid.children, grid.child_rects(rect, gap)),
        }
    }
}

/// A container of several tiles.
#[derive(Clone, Debug)]
pub enum Container {
    Tabs(Tabs),
    Linear(Linear),
    Grid(Grid),
}

impl View for Container {
    type V = ContainerView;

    open spec fn view(&self) -> ContainerView {
        match self {
            Container::Tabs(tabs) => ContainerView::Tabs(tabs@),
            Container::Linear(linear) => ContainerView::Linear(linear@),
            Container::Grid(grid) => ContainerView::Grid(grid@),
        }
    }
}

impl From<Tabs> for Container {
    fn from(tabs: Tabs) -> (c: Container) {
        Container::Tabs(tabs)
    }
}

impl vstd::std_specs::convert::FromSpecImpl<Tabs> for Container {
    open spec fn obeys_from_spec() -> bool {
        true
    }

    open spec fn from_spec(tabs: Tabs) -> Container {
        Container::Tabs(tabs)
    }
}

impl From<Linear> for Container {
    fn from(linear: Linear) -> (c: Container) {
        Container::Linear(linear)
    }
}

impl vstd::std_specs::convert::FromSpecImpl<Linear> for Container {
    open spec fn obeys_from_spec() -> bool {
        true
    }

    open spec fn from_spec(linear: Linear) -> Container {
        Container::Linear(linear)
    }
}

impl From<Grid> for Container {
    fn from(grid: Grid) -> (c: Container) {
        Container::Grid(grid)
    }
}

impl vstd::std_specs::convert::FromSpecImpl<Grid> for Container {
    open spec fn obeys_from_spec() -> bool {
        true
    }

    open spec fn from_spec(grid: Grid) -> Container {
        Container::Grid(grid)
    }
}

fn pair_up(children: &[TileId], rects: &Vec<Rect>) -> (pairs: Vec<(TileId, Rect)>)
    requires
        children@.len() == rects@.len(),
    ensures
        pairs@ == placed(children@, rects@),
{
    let mut pairs: Vec<(TileId, Rect)> = Vec::new();
    let mut i: usize = 0;
    while i < children.len()
        invariant
            i <= children@.len(),
            children@.len() == rects@.len(),
            pairs@.len() == i,
            forall|j: int| 0 <= j < i ==> pairs@[j] == (children@[j], rects@[j]),
        decreases children@.len() - i,
    {
        pairs.push((children[i], rects[i]));
        i += 1;
    }
    assert(pairs@ =~= placed(children@, rects@));
    pairs
}

impl Container {
    /// A container of the given kind with the given children.
    pub fn new(typ: ContainerKind, children: Vec<TileId>) -> (c: Container)
        ensures
            c@ == ContainerView::of_kind(typ, children@),
    {
        match typ {
            ContainerKind::Tabs => Self::new_tabs(children),
            ContainerKind::Horizontal => Self::new_horizontal(children),
            ContainerKind::Vertical => Self::new_vertical(children),
            ContainerKind::Grid => Self::new_grid(children),
        }
    }

    /// A linear container of the given direction.
    pub fn new_linear(dir: LinearDir, children: Vec<TileId>) -> (c: Container)
        ensures
            c@ == ContainerView::Linear(
                LinearView { children: children@, dir, shares: Map::empty() },
            ),
    {
        Container::Linear(Linear::new(dir, children))
    }

    /// A container that places its children from left to right.
    pub fn new_horizontal(children: Vec<TileId>) -> (c: Container)
        ensures
            c@ == ContainerView::of_kind(ContainerKind::Horizontal, children@),
    {
        Self::new_linear(LinearDir::Horizontal, children)
    }

    /// A container that places its children from top to bottom.
    pub fn new_vertical(children: Vec<TileId>) -> (c: Container)
        ensures
            c@ == ContainerView::of_kind(ContainerKind::Vertical, children@),
    {
        Self::new_linear(LinearDir::Vertical, children)
    }

    /// A container that shows each child in a tab; the first tab is active.
    pub fn new_tabs(children: Vec<TileId>) -> (c: Container)
        ensures
            c@ == ContainerView::of_kind(ContainerKind::Tabs, children@),
    {
        Container::Tabs(Tabs::new(children))
    }

    /// A container that places its children in a grid.
    pub fn new_grid(children: Vec<TileId>) -> (c: Container)
        ensures
            c@ == ContainerView::of_kind(ContainerKind::Grid, children@),
    {
        Container::Grid(Grid::new(children))
    }

    /// Whether the container has no children.
    pub fn is_empty(&self) -> (b: bool)
        ensures
            b == (self@.children().len() == 0),
    {
        self.children().len() == 0
    }

    /// The children, in order.
    pub fn children(&self) -> (list: &[TileId])
        ensures
            list@ == self@.children(),
    {
        match self {
            Container::Tabs(tabs) => tabs.children.as_slice(),
            Container::Linear(linear) => linear.children.as_slice(),
            Container::Grid(grid) => grid.children.as_slice(),
        }
    }

    /// The only child of a container that has exactly one.
    pub fn only_child(&self) -> (child: Option<TileId>)
        ensures
            child == (if self@.children().len() == 1 {
                Some(self@.children()[0])
            } else {
                None
            }),
    {
        let list = self.children();
        if list.len() == 1 {
            Some(list[0])
        } else {
            None
        }
    }

    /// Adds a child at the end.
    pub fn add_child(&mut self, child: TileId)
        ensures
            final(self)@ == old(self)@.with_children(old(self)@.children().push(child)),
    {
        match self {
            Container::Tabs(tabs) => tabs.add_child(child),
            Container::Linear(linear) => linear.add_child(child),
            Container::Grid(grid) => grid.add_child(child),
        }
    }

    /// Puts `child` among the children at `index`, or at the end where the
    /// index lies behind it. In a tab container the new child becomes the
    /// active tab.
    pub fn insert_child(&mut self, index: usize, child: TileId)
        ensures
            final(self)@ == old(self)@.inserted(index as nat, child),
    {
        match self {
            Container::Tabs(tabs) => {
                let at = if index < tabs.children.len() {
                    index
                } else {
                    tabs.children.len()
                };
                tabs.children.insert(at, child);
                tabs.active = Some(child);
            },
            Container::Linear(linear) => {
                let at = if index < linear.children.len() {
                    index
                } else {
                    linear.children.len()
                };
                linear.children.insert(at, child);
            },
            Container::Grid(grid) => {
                let at = if index < grid.children.len() {
                    index
                } else {
                    grid.children.len()
                };
                grid.children.insert(at, child);
            },
        }
    }

    /// The layout type of the container.
    pub fn kind(&self) -> (k: ContainerKind)
        ensures
            k == self@.kind(),
    {
        match self {
            Container::Tabs(_) => ContainerKind::Tabs,
            Container::Linear(linear) => match linear.dir {
                LinearDir::Horizontal => ContainerKind::Horizontal,
                LinearDir::Vertical => ContainerKind::Vertical,
            },
            Container::Grid(_) => ContainerKind::Grid,
        }
    }

    /// Turns the container into one of another kind, with the same children.
    pub fn set_kind(&mut self, kind: ContainerKind)
        ensures
            final(self)@ == old(self)@.with_kind(kind),
    {
        if kind == self.kind() {
            return ;
        }
        let list = children::copy_ids(self.children());
        *self = Self::new(kind, list);
    }

    /// Takes the children that `keep` rejects off the list, and changes
    /// nothing else.
    pub fn retain<F: Fn(TileId) -> bool>(&mut self, keep: &F)
        requires
            forall|id: TileId| keep.requires((id,)),
        ensures
            forall|p: spec_fn(TileId) -> bool| #[trigger]
                computes(*keep, p) ==> final(self)@ == old(self)@.retained(p),
    {
        match self {
            Container::Tabs(tabs) => tabs.retain(keep),
            Container::Linear(linear) => linear.retain(keep),
            Container::Grid(grid) => grid.retain(keep),
        }
    }

    /// Applies to each child the action that simplifying it asked for. A
    /// child for which `actions` holds none stays.
    pub fn simplify_children(&mut self, actions: &[SimplifyAction])
        ensures
            final(self)@ == old(self)@.simplified(actions@),
    {
        match self {
            Container::Tabs(tabs) => tabs.simplify_children(actions),
            Container::Linear(linear) => linear.simplify_children(actions),
            Container::Grid(grid) => grid.simplify_children(actions),
        }
    }

    /// Gives each child that is shown its rectangle inside `rect`. A
    /// container without children does nothing.
    pub fn layout(&mut self, rect: Rect, gap: u32) -> (placements: Vec<(TileId, Rect)>)
        ensures
            final(self)@ == old(self)@.laid_out(),
            placements@ == old(self)@.placements(rect, gap as nat),
    {
        if self.is_empty() {
            let placements: Vec<(TileId, Rect)> = Vec::new();
            assert(placements@ =~= self@.placements(rect, gap as nat));
            return placements;
        }
        match self {
            Container::Tabs(tabs) => {
                let mut placements: Vec<(TileId, Rect)> = Vec::new();
                if let Some(active) = tabs.layout() {
                    placements.push((active, rect));
                    assert(placements@ =~= seq![(active, rect)]);
                }
                placements
            },
            Container::Linear(linear) => {
                let rects = linear.layout(rect, gap);
                pair_up(linear.children.as_slice(), &rects)
            },
            Container::Grid(grid) => {
                let rects = grid.layout(rect, gap);
                pair_up(grid.children.as_slice(), &rects)
            },
        }
    }
}

} // verus!
