use std::collections::HashMap;
use vstd::prelude::*;

use crate::container::children::computes;
use crate::container::shares::keys_of;
use crate::container::{Container, ContainerKind, ContainerView};
use crate::drop_context::InsertionPoint;
use crate::geometry::{rect_of, Rect, Rects};
use crate::tile_id::TileId;

verus! {

/// A tile: either a pane, which holds what the user shows in it, or a
/// container of other tiles.
#[derive(Clone, Debug)]
pub enum Tile<Pane> {
    Pane(Pane),
    Container(Container),
}

/// What a [`Tile`] holds.
pub enum TileView<Pane> {
    Pane(Pane),
    Container(ContainerView),
}

impl<Pane> TileView<Pane> {
    /// The kind of container that the tile is, if it is one.
    pub open spec fn kind(self) -> Option<ContainerKind> {
        match self {
            TileView::Pane(_) => None,
            TileView::Container(container) => Some(container.kind()),
        }
    }

    /// The children of the tile; a pane has none.
    pub open spec fn children(self) -> Seq<TileId> {
        match self {
            TileView::Pane(_) => Seq::empty(),
            TileView::Container(container) => container.children(),
        }
    }
}

impl<Pane> View for Tile<Pane> {
    type V = TileView<Pane>;

    open spec fn view(&self) -> TileView<Pane> {
        match self {
            Tile::Pane(pane) => TileView::Pane(*pane),
            Tile::Container(container) => TileView::Container(container@),
        }
    }
}

impl<Pane> Tile<Pane> {
    /// The kind of container that the tile is, if it is one.
    pub fn kind(&self) -> (k: Option<ContainerKind>)
        ensures
            k == self@.kind(),
    {
        match self {
            Tile::Pane(_) => None,
            Tile::Container(container) => Some(container.kind()),
        }
    }

    /// Whether the tile is a pane.
    pub fn is_pane(&self) -> (b: bool)
        ensures
            b == (self@ is Pane),
    {
        match self {
            Tile::Pane(_) => true,
            Tile::Container(_) => false,
        }
    }

    /// Whether the tile is a container.
    pub fn is_container(&self) -> (b: bool)
        ensures
            b == (self@ is Container),
    {
        match self {
            Tile::Pane(_) => false,
            Tile::Container(_) => true,
        }
    }
}

/// The tiles other than `id`.
pub open spec fn other_than(id: TileId) -> spec_fn(TileId) -> bool {
    |child: TileId| child != id
}

/// A tile after `id` has left its children. Nothing else of it changes.
pub open spec fn without_child<Pane>(tile: TileView<Pane>, id: TileId) -> TileView<Pane> {
    match tile {
        TileView::Pane(_) => tile,
        TileView::Container(container) => TileView::Container(
            container.retained(other_than(id)),
        ),
    }
}

/// The tiles after `id` has left the children of every container. The tile
/// itself stays in the store.
pub open spec fn detached<Pane>(tiles: Map<u64, TileView<Pane>>, id: TileId) -> Map<
    u64,
    TileView<Pane>,
> {
    tiles.map_values(|tile: TileView<Pane>| without_child(tile, id))
}

/// The tiles after `child` has gone to the insertion point `point`.
///
/// Where the parent is a container of the kind that the insertion names, the
/// child goes among its children. Where it is another tile, that tile moves
/// to the new identifier `fresh`, and under the parent's identifier stands a
/// new container of the kind named, which holds the moved tile and the child.
/// Where the store holds no tile under the parent's identifier, nothing changes.
pub open spec fn inserted_at<Pane>(
    tiles: Map<u64, TileView<Pane>>,
    fresh: u64,
    point: InsertionPoint,
    child: TileId,
) -> Map<u64, TileView<Pane>> {
    let parent = point.parent_id.0;
    let kind = point.insertion.spec_kind();
    let index = point.insertion.spec_index() as nat;
    if !tiles.contains_key(parent) {
        tiles
    } else if tiles[parent] is Container && tiles[parent]->Container_0.kind() == kind {
        tiles.insert(
            parent,
            TileView::Container(tiles[parent]->Container_0.inserted(index, child)),
        )
    } else {
        tiles.insert(fresh, tiles[parent]).insert(
            parent,
            TileView::Container(
                ContainerView::of_kind(kind, seq![TileId(fresh)]).inserted(index, child),
            ),
        )
    }
}

/// Whether putting a tile at the insertion point makes a new container around
/// the tile that is there: the store holds the parent, and it is no container
/// of the kind that the insertion names.
pub open spec fn wraps_parent<Pane>(tiles: Map<u64, TileView<Pane>>, point: InsertionPoint) -> bool {
    tiles.contains_key(point.parent_id.0) && !(tiles[point.parent_id.0] is Container
        && tiles[point.parent_id.0]->Container_0.kind() == point.insertion.spec_kind())
}

/// Whether the tile under `parent` is a container that names `child` among
/// its children.
pub open spec fn is_parent_of<Pane>(tiles: Map<u64, TileView<Pane>>, parent: u64, child: TileId) -> bool {
    tiles.contains_key(parent) && tiles[parent].children().contains(child)
}

/// Whether `id` occurs exactly once in `children`.
pub open spec fn occurs_once(children: Seq<TileId>, id: TileId) -> bool {
    exists|i: int|
        0 <= i < children.len() && children[i] == id && forall|j: int|
            0 <= j < children.len() && children[j] == id ==> j == i
}

/// After `id` has left a list of children, it is not in the list.
pub proof fn lemma_filter_drops(children: Seq<TileId>, id: TileId)
    ensures
        !children.filter(other_than(id)).contains(id),
{
    let kept = children.filter(other_than(id));
    if kept.contains(id) {
        let i = choose|i: int| 0 <= i < kept.len() && kept[i] == id;
        children.lemma_filter_pred(other_than(id), i);
    }
}

/// A list of children in which `id` is not loses nothing when `id` leaves it.
pub proof fn lemma_filter_keeps(children: Seq<TileId>, id: TileId)
    requires
        !children.contains(id),
    ensures
        children.filter(other_than(id)) == children,
    decreases children.len(),
{
    reveal(Seq::filter);
    if children.len() > 0 {
        assert forall|i: int| 0 <= i < children.drop_last().len() implies children.drop_last()[i]
            != id by {
            assert(children[i] == children.drop_last()[i]);
            assert(children.contains(children[i]));
        }
        lemma_filter_keeps(children.drop_last(), id);
        assert(children.contains(children.last()));
        assert(children.drop_last().push(children.last()) =~= children);
    }
}

/// Detaching a tile that no container names changes nothing.
pub proof fn lemma_detach_unlisted<Pane>(tiles: Map<u64, TileView<Pane>>, id: TileId)
    requires
        forall|k: u64| !is_parent_of(tiles, k, id),
    ensures
        detached(tiles, id) == tiles,
{
    assert forall|k: u64| tiles.contains_key(k) implies without_child(tiles[k], id)
        == tiles[k] by {
        assert(!is_parent_of(tiles, k, id));
        lemma_filter_keeps(tiles[k].children(), id);
        match tiles[k] {
            TileView::Pane(_) => {},
            TileView::Container(container) => {
                match container {
                    ContainerView::Tabs(_) => {},
                    ContainerView::Linear(_) => {},
                    ContainerView::Grid(_) => {},
                }
            },
        }
    }
    assert(detached(tiles, id) =~= tiles);
}

/// Detaching a tile a second time changes nothing.
pub proof fn lemma_detach_twice<Pane>(tiles: Map<u64, TileView<Pane>>, id: TileId)
    ensures
        detached(detached(tiles, id), id) == detached(tiles, id),
{
    lemma_detached_has_no_parent(tiles, id);
    lemma_detach_unlisted(detached(tiles, id), id);
}

/// After a detach, no container names the tile.
pub proof fn lemma_detached_has_no_parent<Pane>(tiles: Map<u64, TileView<Pane>>, id: TileId)
    ensures
        forall|k: u64| !is_parent_of(detached(tiles, id), k, id),
        detached(tiles, id).dom() == tiles.dom(),
{
    assert forall|k: u64| !is_parent_of(detached(tiles, id), k, id) by {
        if tiles.contains_key(k) {
            lemma_filter_drops(tiles[k].children(), id);
        }
    }
    assert(detached(tiles, id).dom() =~= tiles.dom());
}

/// A tile that goes into a list in which it is not is in it exactly once.
pub proof fn lemma_inserted_once(container: ContainerView, index: nat, id: TileId)
    requires
        !container.children().contains(id),
    ensures
        occurs_once(container.inserted(index, id).children(), id),
{
    let before = container.children();
    let at = if index < before.len() {
        index as int
    } else {
        before.len() as int
    };
    let after = container.inserted(index, id).children();
    assert(after =~= before.insert(at, id));
    assert(after[at] == id);
    assert forall|j: int| 0 <= j < after.len() && after[j] == id implies j == at by {
        if j < at {
            assert(before[j] == after[j]);
            assert(before.contains(id));
        } else if j > at {
            assert(before[j - 1] == after[j]);
            assert(before.contains(id));
        }
    }
}

/// What a detach leaves of each tile: a container keeps its children but
/// `id`, in their order, and a pane stays as it is. No tile leaves the store.
pub proof fn lemma_detached_children<Pane>(tiles: Map<u64, TileView<Pane>>, id: TileId, k: u64)
    requires
        tiles.contains_key(k),
    ensures
        detached(tiles, id).dom() == tiles.dom(),
        detached(tiles, id)[k].children() == tiles[k].children().filter(other_than(id)),
        detached(tiles, id)[k].kind() == tiles[k].kind(),
        tiles[k] is Pane ==> detached(tiles, id)[k] == tiles[k],
{
    assert(detached(tiles, id).dom() =~= tiles.dom());
    reveal(Seq::filter);
    match tiles[k] {
        TileView::Pane(_) => {
            assert(tiles[k].children().filter(other_than(id)) =~= Seq::<TileId>::empty());
        },
        TileView::Container(container) => {
            match container {
                ContainerView::Tabs(_) => {},
                ContainerView::Linear(_) => {},
                ContainerView::Grid(_) => {},
            }
        },
    }
}

/// A tile that goes in at an index behind the last child goes to the end.
pub proof fn lemma_inserted_behind_end(container: ContainerView, index: nat, child: TileId)
    requires
        index >= container.children().len(),
    ensures
        container.inserted(index, child).children() == container.children().push(child),
        container.inserted(index, child).kind() == container.kind(),
{
    let children = container.children();
    assert(children.insert(children.len() as int, child) =~= children.push(child));
    match container {
        ContainerView::Tabs(_) => {},
        ContainerView::Linear(_) => {},
        ContainerView::Grid(_) => {},
    }
}

/// Moving a tile behind the last child of a container of the kind that the
/// insertion names puts it at the end: the container then has the children
/// that it had, without the tile, and behind them the tile. Every other tile
/// of the store keeps its children but the tile, in their order, and the
/// tile itself stays in the store.
pub proof fn lemma_move_behind_last<Pane>(
    tiles: Map<u64, TileView<Pane>>,
    fresh: u64,
    point: InsertionPoint,
    id: TileId,
)
    requires
        tiles.contains_key(point.parent_id.0),
        tiles[point.parent_id.0].kind() == Some(point.insertion.spec_kind()),
        point.insertion.spec_index() >= tiles[point.parent_id.0].children().filter(
            other_than(id),
        ).len(),
    ensures
        inserted_at(detached(tiles, id), fresh, point, id).dom() == tiles.dom(),
        inserted_at(detached(tiles, id), fresh, point, id)[point.parent_id.0].children()
            == tiles[point.parent_id.0].children().filter(other_than(id)).push(id),
        forall|k: u64|
            tiles.contains_key(k) && k != point.parent_id.0 ==> #[trigger] inserted_at(
                detached(tiles, id),
                fresh,
                point,
                id,
            )[k] == without_child(tiles[k], id),
        !tiles[point.parent_id.0].children().contains(id) ==> inserted_at(
            detached(tiles, id),
            fresh,
            point,
            id,
        )[point.parent_id.0].children() == tiles[point.parent_id.0].children().push(id),
        tiles.contains_key(id.0) && tiles[id.0] is Pane ==> inserted_at(
            detached(tiles, id),
            fresh,
            point,
            id,
        )[id.0] == tiles[id.0],
{
    let loose = detached(tiles, id);
    let parent = point.parent_id.0;
    if !tiles[parent].children().contains(id) {
        lemma_filter_keeps(tiles[parent].children(), id);
    }
    lemma_detached_children(tiles, id, parent);
    let container = loose[parent]->Container_0;
    lemma_inserted_behind_end(container, point.insertion.spec_index() as nat, id);
    assert(inserted_at(loose, fresh, point, id).dom() =~= tiles.dom());
}

/// Moving a tile leaves it with exactly one parent: once a tile of the store
/// has left all containers and has gone to an insertion point whose parent
/// the store holds, the container under that parent's identifier names it,
/// names it once, and no other container names it.
pub proof fn lemma_move_gives_one_parent<Pane>(
    tiles: Map<u64, TileView<Pane>>,
    fresh: u64,
    point: InsertionPoint,
    id: TileId,
)
    requires
        tiles.contains_key(point.parent_id.0),
        tiles.contains_key(id.0),
        !tiles.contains_key(fresh),
    ensures
        forall|k: u64|
            is_parent_of(inserted_at(detached(tiles, id), fresh, point, id), k, id) <==> k
                == point.parent_id.0,
        occurs_once(
            inserted_at(detached(tiles, id), fresh, point, id)[point.parent_id.0].children(),
            id,
        ),
{
    let loose = detached(tiles, id);
    let after = inserted_at(loose, fresh, point, id);
    let parent = point.parent_id.0;
    let kind = point.insertion.spec_kind();
    let index = point.insertion.spec_index() as nat;
    lemma_detached_has_no_parent(tiles, id);
    assert(loose.contains_key(parent));
    assert(!is_parent_of(loose, parent, id));
    if loose[parent] is Container && loose[parent]->Container_0.kind() == kind {
        lemma_inserted_once(loose[parent]->Container_0, index, id);
    } else {
        let wrapper = ContainerView::of_kind(kind, seq![TileId(fresh)]);
        assert(wrapper.children() =~= seq![TileId(fresh)]);
        assert(!wrapper.children().contains(id));
        lemma_inserted_once(wrapper, index, id);
    }
    assert forall|k: u64| is_parent_of(after, k, id) <==> k == parent by {
        if k != parent {
            assert(!is_parent_of(loose, k, id));
            if k == fresh {
                assert(!is_parent_of(loose, parent, id));
            }
        } else {
            let children = after[parent].children();
            let i = choose|i: int|
                0 <= i < children.len() && children[i] == id && forall|j: int|
                    0 <= j < children.len() && children[j] == id ==> j == i;
            assert(children[i] == id);
        }
    }
}

/// The tiles of a tree, each under its identifier, and the rectangles that
/// the last layout pass gave them.
///
/// Containers name their children by identifier; the store alone owns the
/// tiles. It may hold tiles that no container names.
#[derive(Clone, Debug)]
pub struct Tiles<Pane> {
    tiles: HashMap<u64, Tile<Pane>>,
    rects: Rects,
    next_tile_id: u64,
}

impl<Pane> View for Tiles<Pane> {
    type V = Map<u64, TileView<Pane>>;

    closed spec fn view(&self) -> Map<u64, TileView<Pane>> {
        self.tiles@.map_values(|tile: Tile<Pane>| tile@)
    }
}

impl<Pane> Default for Tiles<Pane> {
    fn default() -> (t: Tiles<Pane>)
        ensures
            t@ == Map::<u64, TileView<Pane>>::empty(),
            t.rects() == Map::<u64, Rect>::empty(),
            t.next_id() == 0,
            t.wf(),
    {
        let t = Tiles { tiles: HashMap::new(), rects: Rects::new(), next_tile_id: 0 };
        assert(t@ =~= Map::<u64, TileView<Pane>>::empty());
        t
    }
}

impl<Pane> Tiles<Pane> {
    /// The rectangles that the last layout pass gave to the tiles.
    pub closed spec fn rects(&self) -> Map<u64, Rect> {
        self.rects@
    }

    /// The number of the next tile that the store will name itself.
    pub closed spec fn next_id(&self) -> u64 {
        self.next_tile_id
    }

    /// The store is finite, and the number of every tile in it lies below
    /// that of the next one: a tile that the store names itself is new.
    pub closed spec fn wf(&self) -> bool {
        &&& self.tiles@.dom().finite()
        &&& forall|k: u64| self.tiles@.contains_key(k) ==> k < self.next_tile_id
    }

    proof fn lemma_view(&self)
        ensures
            self@.dom() == self.tiles@.dom(),
            forall|k: u64| self.tiles@.contains_key(k) ==> #[trigger] self@[k] == self.tiles@[k]@,
    {
        assert(self@.dom() =~= self.tiles@.dom());
    }

    /// A well-formed store is finite.
    pub proof fn lemma_wf_finite(&self)
        requires
            self.wf(),
        ensures
            self@.dom().finite(),
            forall|k: u64| self@.contains_key(k) ==> k < self.next_id(),
    {
        self.lemma_view();
    }

    /// A store without tiles.
    pub fn new() -> (t: Tiles<Pane>)
        ensures
            t@ == Map::<u64, TileView<Pane>>::empty(),
            t.rects() == Map::<u64, Rect>::empty(),
            t.next_id() == 0,
            t.wf(),
    {
        let t = Tiles { tiles: HashMap::new(), rects: Rects::new(), next_tile_id: 0 };
        assert(t@ =~= Map::<u64, TileView<Pane>>::empty());
        t
    }

    /// The tile under the given identifier, if the store holds one.
    pub fn get(&self, tile_id: TileId) -> (tile: Option<&Tile<Pane>>)
        ensures
            match tile {
                Some(t) => self@.contains_key(tile_id.0) && t@ == self@[tile_id.0],
                None => !self@.contains_key(tile_id.0),
            },
    {
        proof {
            self.lemma_view();
        }
        self.tiles.get(&tile_id.0)
    }

    /// Whether the store holds a tile under this identifier.
    pub fn contains(&self, tile_id: TileId) -> (b: bool)
        ensures
            b == self@.contains_key(tile_id.0),
    {
        proof {
            self.lemma_view();
        }
        self.tiles.contains_key(&tile_id.0)
    }

    /// The number of tiles in the store.
    pub fn len(&self) -> (n: usize)
        ensures
            n == self@.dom().len(),
    {
        proof {
            self.lemma_view();
        }
        self.tiles.len()
    }

    /// Whether the store holds no tile.
    pub fn is_empty(&self) -> (b: bool)
        ensures
            b == (self@.dom().len() == 0),
            b == (self@ == Map::<u64, TileView<Pane>>::empty()),
    {
        proof {
            self.lemma_view();
            if self.tiles@.dom().len() == 0 {
                assert(self@ =~= Map::<u64, TileView<Pane>>::empty());
            }
        }
        self.tiles.len() == 0
    }

    /// The identifiers of all tiles, each once, in no particular order.
    pub fn tile_ids(&self) -> (ids: Vec<TileId>)
        ensures
            ids@.no_duplicates(),
            forall|id: TileId| ids@.contains(id) <==> self@.contains_key(id.0),
    {
        proof {
            self.lemma_view();
        }
        let keys = keys_of(&self.tiles);
        let mut ids: Vec<TileId> = Vec::new();
        let mut i: usize = 0;
        while i < keys.len()
            invariant
                i <= keys@.len(),
                ids@.len() == i,
                forall|j: int| 0 <= j < i ==> ids@[j] == TileId(keys@[j]),
            decreases keys@.len() - i,
        {
            ids.push(TileId(keys[i]));
            i += 1;
        }
        proof {
            assert forall|id: TileId| ids@.contains(id) <==> self@.contains_key(id.0) by {
                if ids@.contains(id) {
                    let j = choose|j: int| 0 <= j < ids@.len() && ids@[j] == id;
                    assert(keys@.to_set().contains(keys@[j]));
                }
                if self@.contains_key(id.0) {
                    assert(keys@.to_set().contains(id.0));
                    let j = choose|j: int| 0 <= j < keys@.len() && keys@[j] == id.0;
                    assert(ids@[j] == id);
                }
            }
        }
        ids
    }

    /// Puts a tile into the store under the given identifier, and hands back
    /// the tile that was there before, if any.
    pub fn insert(&mut self, id: TileId, tile: Tile<Pane>) -> (before: Option<Tile<Pane>>)
        requires
            old(self).wf(),
            id.0 < u64::MAX,
        ensures
            final(self).wf(),
            final(self)@ == old(self)@.insert(id.0, tile@),
            final(self).rects() == old(self).rects(),
            final(self).next_id() == (if id.0 < old(self).next_id() {
                old(self).next_id()
            } else {
                (id.0 + 1) as u64
            }),
            match before {
                Some(t) => old(self)@.contains_key(id.0) && t@ == old(self)@[id.0],
                None => !old(self)@.contains_key(id.0),
            },
    {
        proof {
            self.lemma_view();
        }
        let before = self.tiles.insert(id.0, tile);
        if id.0 >= self.next_tile_id {
            self.next_tile_id = id.0 + 1;
        }
        proof {
            self.lemma_view();
            assert(self@ =~= old(self)@.insert(id.0, tile@));
        }
        before
    }

    /// Takes a tile out of the store. The containers that name it keep naming it.
    pub fn remove(&mut self, id: TileId) -> (tile: Option<Tile<Pane>>)
        requires
            old(self).wf(),
        ensures
            final(self).wf(),
            final(self)@ == old(self)@.remove(id.0),
            final(self).rects() == old(self).rects(),
            final(self).next_id() == old(self).next_id(),
            match tile {
                Some(t) => old(self)@.contains_key(id.0) && t@ == old(self)@[id.0],
                None => !old(self)@.contains_key(id.0),
            },
    {
        proof {
            self.lemma_view();
        }
        let tile = self.tiles.remove(&id.0);
        proof {
            self.lemma_view();
            assert(self@ =~= old(self)@.remove(id.0));
        }
        tile
    }

    /// Whether the store can still name a new tile.
    pub fn can_allocate(&self) -> (b: bool)
        ensures
            b == (self.next_id() < u64::MAX),
    {
        self.next_tile_id < u64::MAX
    }

    /// Puts a tile into the store under a new identifier.
    pub fn insert_tile(&mut self, tile: Tile<Pane>) -> (id: TileId)
        requires
            old(self).wf(),
            old(self).next_id() < u64::MAX,
        ensures
            final(self).wf(),
            id.0 == old(self).next_id(),
            !old(self)@.contains_key(id.0),
            final(self)@ == old(self)@.insert(id.0, tile@),
            final(self).rects() == old(self).rects(),
            final(self).next_id() == old(self).next_id() + 1,
    {
        let id = TileId(self.next_tile_id);
        proof {
            self.lemma_view();
        }
        self.insert(id, tile);
        id
    }

    /// Puts a pane into the store under a new identifier.
    pub fn insert_pane(&mut self, pane: Pane) -> (id: TileId)
        requires
            old(self).wf(),
            old(self).next_id() < u64::MAX,
        ensures
            final(self).wf(),
            id.0 == old(self).next_id(),
            !old(self)@.contains_key(id.0),
            final(self)@ == old(self)@.insert(id.0, TileView::Pane(pane)),
            final(self).rects() == old(self).rects(),
            final(self).next_id() == old(self).next_id() + 1,
    {
        self.insert_tile(Tile::Pane(pane))
    }

    /// Puts a container into the store under a new identifier.
    pub fn insert_container(&mut self, container: Container) -> (id: TileId)
        requires
            old(self).wf(),
            old(self).next_id() < u64::MAX,
        ensures
            final(self).wf(),
            id.0 == old(self).next_id(),
            !old(self)@.contains_key(id.0),
            final(self)@ == old(self)@.insert(id.0, TileView::Container(container@)),
            final(self).rects() == old(self).rects(),
            final(self).next_id() == old(self).next_id() + 1,
    {
        self.insert_tile(Tile::Container(container))
    }

    /// Puts a new container of the given kind, with the given children, into the store.
    pub fn insert_new_container(&mut self, kind: ContainerKind, children: Vec<TileId>) -> (id:
        TileId)
        requires
            old(self).wf(),
            old(self).next_id() < u64::MAX,
        ensures
            final(self).wf(),
            id.0 == old(self).next_id(),
            !old(self)@.contains_key(id.0),
            final(self)@ == old(self)@.insert(
                id.0,
                TileView::Container(ContainerView::of_kind(kind, children@)),
            ),
            final(self).rects() == old(self).rects(),
            final(self).next_id() == old(self).next_id() + 1,
    {
        self.insert_container(Container::new(kind, children))
    }

    /// Puts a new tab container with the given children into the store.
    pub fn insert_tab_tile(&mut self, children: Vec<TileId>) -> (id: TileId)
        requires
            old(self).wf(),
            old(self).next_id() < u64::MAX,
        ensures
            final(self).wf(),
            id.0 == old(self).next_id(),
            !old(self)@.contains_key(id.0),
            final(self)@ == old(self)@.insert(
                id.0,
                TileView::Container(ContainerView::of_kind(ContainerKind::Tabs, children@)),
            ),
            final(self).rects() == old(self).rects(),
            final(self).next_id() == old(self).next_id() + 1,
    {
        self.insert_new_container(ContainerKind::Tabs, children)
    }

    /// Puts a new horizontal container with the given children into the store.
    pub fn insert_horizontal_tile(&mut self, children: Vec<TileId>) -> (id: TileId)
        requires
            old(self).wf(),
            old(self).next_id() < u64::MAX,
        ensures
            final(self).wf(),
            id.0 == old(self).next_id(),
            !old(self)@.contains_key(id.0),
            final(self)@ == old(self)@.insert(
                id.0,
                TileView::Container(ContainerView::of_kind(ContainerKind::Horizontal, children@)),
            ),
            final(self).rects() == old(self).rects(),
            final(self).next_id() == old(self).next_id() + 1,
    {
        self.insert_new_container(ContainerKind::Horizontal, children)
    }

    /// Puts a new vertical container with the given children into the store.
    pub fn insert_vertical_tile(&mut self, children: Vec<TileId>) -> (id: TileId)
        requires
            old(self).wf(),
            old(self).next_id() < u64::MAX,
        ensures
            final(self).wf(),
            id.0 == old(self).next_id(),
            !old(self)@.contains_key(id.0),
            final(self)@ == old(self)@.insert(
                id.0,
                TileView::Container(ContainerView::of_kind(ContainerKind::Vertical, children@)),
            ),
            final(self).rects() == old(self).rects(),
            final(self).next_id() == old(self).next_id() + 1,
    {
        self.insert_new_container(ContainerKind::Vertical, children)
    }

    /// Puts a new grid with the given children into the store.
    pub fn insert_grid_tile(&mut self, children: Vec<TileId>) -> (id: TileId)
        requires
            old(self).wf(),
            old(self).next_id() < u64::MAX,
        ensures
            final(self).wf(),
            id.0 == old(self).next_id(),
            !old(self)@.contains_key(id.0),
            final(self)@ == old(self)@.insert(
                id.0,
                TileView::Container(ContainerView::of_kind(ContainerKind::Grid, children@)),
            ),
            final(self).rects() == old(self).rects(),
            final(self).next_id() == old(self).next_id() + 1,
    {
        self.insert_new_container(ContainerKind::Grid, children)
    }

    /// The rectangle that the last layout pass gave to a tile, if it reached it.
    pub fn try_rect(&self, tile_id: TileId) -> (r: Option<Rect>)
        ensures
            r == (if self.rects().contains_key(tile_id.0) {
                Some(self.rects()[tile_id.0])
            } else {
                None
            }),
    {
        self.rects.try_rect(tile_id)
    }

    /// The rectangle that the last layout pass gave to a tile, or the empty
    /// rectangle at the origin where it did not reach it.
    pub fn rect(&self, tile_id: TileId) -> (r: Rect)
        ensures
            r == rect_of(self.rects(), tile_id),
    {
        self.rects.rect(tile_id)
    }

    /// The table of rectangles of the last layout pass.
    pub fn rect_table(&self) -> (r: &Rects)
        ensures
            r@ == self.rects(),
    {
        &self.rects
    }

    /// Records the rectangle that a layout pass gives to a tile.
    pub fn record_rect(&mut self, tile_id: TileId, rect: Rect)
        ensures
            final(self)@ == old(self)@,
            final(self).rects() == old(self).rects().insert(tile_id.0, rect),
            final(self).next_id() == old(self).next_id(),
            old(self).wf() ==> final(self).wf(),
    {
        self.rects.insert(tile_id, rect);
    }

    /// Forgets the rectangles of the last layout pass.
    pub fn clear_rects(&mut self)
        ensures
            final(self)@ == old(self)@,
            final(self).rects() == Map::<u64, Rect>::empty(),
            final(self).next_id() == old(self).next_id(),
            old(self).wf() ==> final(self).wf(),
    {
        self.rects.clear();
    }
}

impl<Pane> Tiles<Pane> {
    /// The container that names `child_id` among its children; where several
    /// do, one of them.
    pub fn parent_of(&self, child_id: TileId) -> (parent: Option<TileId>)
        ensures
            match parent {
                Some(p) => is_parent_of(self@, p.0, child_id),
                None => forall|k: u64| !is_parent_of(self@, k, child_id),
            },
    {
        let ids = self.tile_ids();
        let mut i: usize = 0;
        while i < ids.len()
            invariant
                i <= ids@.len(),
                forall|id: TileId| ids@.contains(id) <==> self@.contains_key(id.0),
                forall|j: int| 0 <= j < i ==> !is_parent_of(self@, ids@[j].0, child_id),
            decreases ids@.len() - i,
        {
            let id = ids[i];
            assert(ids@.contains(id));
            if let Some(Tile::Container(container)) = self.get(id) {
                if crate::container::children::contains_id(container.children(), child_id) {
                    return Some(id);
                }
            }
            i += 1;
        }
        proof {
            assert forall|k: u64| !is_parent_of(self@, k, child_id) by {
                if self@.contains_key(k) {
                    assert(ids@.contains(TileId(k)));
                    let j = choose|j: int| 0 <= j < ids@.len() && ids@[j] == TileId(k);
                    assert(!is_parent_of(self@, ids@[j].0, child_id));
                }
            }
        }
        None
    }

    /// Takes `remove_me` off the children of every container, and changes
    /// nothing else: the tile itself stays in the store, and a container
    /// that does not name it stays as it is.
    pub fn detach(&mut self, remove_me: TileId)
        requires
            old(self).wf(),
        ensures
            final(self).wf(),
            final(self)@ == detached(old(self)@, remove_me),
            final(self).rects() == old(self).rects(),
            final(self).next_id() == old(self).next_id(),
            (forall|k: u64| !is_parent_of(old(self)@, k, remove_me)) ==> final(self)@ == old(
                self,
            )@,
    {
        proof {
            if forall|k: u64| !is_parent_of(old(self)@, k, remove_me) {
                lemma_detach_unlisted(old(self)@, remove_me);
            }
        }
        let ids = self.tile_ids();
        let keep = |child: TileId| -> (b: bool)
            ensures
                b == (child != remove_me),
            { child != remove_me };
        assert(computes(keep, other_than(remove_me)));
        let mut i: usize = 0;
        while i < ids.len()
            invariant
                i <= ids@.len(),
                ids@.no_duplicates(),
                forall|id: TileId| ids@.contains(id) <==> old(self)@.contains_key(id.0),
                self.wf(),
                self.rects() == old(self).rects(),
                self.next_id() == old(self).next_id(),
                computes(keep, other_than(remove_me)),
                self@.dom() == old(self)@.dom(),
                forall|j: int|
                    0 <= j < i ==> self@[ids@[j].0] == without_child(
                        old(self)@[ids@[j].0],
                        remove_me,
                    ),
                forall|j: int| i <= j < ids@.len() ==> self@[ids@[j].0] == old(self)@[ids@[j].0],
            decreases ids@.len() - i,
        {
            let id = ids[i];
            assert(ids@.contains(id));
            proof {
                self.lemma_wf_finite();
            }
            let ghost before = self@;
            match self.remove(id) {
                Some(Tile::Container(mut container)) => {
                    container.retain(&keep);
                    self.insert(id, Tile::Container(container));
                },
                Some(tile) => {
                    self.insert(id, tile);
                },
                None => {},
            }
            proof {
                assert(self@.dom() =~= old(self)@.dom());
                assert forall|j: int| 0 <= j < ids@.len() && j != i implies self@[ids@[j].0]
                    == before[ids@[j].0] by {
                    assert(ids@[j] != ids@[i as int]);
                }
            }
            i += 1;
        }
        proof {
            assert forall|k: u64| old(self)@.contains_key(k) implies self@[k] == without_child(
                old(self)@[k],
                remove_me,
            ) by {
                assert(ids@.contains(TileId(k)));
                let j = choose|j: int| 0 <= j < ids@.len() && ids@[j] == TileId(k);
                assert(self@[ids@[j].0] == without_child(old(self)@[ids@[j].0], remove_me));
            }
            assert(self@ =~= detached(old(self)@, remove_me));
        }
    }

    /// Puts `child_id` at the insertion point.
    ///
    /// Where the parent is no container of the kind that the insertion
    /// names, the parent becomes a new container of that kind, which holds
    /// the tile that was the parent, under a new identifier, and the child.
    pub fn insert_at(&mut self, insertion_point: InsertionPoint, child_id: TileId)
        requires
            old(self).wf(),
            old(self).next_id() < u64::MAX,
        ensures
            final(self).wf(),
            final(self)@ == inserted_at(
                old(self)@,
                old(self).next_id(),
                insertion_point,
                child_id,
            ),
            final(self).rects() == old(self).rects(),
            final(self).next_id() == (if wraps_parent(old(self)@, insertion_point) {
                (old(self).next_id() + 1) as u64
            } else {
                old(self).next_id()
            }),
    {
        let parent_id = insertion_point.parent_id;
        let kind = insertion_point.insertion.kind();
        let index = insertion_point.insertion.index();
        proof {
            self.lemma_wf_finite();
        }
        let tile = match self.remove(parent_id) {
            Some(tile) => tile,
            None => {
                assert(self@ =~= old(self)@);
                return ;
            },
        };
        match tile {
            Tile::Container(mut container) => {
                if container.kind() == kind {
                    container.insert_child(index, child_id);
                    self.insert(parent_id, Tile::Container(container));
                    assert(self@ =~= inserted_at(
                        old(self)@,
                        old(self).next_id(),
                        insertion_point,
                        child_id,
                    ));
                } else {
                    let moved = self.insert_tile(Tile::Container(container));
                    let mut list: Vec<TileId> = Vec::new();
                    list.push(moved);
                    assert(list@ =~= seq![moved]);
                    let mut wrapper = Container::new(kind, list);
                    wrapper.insert_child(index, child_id);
                    self.insert(parent_id, Tile::Container(wrapper));
                    assert(self@ =~= inserted_at(
                        old(self)@,
                        old(self).next_id(),
                        insertion_point,
                        child_id,
                    ));
                }
            },
            Tile::Pane(pane) => {
                let moved = self.insert_tile(Tile::Pane(pane));
                let mut list: Vec<TileId> = Vec::new();
                list.push(moved);
                assert(list@ =~= seq![moved]);
                let mut wrapper = Container::new(kind, list);
                wrapper.insert_child(index, child_id);
                self.insert(parent_id, Tile::Container(wrapper));
                assert(self@ =~= inserted_at(
                    old(self)@,
                    old(self).next_id(),
                    insertion_point,
                    child_id,
                ));
            },
        }
    }
}

} // verus!
